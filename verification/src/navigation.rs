//! Navigation to an existing agent thread through its documented deep link.
//!
//! The library validates the thread identifier and builds the link; handing
//! the link to the platform's URI handler is done by a launcher that the
//! caller supplies. A successful launch means only that the platform accepted
//! the dispatch; it does not establish that a particular window was focused.

use vstd::prelude::*;

use crate::text::chars_of;

verus! {

#[derive(Debug, PartialEq, Eq)]
pub enum NavigationError {
    InvalidThreadId,
    UnsupportedPlatform,
    WindowsDispatchFailed(u32),
}

/// A character allowed in one URI path segment naming a thread.
pub open spec fn is_thread_id_char(c: char) -> bool {
    ('a' <= c <= 'z') || ('A' <= c <= 'Z') || ('0' <= c <= '9') || c == '-'
}

/// A non-empty identifier of ASCII letters, digits and hyphens.
pub open spec fn valid_thread_id(id: Seq<char>) -> bool {
    &&& id.len() > 0
    &&& forall|i: int| 0 <= i < id.len() ==> is_thread_id_char(#[trigger] id[i])
}

/// The deep link of a thread.
pub open spec fn thread_link(id: Seq<char>) -> Seq<char> {
    "codex://threads/"@ + id
}

pub fn is_valid_thread_id(thread_id: &str) -> (valid: bool)
    ensures
        valid == valid_thread_id(thread_id@),
{
    let chars = chars_of(thread_id);
    if chars.len() == 0 {
        return false;
    }
    let mut i: usize = 0;
    while i < chars.len()
        invariant
            i <= chars@.len(),
            chars@ == thread_id@,
            forall|j: int| 0 <= j < i ==> is_thread_id_char(#[trigger] chars@[j]),
        decreases chars.len() - i,
    {
        let c = chars[i];
        if !(('a' <= c && c <= 'z') || ('A' <= c && c <= 'Z') || ('0' <= c && c <= '9') || c
            == '-') {
            return false;
        }
        i = i + 1;
    }
    true
}

/// Build the documented URI for an existing thread.
pub fn thread_uri(thread_id: &str) -> (uri: Result<String, NavigationError>)
    ensures
        valid_thread_id(thread_id@) ==> (uri matches Ok(u) && u@ == thread_link(thread_id@)),
        !valid_thread_id(thread_id@) ==> uri == Err::<String, NavigationError>(
            NavigationError::InvalidThreadId,
        ),
{
    if !is_valid_thread_id(thread_id) {
        return Err(NavigationError::InvalidThreadId);
    }
    let mut uri = String::new();
    uri.append("codex://threads/");
    uri.append(thread_id);
    Ok(uri)
}

/// Ask the platform, through `launch`, to dispatch an existing thread's deep
/// link. An invalid identifier is refused before anything is launched.
pub fn open_thread<F>(thread_id: &str, launch: F) -> (result: Result<(), NavigationError>) where
    F: FnOnce(String) -> Result<(), NavigationError>,

    requires
        valid_thread_id(thread_id@) ==> forall|uri: String|
            uri@ == thread_link(thread_id@) ==> call_requires(launch, (uri,)),
    ensures
        !valid_thread_id(thread_id@) ==> result == Err::<(), NavigationError>(
            NavigationError::InvalidThreadId,
        ),
        valid_thread_id(thread_id@) ==> exists|uri: String|
            uri@ == thread_link(thread_id@) && #[trigger] call_ensures(launch, (uri,), result),
{
    match thread_uri(thread_id) {
        Err(error) => Err(error),
        Ok(uri) => {
            let ghost sent = uri;
            let result = launch(uri);
            proof {
                assert(call_ensures(launch, (sent,), result));
            }
            result
        },
    }
}

} // verus!
