//! The logical project a session belongs to.

use vstd::prelude::*;

use crate::discovery::{project_label, project_label_of};
use crate::text::{
    chars_of, copy_opt, opt_chars, opt_text_equal, split_char, split_on, string_from_chars,
    sub_chars, trim, trim_bounds, trim_str,
};

verus! {

/// The identity of a project: its display name, its canonical root when one
/// exists on disk, and the repository's common git directory when known.
#[derive(Debug, PartialEq, Eq)]
pub struct ProjectIdentity {
    pub normalized_name: String,
    pub root_path: Option<String>,
    pub repository_identity: Option<String>,
}

pub type ProjectIdentityView = (Seq<char>, Option<Seq<char>>, Option<Seq<char>>);

impl ProjectIdentity {
    pub open spec fn view(self) -> ProjectIdentityView {
        (self.normalized_name@, opt_chars(self.root_path), opt_chars(self.repository_identity))
    }

    /// Whether two identities are the same complete identity.
    pub fn same_as(&self, other: &ProjectIdentity) -> (same: bool)
        ensures
            same == (self.view() == other.view()),
    {
        self.normalized_name == other.normalized_name && opt_text_equal(
            &self.root_path,
            &other.root_path,
        ) && opt_text_equal(&self.repository_identity, &other.repository_identity)
    }
}

impl Clone for ProjectIdentity {
    fn clone(&self) -> (copy: Self)
        ensures
            copy == *self,
    {
        ProjectIdentity {
            normalized_name: self.normalized_name.clone(),
            root_path: copy_opt(&self.root_path),
            repository_identity: copy_opt(&self.repository_identity),
        }
    }
}

/// Equality of two optional identities by their complete identity.
pub open spec fn opt_identity_view(o: Option<ProjectIdentity>) -> Option<ProjectIdentityView> {
    match o {
        Some(p) => Some(p.view()),
        None => None,
    }
}

pub fn same_opt_identity(a: Option<&ProjectIdentity>, b: Option<&ProjectIdentity>) -> (same: bool)
    ensures
        same == (match (a, b) {
            (Some(x), Some(y)) => x.view() == y.view(),
            (None, None) => true,
            _ => false,
        }),
{
    match (a, b) {
        (Some(x), Some(y)) => x.same_as(y),
        (None, None) => true,
        _ => false,
    }
}

pub fn copy_opt_identity(o: &Option<ProjectIdentity>) -> (copy: Option<ProjectIdentity>)
    ensures
        copy == *o,
{
    match o {
        Some(p) => Some(p.clone()),
        None => None,
    }
}


/// How many lines a text has, as `str::lines` counts them: a final line
/// break ends the last line rather than starting an empty one.
pub open spec fn line_count(s: Seq<char>) -> nat {
    if s.len() == 0 {
        0
    } else if s.last() == '\n' {
        (split_on(s, '\n').len() - 1) as nat
    } else {
        split_on(s, '\n').len()
    }
}

/// Line `k` of a text as `str::lines` yields it, up to a carriage return
/// before the line break (which trimming removes).
pub open spec fn line_of(s: Seq<char>, k: nat) -> Option<Seq<char>> {
    if k < line_count(s) {
        Some(split_on(s, '\n')[k as int])
    } else {
        None
    }
}

/// The two paths `git rev-parse --show-toplevel --git-common-dir` prints:
/// its first two lines, trimmed.
pub open spec fn reported_paths(output: Seq<char>) -> Option<(Seq<char>, Seq<char>)> {
    match (line_of(output, 0), line_of(output, 1)) {
        (Some(top), Some(common)) => Some((trim(top), trim(common))),
        _ => None,
    }
}

/// Reads the output of `git rev-parse --show-toplevel --git-common-dir`:
/// the top-level directory and the common git directory, each trimmed, or
/// `None` when the output has fewer than two lines. Relative paths are left
/// for the caller to resolve against the working directory.
pub fn repository_paths(output: &str) -> (paths: Option<(String, String)>)
    ensures
        match reported_paths(output@) {
            Some((top, common)) => paths matches Some((t, c)) && t@ == top && c@ == common,
            None => paths is None,
        },
{
    let chars = chars_of(output);
    let parts = split_char(output, '\n');
    proof {
        assert(parts@.len() == split_on(output@, '\n').len());
        assert(split_on(output@, '\n').len() >= 1);
    }
    let n = chars.len();
    if n == 0 {
        return None;
    }
    let count: usize = if chars[n - 1] == '\n' {
        parts.len() - 1
    } else {
        parts.len()
    };
    proof {
        assert(chars@.last() == chars@[n - 1]);
    }
    if count < 2 {
        return None;
    }
    proof {
        assert(parts@[0]@ == split_on(output@, '\n')[0]);
        assert(parts@[1]@ == split_on(output@, '\n')[1]);
    }
    let (a, b) = trim_bounds(parts[0].as_slice());
    let top = string_from_chars(sub_chars(parts[0].as_slice(), a, b).as_slice());
    let (c, d) = trim_bounds(parts[1].as_slice());
    let common = string_from_chars(sub_chars(parts[1].as_slice(), c, d).as_slice());
    Some((top, common))
}

/// Where git places the repository of a working directory: its top-level
/// directory and its common git directory, both canonical.
#[derive(Debug, PartialEq, Eq)]
pub struct RepositoryLocation {
    pub root: String,
    pub common_dir: String,
}

/// The identity of the project a session's working directory belongs to:
/// the repository's top-level directory when git reports one, otherwise the
/// directory itself; each named by its final path component.
pub open spec fn identity_from(
    cwd: Option<Seq<char>>,
    repository: Option<(Seq<char>, Seq<char>)>,
    canonical_cwd: Option<Seq<char>>,
) -> Option<ProjectIdentityView> {
    match cwd {
        None => None,
        Some(c) => if trim(c).len() == 0 {
            None
        } else {
            match repository {
                Some((root, common)) => match project_label_of(Some(root)) {
                    Some(name) => Some((name, Some(root), Some(common))),
                    None => None,
                },
                None => match project_label_of(Some(trim(c))) {
                    Some(name) => Some((name, canonical_cwd, None)),
                    None => None,
                },
            }
        },
    }
}

impl ProjectIdentity {
    /// The identity of the project of `cwd`. `repository` is what git
    /// reported for the directory, and `canonical_cwd` the directory's
    /// canonical path, when it exists on disk.
    pub fn from_cwd(
        cwd: Option<&str>,
        repository: Option<RepositoryLocation>,
        canonical_cwd: Option<String>,
    ) -> (identity: Option<Self>)
        ensures
            opt_identity_view(identity) == identity_from(
                match cwd {
                    Some(c) => Some(c@),
                    None => None,
                },
                match repository {
                    Some(r) => Some((r.root@, r.common_dir@)),
                    None => None,
                },
                opt_chars(canonical_cwd),
            ),
    {
        let cwd = match cwd {
            Some(c) => c,
            None => {
                return None;
            },
        };
        let trimmed = trim_str(cwd);
        if trimmed.as_str().unicode_len() == 0 {
            return None;
        }
        match repository {
            Some(location) => match project_label(Some(location.root.as_str())) {
                Some(name) => Some(
                    ProjectIdentity {
                        normalized_name: name,
                        root_path: Some(location.root),
                        repository_identity: Some(location.common_dir),
                    },
                ),
                None => None,
            },
            None => match project_label(Some(trimmed.as_str())) {
                Some(name) => Some(
                    ProjectIdentity {
                        normalized_name: name,
                        root_path: canonical_cwd,
                        repository_identity: None,
                    },
                ),
                None => None,
            },
        }
    }
}
} // verus!
