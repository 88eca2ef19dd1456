use agent_hud::navigation::{open_thread, thread_uri, NavigationError};

#[test]
fn constructs_existing_thread_uri() {
    assert_eq!(
        thread_uri("8f5d0a4e-7f1c-4ca4-9d8b-0123456789ab"),
        Ok("codex://threads/8f5d0a4e-7f1c-4ca4-9d8b-0123456789ab".to_owned())
    );
}

#[test]
fn rejects_values_that_cannot_be_one_uri_path_segment() {
    for thread_id in [
        "",
        " ",
        "thread/id",
        "thread?query",
        "thread#fragment",
        "тред",
    ] {
        assert_eq!(thread_uri(thread_id), Err(NavigationError::InvalidThreadId));
    }
}

#[test]
fn invalid_thread_id_fails_before_platform_launch() {
    assert_eq!(
        open_thread("not a thread id", |_uri: String| -> Result<(), NavigationError> {
            panic!("the launcher must not be reached")
        }),
        Err(NavigationError::InvalidThreadId)
    );
}

#[test]
fn valid_thread_id_is_handed_to_the_launcher_as_its_link() {
    let result = open_thread("thread-1", |uri: String| {
        assert_eq!(uri, "codex://threads/thread-1");
        Err(NavigationError::WindowsDispatchFailed(2))
    });
    assert_eq!(result, Err(NavigationError::WindowsDispatchFailed(2)));
}
