use agent_hud::project::{repository_paths, ProjectIdentity, RepositoryLocation};

#[test]
fn repository_path_provides_root_and_repository_identity() {
    let identity = ProjectIdentity::from_cwd(
        Some("/home/user/dev/agent-hud/src"),
        Some(RepositoryLocation {
            root: "/home/user/dev/agent-hud".into(),
            common_dir: "/home/user/dev/agent-hud/.git".into(),
        }),
        Some("/home/user/dev/agent-hud/src".into()),
    )
    .unwrap();
    assert_eq!(identity.normalized_name, "agent-hud");
    assert!(identity.root_path.is_some());
    assert!(identity.repository_identity.is_some());
    assert_eq!(identity.root_path.as_deref(), Some("/home/user/dev/agent-hud"));
}

#[test]
fn nonexistent_path_falls_back_to_cwd_name() {
    let identity = ProjectIdentity::from_cwd(Some(r"C:\work\sample-project"), None, None).unwrap();
    assert_eq!(identity.normalized_name, "sample-project");
    assert_eq!(identity.root_path, None);
    assert_eq!(identity.repository_identity, None);
}

#[test]
fn missing_project_information_is_none() {
    assert_eq!(ProjectIdentity::from_cwd(None, None, None), None);
    assert_eq!(ProjectIdentity::from_cwd(Some("   "), None, None), None);
    assert!(ProjectIdentity::from_cwd(Some(r"C:\"), None, None).is_none());
}

#[test]
fn existing_directory_outside_a_repository_keeps_its_canonical_root() {
    let identity = ProjectIdentity::from_cwd(
        Some("  /srv/tools/ "),
        None,
        Some("/srv/tools".into()),
    )
    .unwrap();
    assert_eq!(identity.normalized_name, "tools");
    assert_eq!(identity.root_path.as_deref(), Some("/srv/tools"));
    assert_eq!(identity.repository_identity, None);
}

#[test]
fn git_output_gives_top_level_and_common_directory() {
    assert_eq!(
        repository_paths("/home/me/repo\n/home/me/repo/.git\n"),
        Some(("/home/me/repo".to_string(), "/home/me/repo/.git".to_string()))
    );
    assert_eq!(
        repository_paths(" C:/dev/hud \r\n.git\r\n"),
        Some(("C:/dev/hud".to_string(), ".git".to_string()))
    );
    assert_eq!(
        repository_paths("/a\n/b"),
        Some(("/a".to_string(), "/b".to_string()))
    );
    assert_eq!(repository_paths("/home/me/repo\n"), None);
    assert_eq!(repository_paths(""), None);
}
