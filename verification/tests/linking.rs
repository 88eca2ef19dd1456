use agent_hud::linking::{
    GitHubLink, GitHubReference, GitHubReferenceKind, GitHubRepository, LinkSource,
    LinkValidation,
};
use std::str::FromStr;

#[test]
fn qualified_issue_and_pull_request_references_are_deterministic() {
    let issue = GitHubReference::parse_qualified("miki-thecat/agent-hud#85").unwrap();
    let pull_request = GitHubReference::parse_qualified("miki-thecat/agent-hud!113").unwrap();

    assert_eq!(issue.kind, GitHubReferenceKind::Issue);
    assert_eq!(issue.to_string(), "miki-thecat/agent-hud#85");
    assert_eq!(
        issue.url(),
        "https://github.com/miki-thecat/agent-hud/issues/85"
    );
    assert_eq!(pull_request.kind, GitHubReferenceKind::PullRequest);
    assert_eq!(
        pull_request.url(),
        "https://github.com/miki-thecat/agent-hud/pull/113"
    );
}

#[test]
fn bare_or_prose_references_are_not_guessed() {
    for value in ["#85", "!113", "fixes #85", "agent-hud#85"] {
        assert!(GitHubReference::parse_qualified(value).is_none(), "{value}");
    }
}

#[test]
fn repository_identity_is_part_of_reference_equality_and_url() {
    let first = GitHubReference::parse_qualified("one/project#7").unwrap();
    let second = GitHubReference::parse_qualified("two/project#7").unwrap();

    assert_ne!(first, second);
    assert_ne!(first.url(), second.url());
}

#[test]
fn canonical_urls_round_trip_and_reject_other_routes() {
    for value in [
        "https://github.com/one/project/issues/7",
        "https://github.com/one/project/pull/8",
    ] {
        let reference = GitHubReference::parse_url(value).unwrap();
        assert_eq!(
            GitHubReference::parse_url(&reference.url()),
            Some(reference)
        );
    }
    for value in [
        "http://github.com/one/project/issues/7",
        "https://github.com/one/project/issues/7/extra",
        "https://github.com/one/project/commit/7",
        "https://github.com/one/project/issues/0",
    ] {
        assert!(GitHubReference::parse_url(value).is_none(), "{value}");
    }
}

#[test]
fn repositories_require_exactly_two_valid_segments() {
    assert_eq!(
        GitHubRepository::from_str("one/project").unwrap(),
        GitHubRepository {
            owner: "one".into(),
            name: "project".into(),
        }
    );
    for value in [
        "project",
        "one/project/extra",
        "one/project name",
        "/project",
    ] {
        assert!(GitHubRepository::from_str(value).is_err(), "{value}");
    }
}

#[test]
fn links_preserve_explicit_source_and_validation_metadata() {
    let shorthand = GitHubLink::parse_qualified("one/project#7").unwrap();
    assert_eq!(shorthand.source, LinkSource::QualifiedShorthand);
    assert_eq!(shorthand.validation, LinkValidation::Validated);
    assert_eq!(shorthand.to_string(), "one/project#7");

    let url = GitHubLink::parse_url("https://one.invalid/project/issues/7");
    assert!(url.is_none(), "only canonical github.com URLs are accepted");

    let canonical = GitHubLink::parse_url("https://github.com/one/project/issues/7").unwrap();
    assert_eq!(canonical.source, LinkSource::CanonicalUrl);
    assert_eq!(canonical.validation, LinkValidation::Validated);
    assert_eq!(canonical.url(), "https://github.com/one/project/issues/7");
}

#[test]
fn metadata_can_record_an_unvalidated_reference_without_changing_parsing() {
    let reference = GitHubReference::parse_qualified("one/project#7").unwrap();
    let link = GitHubLink::new(
        reference,
        LinkSource::QualifiedShorthand,
        LinkValidation::Unvalidated,
    );

    assert_eq!(link.validation, LinkValidation::Unvalidated);
    assert_eq!(link.to_string(), "one/project#7");
}

#[test]
fn shorthand_round_trips_through_its_text() {
    let repository = GitHubRepository::new("one", "project").unwrap();
    let reference =
        GitHubReference::new(repository, GitHubReferenceKind::PullRequest, 12345).unwrap();
    let text = reference.to_string();
    assert_eq!(text, "one/project!12345");
    assert_eq!(GitHubReference::parse_qualified(&text), Some(reference));
}

#[test]
fn zero_and_oversized_numbers_and_bad_segments_are_refused() {
    let repository = GitHubRepository::new("one", "project").unwrap();
    assert!(GitHubReference::new(repository, GitHubReferenceKind::Issue, 0).is_none());
    assert!(GitHubReference::parse_qualified("one/project#18446744073709551616").is_none());
    assert!(GitHubReference::parse_qualified("one/project#+7").is_some());
    assert!(GitHubRepository::new("", "project").is_none());
    assert!(GitHubRepository::new(&"a".repeat(101), "project").is_none());
    assert!(GitHubRepository::new(&"a".repeat(100), "project").is_some());
    assert!(GitHubReference::parse_url("https://github.com/one/project/issues/7?tab=1").is_none());
    assert!(GitHubReference::parse_url("https://github.com/one/project/issues/7/").is_none());
}
