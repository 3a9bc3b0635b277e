use flopha::cli::{CommandOptions, LastVersionArgs, NextVersionArgs, VersionSourceName};
use flopha::error::VersionError;
use flopha::pattern::Field;
use flopha::service::{pattern_or_default, plan_last_version, plan_next_version, Outcome};
use flopha::versioning::Increment;

fn names(list: &[&str]) -> Vec<String> {
    list.iter().map(|s| s.to_string()).collect()
}

fn last_args(pattern: &str, source: VersionSourceName, checkout: bool) -> LastVersionArgs {
    LastVersionArgs {
        pattern: Some(pattern.to_string()),
        verbose: false,
        source,
        checkout,
    }
}

fn next_args(pattern: &str, increment: Increment, source: VersionSourceName, create: bool) -> NextVersionArgs {
    NextVersionArgs {
        increment,
        verbose: false,
        pattern: Some(pattern.to_string()),
        create,
        source,
    }
}

#[test]
fn test_last_version_tag_returns_latest_matching_pattern() {
    let tags = names(&[
        "flopha@0.1.0",
        "flopha@1.0.0",
        "flopha@1.0.1",
        "flopha@1.1.1",
        "flopha@1.1.9",
        "flopha@2.10.11",
        "flopha@1.1.10",
        "flopha@2.9.9",
        "flopha@2.10.10",
        "v3.9.9",
    ]);
    let args = last_args("flopha@{major}.{minor}.{patch}", VersionSourceName::Tag, false);
    let result = plan_last_version(tags, &args);
    assert_eq!(result, Ok(Outcome::Print("flopha@2.10.11".to_string())));
}

#[test]
fn test_last_version_tag_returns_none_without_match() {
    let tags = names(&["v0.1.0", "v1.0.0", "v1.0.1"]);
    let args = last_args("flopha@{major}.{minor}.{patch}", VersionSourceName::Tag, false);
    let result = plan_last_version(tags, &args);
    assert_eq!(result, Ok(Outcome::NoVersionFound));
}

#[test]
fn test_last_version_tag_checkout_works() {
    let tags = names(&[
        "flopha@0.1.0",
        "flopha@1.0.0",
        "flopha@1.0.1",
        "flopha@1.1.1",
        "flopha@1.1.2",
        "flopha@0.4.5",
    ]);
    let args = last_args("flopha@{major}.{minor}.{patch}", VersionSourceName::Tag, true);
    let result = plan_last_version(tags, &args);
    assert_eq!(result, Ok(Outcome::Checkout("flopha@1.1.2".to_string())));
}

#[test]
fn test_last_version_tag_returns_none_with_non_matching_pattern() {
    let tags = names(&["v1.0.0", "v1.1.0", "v2.0.0"]);
    let args = last_args("release-{major}.{minor}.{patch}", VersionSourceName::Tag, false);
    let result = plan_last_version(tags, &args);
    assert_eq!(result, Ok(Outcome::NoVersionFound));
}

#[test]
fn test_last_version_returns_last_version_with_given_pattern_for_branches() {
    let branches = names(&[
        "release/0.1.0",
        "release/1.0.0",
        "release/1.0.1",
        "release/1.1.1",
        "release/1.1.9",
        "release/2.10.11",
        "release/1.1.10",
        "release/2.9.9",
        "release/2.10.10",
    ]);
    let args = last_args("release/{major}.{minor}.{patch}", VersionSourceName::Branch, false);
    let result = plan_last_version(branches, &args);
    assert_eq!(result, Ok(Outcome::Print("release/2.10.11".to_string())));
}

#[test]
fn test_last_version_branch_returns_latest_matching_pattern() {
    let branches = names(&["release/1.0.0", "release/1.1.0", "release/2.0.0", "main", "develop"]);
    let args = last_args("release/{major}.{minor}.{patch}", VersionSourceName::Branch, false);
    let result = plan_last_version(branches, &args);
    assert_eq!(result, Ok(Outcome::Print("release/2.0.0".to_string())));
}

#[test]
fn test_last_version_branch_checkout_works() {
    let branches = names(&["release/1.0.0", "release/1.1.0", "release/2.0.0", "release/2.1.0"]);
    let args = last_args("release/{major}.{minor}.{patch}", VersionSourceName::Branch, true);
    let result = plan_last_version(branches, &args);
    assert_eq!(result, Ok(Outcome::Checkout("release/2.1.0".to_string())));
}

#[test]
fn test_next_version_returns_next_version_with_given_pattern() {
    let tags = names(&[
        "flopha@0.1.0",
        "flopha@1.0.0",
        "flopha@1.0.1",
        "flopha@1.1.1",
        "flopha@1.1.9",
        "flopha@2.10.11",
        "flopha@1.1.10",
        "flopha@2.9.9",
        "flopha@2.10.10",
        "v3.9.9",
    ]);
    let args = next_args("flopha@{major}.{minor}.{patch}", Increment::Patch, VersionSourceName::Tag, false);
    let result = plan_next_version(tags, &args);
    assert_eq!(result, Ok(Outcome::Print("flopha@2.10.12".to_string())));
}

#[test]
fn test_next_version_with_tag_create_action() {
    let tags = names(&[
        "flopha@0.1.0",
        "flopha@1.0.0",
        "flopha@1.0.1",
        "flopha@1.1.1",
        "flopha@1.1.2",
        "flopha@0.4.5",
    ]);
    let args = next_args("flopha@{major}.{minor}.{patch}", Increment::Patch, VersionSourceName::Tag, true);
    let result = plan_next_version(tags, &args);
    assert_eq!(result, Ok(Outcome::Create("flopha@1.1.3".to_string())));
}

#[test]
fn next_version_branch_returns_next_version_with_pattern() {
    let branches = names(&[
        "release/0.1.0",
        "release/1.0.0",
        "release/1.0.1",
        "release/1.1.1",
        "release/1.1.9",
        "release/2.10.11",
        "release/1.1.10",
        "release/2.9.9",
        "release/2.10.10",
    ]);
    let args = next_args("release/{major}.{minor}.{patch}", Increment::Patch, VersionSourceName::Branch, false);
    let result = plan_next_version(branches, &args);
    assert_eq!(result, Ok(Outcome::Print("release/2.10.12".to_string())));
}

#[test]
fn test_next_version_branch_returns_none_without_match() {
    let branches = names(&["main", "develop", "feature/new-feature"]);
    let args = next_args("release/{major}.{minor}.{patch}", Increment::Patch, VersionSourceName::Branch, false);
    let result = plan_next_version(branches, &args);
    assert_eq!(result, Ok(Outcome::NoVersionFound));
}

#[test]
fn test_next_version_branch_with_create_action() {
    let branches = names(&["release/1.0.0", "release/1.1.0", "release/2.0.0"]);
    let args = next_args("release/{major}.{minor}.{patch}", Increment::Minor, VersionSourceName::Branch, true);
    let result = plan_next_version(branches, &args);
    assert_eq!(result, Ok(Outcome::Create("release/2.1.0".to_string())));
}

#[test]
fn default_pattern_is_used_when_none_given() {
    assert_eq!(pattern_or_default(&None), "v{major}.{minor}.{patch}".to_string());
    assert_eq!(pattern_or_default(&Some("r{major}".to_string())), "r{major}".to_string());
    let args = LastVersionArgs {
        pattern: None,
        verbose: false,
        source: VersionSourceName::Tag,
        checkout: false,
    };
    let result = plan_last_version(names(&["v0.9.0", "v1.0.0", "r2.0.0"]), &args);
    assert_eq!(result, Ok(Outcome::Print("v1.0.0".to_string())));
}

#[test]
fn next_version_errors_are_passed_on() {
    let args = next_args("v1.{minor}.{patch}", Increment::Major, VersionSourceName::Tag, true);
    let result = plan_next_version(names(&["v1.0.0", "v1.0.1"]), &args);
    assert_eq!(result, Err(VersionError::IncrementFieldMissing(Field::Major)));
    let args = last_args("{patch}-{patch}", VersionSourceName::Tag, false);
    let result = plan_last_version(names(&["1-1"]), &args);
    assert_eq!(result, Err(VersionError::DuplicatePlaceholder(Field::Patch)));
}

#[test]
fn command_options_default_is_quiet() {
    assert!(!CommandOptions::default().verbose);
}
