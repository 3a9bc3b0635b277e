use flopha::error::VersionError;
use flopha::pattern::Field;
use flopha::versioning::{Increment, Version, Versioner};

fn sample_tags() -> Vec<String> {
    vec![
        "v1.0.0".to_string(),
        "v1.0.1".to_string(),
        "v1.0.2".to_string(),
        "v2.2.1".to_string(),
        "v1.1.0".to_string(),
        "v2.0.0".to_string(),
        "v2.1.0".to_string(),
        "v2.1.1".to_string(),
        "v2.1.2".to_string(),
        "v2.2.0".to_string(),
        "z4.0.0".to_string(),
    ]
}

#[test]
fn test_last_version() {
    let tags = sample_tags();
    let versioner = Versioner::new(tags.clone(), "v{major}.{minor}.{patch}".to_string());
    let last_version = versioner.last_version();
    assert_eq!(
        last_version,
        Some(Version::new(
            "v2.2.1".to_string(),
            Some(2),
            Some(2),
            Some(1)
        ))
    );

    let versioner = Versioner::new(tags, "no-{major}.{minor}.{patch}".to_string());
    let last_version = versioner.last_version();
    assert_eq!(last_version, None);
}

#[test]
fn test_scoped_last_version() {
    let tags = sample_tags();
    let versioner = Versioner::new(tags.clone(), "v1.{minor}.{patch}".to_string());
    let last_version = versioner.last_version();
    assert_eq!(
        last_version,
        Some(Version::new("v1.1.0".to_string(), None, Some(1), Some(0)))
    );

    let versioner = Versioner::new(tags, "v{major}.0.{patch}".to_string());
    let last_version = versioner.last_version();
    assert_eq!(
        last_version,
        Some(Version::new("v2.0.0".to_string(), Some(2), None, Some(0)))
    );
}

#[test]
fn test_last_version_with_mixed_semantic_versioning_pattern() {
    let versioner = Versioner::new(
        vec![
            "v1.0.1".to_string(),
            "v2.0.1".to_string(),
            "v3.0.1".to_string(),
            "v1.2.2".to_string(),
            "v1.0.3".to_string(),
            "v2.2.1".to_string(),
            "v1.1.1".to_string(),
            "v2.1.1".to_string(),
            "v2.1.2".to_string(),
            "v2.2.0".to_string(),
            "z4.0.0".to_string(),
        ],
        "v{patch}.{minor}.{major}".to_string(),
    );
    let last_version = versioner.last_version();
    assert_eq!(
        last_version,
        Some(Version::new(
            "v1.0.3".to_string(),
            Some(3),
            Some(0),
            Some(1)
        ))
    );
}

#[test]
fn test_next_version() {
    let tags = sample_tags();
    let versioner = Versioner::new(tags.clone(), "v{major}.{minor}.{patch}".to_string());
    let next_version = versioner.next_version(Increment::Major);
    assert_eq!(
        next_version,
        Some(Version::new(
            "v3.0.0".to_string(),
            Some(3),
            Some(0),
            Some(0)
        ))
    );

    let next_version = versioner.next_version(Increment::Minor);
    assert_eq!(
        next_version,
        Some(Version::new(
            "v2.3.0".to_string(),
            Some(2),
            Some(3),
            Some(0)
        ))
    );

    let next_version = versioner.next_version(Increment::Patch);
    assert_eq!(
        next_version,
        Some(Version::new(
            "v2.2.2".to_string(),
            Some(2),
            Some(2),
            Some(2)
        ))
    );
}

#[test]
fn test_next_version_returns_none_when_no_last_version() {
    let versioner = Versioner::new(
        vec!["v1.0.0".to_string(), "v1.0.1".to_string()],
        "no-{major}.{minor}.{patch}".to_string(),
    );
    let next_version = versioner.next_version(Increment::Major);
    assert_eq!(next_version, None);
}

#[test]
fn test_next_version_panic_when_no_increment_in_pattern() {
    let versioner = Versioner::new(
        vec!["v1.0.0".to_string(), "v1.0.1".to_string()],
        "v1.{minor}.{patch}".to_string(),
    );
    assert_eq!(
        versioner.try_next_version(Increment::Major),
        Err(VersionError::IncrementFieldMissing(Field::Major))
    );
}

#[test]
fn unscoped_field_is_reported_for_minor_and_patch() {
    let versioner = Versioner::new(vec!["v2.2".to_string()], "v{major}.{minor}".to_string());
    assert_eq!(
        versioner.try_next_version(Increment::Patch),
        Err(VersionError::IncrementFieldMissing(Field::Patch))
    );
    assert_eq!(
        versioner.try_next_version(Increment::Minor),
        Ok(Some(Version::new("v2.3".to_string(), Some(2), Some(3), Some(0))))
    );
    let versioner = Versioner::new(vec!["r7".to_string()], "r{minor}".to_string());
    assert_eq!(
        versioner.try_next_version(Increment::Minor),
        Err(VersionError::IncrementFieldMissing(Field::Major))
    );
}

#[test]
fn dots_in_pattern_are_literal() {
    let versioner = Versioner::new(
        vec!["v1x0x0".to_string()],
        "v{major}.{minor}.{patch}".to_string(),
    );
    assert_eq!(versioner.last_version(), None);
    let versioner = Versioner::new(
        vec!["v1x0x0".to_string(), "v0.0.1".to_string()],
        "v{major}.{minor}.{patch}".to_string(),
    );
    assert_eq!(
        versioner.last_version(),
        Some(Version::new("v0.0.1".to_string(), Some(0), Some(0), Some(1)))
    );
}

#[test]
fn whole_name_must_match() {
    let versioner = Versioner::new(
        vec!["xv1.0.0".to_string(), "v1.0.0-rc".to_string(), "v1.0".to_string()],
        "v{major}.{minor}.{patch}".to_string(),
    );
    assert_eq!(versioner.last_version(), None);
}

#[test]
fn placeholder_order_does_not_change_priority() {
    let versioner = Versioner::new(
        vec!["v9.9.1".to_string(), "v0.0.2".to_string()],
        "v{patch}.{minor}.{major}".to_string(),
    );
    assert_eq!(
        versioner.last_version(),
        Some(Version::new("v0.0.2".to_string(), Some(2), Some(0), Some(0)))
    );
}

#[test]
fn numbers_compare_by_value_not_text() {
    let versioner = Versioner::new(
        vec!["v1.9.0".to_string(), "v1.10.0".to_string(), "v1.2.0".to_string()],
        "v{major}.{minor}.{patch}".to_string(),
    );
    assert_eq!(
        versioner.last_version(),
        Some(Version::new("v1.10.0".to_string(), Some(1), Some(10), Some(0)))
    );
}

#[test]
fn equal_versions_pick_the_last_one() {
    let versioner = Versioner::new(
        vec!["v1.0.0".to_string(), "v01.0.0".to_string(), "v0.9.0".to_string()],
        "v{major}.{minor}.{patch}".to_string(),
    );
    assert_eq!(
        versioner.last_version(),
        Some(Version::new("v01.0.0".to_string(), Some(1), Some(0), Some(0)))
    );
}

#[test]
fn no_candidates_means_no_version() {
    let versioner = Versioner::new(vec![], "v{major}.{minor}.{patch}".to_string());
    assert_eq!(versioner.last_version(), None);
    assert_eq!(versioner.next_version(Increment::Patch), None);
}

#[test]
fn pattern_without_placeholders_matches_itself() {
    let versioner = Versioner::new(
        vec!["stable".to_string(), "stable2".to_string()],
        "stable".to_string(),
    );
    assert_eq!(
        versioner.last_version(),
        Some(Version::new("stable".to_string(), None, None, None))
    );
}

#[test]
fn duplicate_placeholder_is_refused() {
    let versioner = Versioner::new(
        vec!["1.1".to_string()],
        "{major}.{major}".to_string(),
    );
    assert_eq!(
        versioner.try_last_version(),
        Err(VersionError::DuplicatePlaceholder(Field::Major))
    );
}

#[test]
fn number_too_large_is_malformed() {
    let versioner = Versioner::new(
        vec!["v1.0.0".to_string(), "v99999999999.0.0".to_string(), "v4294967296.0.0".to_string()],
        "v{major}.{minor}.{patch}".to_string(),
    );
    assert_eq!(
        versioner.try_last_version(),
        Err(VersionError::MalformedCandidate("v99999999999.0.0".to_string()))
    );
}

#[test]
fn largest_number_is_read_and_not_advanced() {
    let versioner = Versioner::new(
        vec!["v4294967295.0.0".to_string()],
        "v{major}.{minor}.{patch}".to_string(),
    );
    assert_eq!(
        versioner.try_last_version(),
        Ok(Some(Version::new("v4294967295.0.0".to_string(), Some(4294967295), Some(0), Some(0))))
    );
    assert_eq!(
        versioner.try_next_version(Increment::Major),
        Err(VersionError::IncrementOverflow(Field::Major))
    );
    assert_eq!(
        versioner.try_next_version(Increment::Minor),
        Ok(Some(Version::new("v4294967295.1.0".to_string(), Some(4294967295), Some(1), Some(0))))
    );
}

#[test]
fn next_version_renders_through_reordered_pattern() {
    let versioner = Versioner::new(
        vec!["r3-2-1".to_string()],
        "r{patch}-{minor}-{major}".to_string(),
    );
    assert_eq!(
        versioner.next_version(Increment::Major),
        Some(Version::new("r0-0-2".to_string(), Some(2), Some(0), Some(0)))
    );
}

#[test]
fn next_version_reads_back_through_pattern() {
    let tags = sample_tags();
    let versioner = Versioner::new(tags, "v{major}.{minor}.{patch}".to_string());
    for inc in [Increment::Major, Increment::Minor, Increment::Patch] {
        let next = versioner.next_version(inc).unwrap();
        let again = Versioner::new(vec![next.tag.clone()], "v{major}.{minor}.{patch}".to_string());
        assert_eq!(again.last_version(), Some(next));
    }
}
