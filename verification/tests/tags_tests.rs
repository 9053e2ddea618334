use release::GitTags;
use release::Release;
use release::SemType;
use release::TagListingError;
use release::Version;
use release::Vesionable;

#[test]
fn test_empty_tag_list_current_is_initial() {
    let release = Release::new(Some(vec![]));
    assert_eq!(release.current(), Version::new(0, 0, 0));
    let from_failure = Release::new(None);
    assert_eq!(from_failure.current(), Version::new(0, 0, 0));
    assert_eq!(Release::get_initial_version(), Version::new(0, 0, 0));
}

#[test]
fn test_sorted_ascending_current_and_next() {
    let tags: GitTags = Ok(vec![
        String::from("1.0.0"),
        String::from("1.2.0"),
        String::from("1.1.5"),
    ]);
    let release = Release::new(tags.versions());
    assert_eq!(
        *release.versions(),
        vec![Version::new(1, 0, 0), Version::new(1, 1, 5), Version::new(1, 2, 0)]
    );
    assert_eq!(release.current(), Version::new(1, 2, 0));
    assert_eq!(release.next(SemType::MINOR), Version::new(1, 3, 0));
    assert_eq!(release.next(SemType::PATCH), Version::new(1, 2, 1));
}

#[test]
fn test_failed_listing_yields_no_versions() {
    let tags: GitTags = Err(TagListingError);
    assert_eq!(tags.versions(), None);
    let ok: GitTags = Ok(vec![String::from("2.4.6"), String::from("nope")]);
    assert_eq!(ok.versions(), Some(vec![Version::new(2, 4, 6)]));
}

#[test]
fn test_publish_twice_appends_in_increasing_order() {
    let mut release = Release::new(Some(vec![Version::new(1, 2, 0)]));
    release.incr(SemType::MINOR);
    release.incr(SemType::PATCH);
    assert_eq!(
        *release.versions(),
        vec![Version::new(1, 2, 0), Version::new(1, 3, 0), Version::new(1, 3, 1)]
    );
    let appended = &release.versions()[1..];
    assert!(appended[0].lt(&appended[1]));
}

#[test]
fn test_release_tag_name_records_and_formats() {
    let mut release = Release::new(Some(vec![Version::new(1, 2, 0)]));
    let name = release.release_tag_name(SemType::MINOR);
    assert_eq!(name, "1.3.0");
    assert_eq!(release.current(), Version::new(1, 3, 0));
    let again = release.release_tag_name(SemType::PATCH);
    assert_eq!(again, "1.3.1");
}

#[test]
fn test_can_incr_guard() {
    let release = Release::new(Some(vec![Version::new(1, 2, 3)]));
    assert!(release.can_incr(SemType::MAJOR));
    let maxed = Release::new(Some(vec![Version::new(u32::MAX, 0, 0)]));
    assert!(!maxed.can_incr(SemType::MAJOR));
    assert!(maxed.can_incr(SemType::MINOR));
    assert!(maxed.can_incr(SemType::PATCH));
}

#[test]
fn test_duplicate_versions_kept() {
    let release = Release::new(Some(vec![
        Version::new(1, 0, 0),
        Version::new(0, 9, 0),
        Version::new(1, 0, 0),
    ]));
    assert_eq!(
        *release.versions(),
        vec![Version::new(0, 9, 0), Version::new(1, 0, 0), Version::new(1, 0, 0)]
    );
}
