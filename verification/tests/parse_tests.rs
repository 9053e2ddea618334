use release::parse::parse_version;
use release::parse::versions_of;
use release::Version;

#[test]
fn test_discards_non_conforming() {
    let tags: Vec<String> = vec![
        String::from("foo"),
        String::from("v1.2"),
        String::from("release-1.2.3-beta"),
        String::from("2.0.0"),
    ];
    let parsed = versions_of(&tags);
    assert_eq!(parsed, vec![Version::new(1, 2, 3), Version::new(2, 0, 0)]);
}

#[test]
fn test_parse_plain_triple() {
    assert_eq!(parse_version("1.2.3"), Some(Version::new(1, 2, 3)));
    assert_eq!(parse_version("10.20.30"), Some(Version::new(10, 20, 30)));
    assert_eq!(parse_version("0.0.0"), Some(Version::new(0, 0, 0)));
}

#[test]
fn test_parse_unanchored() {
    assert_eq!(parse_version("release-1.2.3-beta"), Some(Version::new(1, 2, 3)));
    assert_eq!(parse_version("v1.2.3"), Some(Version::new(1, 2, 3)));
    assert_eq!(parse_version("x 9.9.9 and 1.2.3"), Some(Version::new(9, 9, 9)));
    assert_eq!(parse_version("1.2.3.4"), Some(Version::new(1, 2, 3)));
}

#[test]
fn test_parse_rejects() {
    assert_eq!(parse_version("foo"), None);
    assert_eq!(parse_version("v1.2"), None);
    assert_eq!(parse_version(""), None);
    assert_eq!(parse_version("1..2.3"), None);
    assert_eq!(parse_version("a.b.c"), None);
}

#[test]
fn test_parse_leading_zeros() {
    assert_eq!(parse_version("001.002.003"), Some(Version::new(1, 2, 3)));
    assert_eq!(parse_version("0000000000012.0.1"), Some(Version::new(12, 0, 1)));
}

#[test]
fn test_parse_group_overflow() {
    assert_eq!(parse_version("99999999999.0.0"), None);
    assert_eq!(parse_version("4294967295.0.1"), Some(Version::new(u32::MAX, 0, 1)));
    assert_eq!(parse_version("4294967296.0.1"), None);
}

#[test]
fn test_round_trip_of_canonical_display() {
    let samples = vec![
        Version::new(0, 0, 0),
        Version::new(1, 2, 3),
        Version::new(10, 0, 99),
        Version::new(u32::MAX, 1, u32::MAX),
    ];
    for v in samples {
        assert_eq!(parse_version(v.to_version_string().as_str()), Some(v));
    }
}
