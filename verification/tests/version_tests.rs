use release::SemType;
use release::Version;

#[test]
fn test_version_string() {
    let version: Version = Version::new(1, 0, 0);
    assert_eq!(version.to_version_string(), "1.0.0")
}

#[test]
fn test_version_debug_string() {
    let version: Version = Version::new(1, 0, 0);
    assert_eq!(version.to_debug_string(), "v1.0.0")
}

#[test]
fn test_increment_version() {
    let version: Version = Version::new(1, 0, 0);
    let incrv: Version = version.incr(SemType::PATCH);
    assert_eq!(incrv.to_version_string(), "1.0.1")
}

#[test]
fn test_patch_successor_exact_fields() {
    let v = Version::new(4, 7, 9);
    let s = v.incr(SemType::PATCH);
    assert_eq!(s, Version::new(4, 7, 10));
    assert!(v.lt(&s));
}

#[test]
fn test_successor_formula_per_kind() {
    let v = Version::new(1, 2, 3);
    assert_eq!(v.incr(SemType::MAJOR), Version::new(2, 0, 0));
    assert_eq!(v.incr(SemType::MINOR), Version::new(1, 3, 0));
    assert_eq!(v.incr(SemType::PATCH), Version::new(1, 2, 4));

    let w = Version::new(0, 0, 0);
    assert_eq!(w.incr(SemType::MAJOR), Version::new(1, 0, 0));
    assert_eq!(w.incr(SemType::MINOR), Version::new(0, 1, 0));
    assert_eq!(w.incr(SemType::PATCH), Version::new(0, 0, 1));
}

#[test]
fn test_select_recognized_tokens() {
    assert_eq!(SemType::select(String::from("major")), SemType::MAJOR);
    assert_eq!(SemType::select(String::from("minor")), SemType::MINOR);
    assert_eq!(SemType::select(String::from("patch")), SemType::PATCH);
}

#[test]
fn test_select_fallback() {
    assert_eq!(SemType::select(String::from("MAJOR")), SemType::PATCH);
    assert_eq!(SemType::select(String::from("bogus")), SemType::PATCH);
    assert_eq!(SemType::select(String::from("")), SemType::PATCH);
}

#[test]
fn test_formatting_multi_digit() {
    let v = Version::new(12, 0, 305);
    assert_eq!(v.to_version_string(), "12.0.305");
    assert_eq!(v.to_debug_string(), "v12.0.305");
    let m = Version::new(u32::MAX, u32::MAX, u32::MAX);
    assert_eq!(m.to_version_string(), "4294967295.4294967295.4294967295");
}

#[test]
fn test_order_is_lexicographic() {
    assert!(Version::new(1, 0, 0).lt(&Version::new(1, 1, 5)));
    assert!(Version::new(1, 1, 5).lt(&Version::new(1, 2, 0)));
    assert!(Version::new(1, 9, 9).lt(&Version::new(2, 0, 0)));
    assert!(!Version::new(2, 0, 0).lt(&Version::new(1, 9, 9)));
    assert!(!Version::new(1, 2, 3).lt(&Version::new(1, 2, 3)));
}
