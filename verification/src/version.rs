//! The semantic-version value type and the bump-kind enumeration.

use vstd::prelude::*;

verus! {

/// The kind of version bump requested: which field of a `Version` increments.
#[allow(non_camel_case_types)]
#[derive(Clone, Copy, PartialEq, Eq, Structural, Debug)]
pub enum SemType {
    MAJOR,
    MINOR,
    PATCH,
}

/// A semantic version: a (major, minor, patch) triple with a lexicographic
/// total order and a canonical `"MAJOR.MINOR.PATCH"` text form.
#[derive(Clone, Copy, PartialEq, Eq, Structural, Debug)]
pub struct Version {
    pub major: u32,
    pub minor: u32,
    pub patch: u32,
}

/// Strict lexicographic order on (major, minor, patch).
pub open spec fn spec_lt(a: Version, b: Version) -> bool {
    a.major < b.major
        || (a.major == b.major && a.minor < b.minor)
        || (a.major == b.major && a.minor == b.minor && a.patch < b.patch)
}

/// Non-strict lexicographic order on (major, minor, patch).
pub open spec fn spec_le(a: Version, b: Version) -> bool {
    spec_lt(a, b) || a == b
}

/// The field targeted by bump kind `k` has room to increment in `v`.
pub open spec fn can_bump(v: Version, k: SemType) -> bool {
    match k {
        SemType::MAJOR => v.major < u32::MAX,
        SemType::MINOR => v.minor < u32::MAX,
        SemType::PATCH => v.patch < u32::MAX,
    }
}

/// Successor under standard semver reset rules: a major bump zeroes minor
/// and patch, a minor bump zeroes patch, a patch bump touches patch alone.
pub open spec fn spec_successor(v: Version, k: SemType) -> Version {
    match k {
        SemType::MAJOR => Version { major: (v.major + 1) as u32, minor: 0, patch: 0 },
        SemType::MINOR => Version { major: v.major, minor: (v.minor + 1) as u32, patch: 0 },
        SemType::PATCH => Version { major: v.major, minor: v.minor, patch: (v.patch + 1) as u32 },
    }
}

impl SemType {
    /// Compute the version that follows `version` under this bump kind.
    pub fn incr_version(&self, version: Version) -> (r: Version)
        requires
            can_bump(version, *self),
        ensures
            r == spec_successor(version, *self),
    {
        match *self {
            SemType::MAJOR => Version::new(version.major + 1, 0, 0),
            SemType::MINOR => Version::new(version.major, version.minor + 1, 0),
            SemType::PATCH => Version::new(version.major, version.minor, version.patch + 1),
        }
    }

    /// Map a user-supplied token to a bump kind. The match is exact and
    /// case-sensitive; any unrecognized token falls back to `PATCH`.
    pub fn select(flag: String) -> (r: SemType)
        ensures
            flag@ == "major"@ ==> r == SemType::MAJOR,
            flag@ == "minor"@ ==> r == SemType::MINOR,
            flag@ != "major"@ && flag@ != "minor"@ ==> r == SemType::PATCH,
    {
        proof {
            reveal_strlit("major");
            reveal_strlit("minor");
            reveal_strlit("patch");
            assert("major"@[1] == 'a' && "minor"@[1] == 'i');
        }
        let f: &str = flag.as_str();
        if str_eq(f, "major") {
            SemType::MAJOR
        } else if str_eq(f, "minor") {
            SemType::MINOR
        } else if str_eq(f, "patch") {
            SemType::PATCH
        } else {
            SemType::PATCH
        }
    }
}

impl Version {
    pub fn new(major: u32, minor: u32, patch: u32) -> (r: Version)
        ensures
            r == (Version { major, minor, patch }),
    {
        Version { major, minor, patch }
    }

    /// The version that follows this one under bump kind `semtype`.
    pub fn incr(&self, semtype: SemType) -> (r: Version)
        requires
            can_bump(*self, semtype),
        ensures
            r == spec_successor(*self, semtype),
    {
        semtype.incr_version(*self)
    }

    /// The canonical text form `"MAJOR.MINOR.PATCH"`, used for tag names.
    pub fn to_version_string(&self) -> (s: String)
        ensures
            s@ == spec_version_str(*self),
    {
        proof {
            reveal_strlit(".");
        }
        let mut s: String = u32_to_string(self.major);
        s.append(".");
        let minor_s: String = u32_to_string(self.minor);
        s.append(minor_s.as_str());
        s.append(".");
        let patch_s: String = u32_to_string(self.patch);
        s.append(patch_s.as_str());
        proof {
            assert(s@ =~= spec_version_str(*self));
        }
        s
    }

    /// The debug text form: the canonical form prefixed with `'v'`.
    pub fn to_debug_string(&self) -> (s: String)
        ensures
            s@ == seq!['v'] + spec_version_str(*self),
    {
        proof {
            reveal_strlit("v");
        }
        let mut s: String = "v".to_owned();
        let body: String = self.to_version_string();
        s.append(body.as_str());
        proof {
            assert(s@ =~= seq!['v'] + spec_version_str(*self));
        }
        s
    }

    /// Strict-order comparison, used to sort version sets ascending.
    pub fn lt(&self, other: &Version) -> (r: bool)
        ensures
            r == spec_lt(*self, *other),
    {
        self.major < other.major
            || (self.major == other.major && self.minor < other.minor)
            || (self.major == other.major && self.minor == other.minor
                && self.patch < other.patch)
    }
}

/// The character for a single decimal digit.
pub open spec fn spec_digit_char(d: int) -> char {
    if d == 0 {
        '0'
    } else if d == 1 {
        '1'
    } else if d == 2 {
        '2'
    } else if d == 3 {
        '3'
    } else if d == 4 {
        '4'
    } else if d == 5 {
        '5'
    } else if d == 6 {
        '6'
    } else if d == 7 {
        '7'
    } else if d == 8 {
        '8'
    } else {
        '9'
    }
}

/// The decimal rendering of a non-negative integer, with no leading zeros
/// (a lone `'0'` for zero).
pub open spec fn spec_decimal(n: int) -> Seq<char>
    decreases n,
{
    if n < 10 {
        seq![spec_digit_char(n)]
    } else {
        spec_decimal(n / 10).push(spec_digit_char(n % 10))
    }
}

/// The canonical text form `"MAJOR.MINOR.PATCH"` of a version.
pub open spec fn spec_version_str(v: Version) -> Seq<char> {
    spec_decimal(v.major as int) + seq!['.'] + spec_decimal(v.minor as int) + seq!['.']
        + spec_decimal(v.patch as int)
}

/// A one-character string slice for the decimal digit `d`.
fn digit_str(d: u32) -> (s: &'static str)
    requires
        d < 10,
    ensures
        s@ == seq![spec_digit_char(d as int)],
{
    proof {
        reveal_strlit("0");
        reveal_strlit("1");
        reveal_strlit("2");
        reveal_strlit("3");
        reveal_strlit("4");
        reveal_strlit("5");
        reveal_strlit("6");
        reveal_strlit("7");
        reveal_strlit("8");
        reveal_strlit("9");
    }
    let s: &'static str = if d == 0 {
        "0"
    } else if d == 1 {
        "1"
    } else if d == 2 {
        "2"
    } else if d == 3 {
        "3"
    } else if d == 4 {
        "4"
    } else if d == 5 {
        "5"
    } else if d == 6 {
        "6"
    } else if d == 7 {
        "7"
    } else if d == 8 {
        "8"
    } else {
        "9"
    };
    proof {
        assert(s@ =~= seq![spec_digit_char(d as int)]);
    }
    s
}

/// Render a `u32` in decimal, matching `spec_decimal`.
pub fn u32_to_string(n: u32) -> (s: String)
    ensures
        s@ == spec_decimal(n as int),
    decreases n,
{
    if n < 10 {
        digit_str(n).to_owned()
    } else {
        let mut s: String = u32_to_string(n / 10);
        s.append(digit_str(n % 10));
        proof {
            assert(s@ =~= spec_decimal(n as int));
        }
        s
    }
}

/// Character-wise string equality: true exactly when the two views agree.
fn str_eq(a: &str, b: &str) -> (r: bool)
    ensures
        r == (a@ == b@),
{
    let n: usize = a.unicode_len();
    if n != b.unicode_len() {
        return false;
    }
    let mut i: usize = 0;
    while i < n
        invariant
            n == a@.len(),
            n == b@.len(),
            i <= n,
            forall|j: int| 0 <= j < i ==> a@[j] == b@[j],
        decreases n - i,
    {
        if a.get_char(i) != b.get_char(i) {
            return false;
        }
        i += 1;
    }
    proof {
        assert(a@ =~= b@);
    }
    true
}

/// The successor of a version is strictly greater than it, for every bump kind.
pub proof fn lemma_successor_gt(v: Version, k: SemType)
    requires
        can_bump(v, k),
    ensures
        spec_lt(v, spec_successor(v, k)),
{
}

/// A patch bump increments the patch field by one, leaves major and minor
/// unchanged, and yields a strictly greater version.
pub proof fn lemma_patch_successor(v: Version)
    requires
        can_bump(v, SemType::PATCH),
    ensures
        spec_successor(v, SemType::PATCH).patch == v.patch + 1,
        spec_successor(v, SemType::PATCH).major == v.major,
        spec_successor(v, SemType::PATCH).minor == v.minor,
        spec_lt(v, spec_successor(v, SemType::PATCH)),
{
}

} // verus!
