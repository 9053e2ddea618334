//! Tag-derived release resolution: the outcome of listing tag names, the
//! sorted version set, and the resolver that computes the current version
//! and the next one for a requested bump kind.

use vstd::prelude::*;

use crate::parse::spec_versions;
use crate::parse::versions_of;
use crate::parse::views_of;
use crate::version::SemType;
use crate::version::Version;
use crate::version::can_bump;
use crate::version::lemma_successor_gt;
use crate::version::spec_le;
use crate::version::spec_lt;
use crate::version::spec_successor;
use crate::version::spec_version_str;

verus! {

broadcast use vstd::seq_lib::group_to_multiset_ensures;

/// Listing the repository's tags failed at the version-control layer.
#[derive(Clone, Copy, PartialEq, Eq, Structural, Debug)]
pub struct TagListingError;

/// The outcome of listing tag names: the raw names, or a listing failure.
pub type GitTags = Result<Vec<String>, TagListingError>;

/// Something that can yield the versions encoded in its tag names.
pub trait Vesionable {
    fn versions(&self) -> Option<Vec<Version>>;
}

impl Vesionable for GitTags {
    /// A successful listing yields the versions of its conforming names in
    /// listing order; a failed listing yields no versions at all.
    fn versions(&self) -> (r: Option<Vec<Version>>)
        ensures
            match *self {
                Ok(ref tags) => r matches Some(v) && v@ == spec_versions(views_of(tags@)),
                Err(_) => r is None,
            },
    {
        match *self {
            Ok(ref tags) => Some(versions_of(tags)),
            Err(_) => None,
        }
    }
}

/// The version set is in ascending order.
pub open spec fn sorted(s: Seq<Version>) -> bool {
    forall|i: int, j: int| 0 <= i < j < s.len() ==> spec_le(s[i], s[j])
}

/// The current version of a version set: its last (greatest, once sorted)
/// element, or the initial version `0.0.0` when the set is empty.
pub open spec fn spec_current(s: Seq<Version>) -> Version {
    if s.len() == 0 {
        Version { major: 0, minor: 0, patch: 0 }
    } else {
        s.last()
    }
}

/// What one bump does to the version set: it appends the successor of the
/// current version under the requested kind.
pub open spec fn spec_incr(s: Seq<Version>, k: SemType) -> Seq<Version> {
    s.push(spec_successor(spec_current(s), k))
}

/// Insert `x` into an ascending vector, before its first strictly greater
/// element, keeping the order.
fn insert_sorted(out: &mut Vec<Version>, x: Version)
    requires
        sorted(old(out)@),
    ensures
        sorted(final(out)@),
        final(out)@.to_multiset() == old(out)@.to_multiset().insert(x),
{
    let mut p: usize = 0;
    while p < out.len() && !x.lt(&out[p])
        invariant
            p <= out@.len(),
            forall|q: int| 0 <= q < p ==> spec_le(out@[q], x),
        decreases out@.len() - p,
    {
        p += 1;
    }
    let ghost pre = out@;
    out.insert(p, x);
    proof {
        let post = out@;
        assert forall|i: int, j: int| 0 <= i < j < post.len() implies spec_le(
            post[i],
            post[j],
        ) by {
            if i < p && j == p {
            } else if i == p && j > p {
                assert(spec_lt(x, pre[p as int]));
                assert(spec_le(pre[p as int], post[j]));
            } else {
            }
        }
    }
}

/// Sort a version set ascending by repeated ordered insertion. The result
/// holds exactly the input's versions, as a multiset.
fn sort_versions(v: Vec<Version>) -> (r: Vec<Version>)
    ensures
        sorted(r@),
        r@.to_multiset() == v@.to_multiset(),
{
    let mut out: Vec<Version> = Vec::new();
    let mut i: usize = 0;
    proof {
        assert(v@.subrange(0, 0) =~= Seq::<Version>::empty());
    }
    while i < v.len()
        invariant
            i <= v@.len(),
            sorted(out@),
            out@.to_multiset() == v@.subrange(0, i as int).to_multiset(),
        decreases v@.len() - i,
    {
        insert_sorted(&mut out, v[i]);
        proof {
            assert(v@.subrange(0, i + 1) =~= v@.subrange(0, i as int).push(v@[i as int]));
        }
        i += 1;
    }
    proof {
        assert(v@.subrange(0, v@.len() as int) =~= v@);
    }
    out
}

/// The release resolver: the version set derived once from the repository's
/// tags, sorted ascending, with each version computed in this session
/// appended at the end.
pub struct Release {
    versions: Vec<Version>,
}

impl View for Release {
    type V = Seq<Version>;

    closed spec fn view(&self) -> Seq<Version> {
        self.versions@
    }
}

impl Release {
    /// Build a resolver from the parsed versions; a missing set (a failed
    /// listing) counts as empty. The set is sorted ascending on construction
    /// and holds exactly the given versions.
    pub fn new(versions: Option<Vec<Version>>) -> (r: Release)
        ensures
            sorted(r@),
            versions matches Some(v) ==> r@.to_multiset() == v@.to_multiset(),
            versions is None ==> r@ == Seq::<Version>::empty(),
    {
        match versions {
            Some(v) => Release { versions: sort_versions(v) },
            None => Release { versions: Vec::new() },
        }
    }

    /// The defined initial version, used when no semver tag exists yet.
    pub fn get_initial_version() -> (r: Version)
        ensures
            r == (Version { major: 0, minor: 0, patch: 0 }),
    {
        Version::new(0, 0, 0)
    }

    /// The current version: the last element of the set, or the initial
    /// version `0.0.0` when the set is empty.
    pub fn current(&self) -> (r: Version)
        ensures
            r == spec_current(self@),
    {
        if self.versions.len() == 0 {
            Release::get_initial_version()
        } else {
            self.versions[self.versions.len() - 1]
        }
    }

    /// Whether a bump of kind `vtype` has room: the targeted field of the
    /// current version is not yet at its maximum.
    pub fn can_incr(&self, vtype: SemType) -> (r: bool)
        ensures
            r == can_bump(spec_current(self@), vtype),
    {
        let cur: Version = self.current();
        match vtype {
            SemType::MAJOR => cur.major < u32::MAX,
            SemType::MINOR => cur.minor < u32::MAX,
            SemType::PATCH => cur.patch < u32::MAX,
        }
    }

    /// The version a bump of kind `vtype` produces next: the successor of
    /// the current version. Pure: the stored set is not touched.
    pub fn next(&self, vtype: SemType) -> (r: Version)
        requires
            can_bump(spec_current(self@), vtype),
        ensures
            r == spec_successor(spec_current(self@), vtype),
    {
        self.current().incr(vtype)
    }

    /// Compute the next version under `vtype` and append it to the
    /// in-memory set, so that repeated bumps in one session build on each
    /// other.
    pub fn incr(&mut self, vtype: SemType)
        requires
            can_bump(spec_current(old(self)@), vtype),
        ensures
            final(self)@ == spec_incr(old(self)@, vtype),
    {
        let val: Version = self.next(vtype);
        self.versions.push(val);
    }

    /// Compute and record the next version under `vtype`, and return the
    /// canonical tag name to create for it.
    pub fn release_tag_name(&mut self, vtype: SemType) -> (r: String)
        requires
            can_bump(spec_current(old(self)@), vtype),
        ensures
            final(self)@ == spec_incr(old(self)@, vtype),
            r@ == spec_version_str(spec_successor(spec_current(old(self)@), vtype)),
    {
        self.incr(vtype);
        let latest: Version = self.current();
        latest.to_version_string()
    }

    /// The version set, ascending, with session-computed versions appended.
    pub fn versions(&self) -> (r: &Vec<Version>)
        ensures
            r@ == self@,
    {
        &self.versions
    }
}

/// A bump appends a version strictly greater than every element of a sorted
/// set, so the set stays sorted.
pub proof fn lemma_incr_sorted(s: Seq<Version>, k: SemType)
    requires
        sorted(s),
        can_bump(spec_current(s), k),
    ensures
        sorted(spec_incr(s, k)),
{
    lemma_successor_gt(spec_current(s), k);
    let t = spec_incr(s, k);
    assert forall|i: int, j: int| 0 <= i < j < t.len() implies spec_le(t[i], t[j]) by {
        if j == s.len() {
            if i < s.len() - 1 {
                assert(spec_le(s[i], s[s.len() - 1]));
            }
        }
    }
}

/// Bumping twice in one session, without re-reading tags, appends both
/// computed versions after the set that was read, in increasing order.
pub proof fn lemma_publish_twice_appends(s: Seq<Version>, k1: SemType, k2: SemType)
    requires
        can_bump(spec_current(s), k1),
        can_bump(spec_current(spec_incr(s, k1)), k2),
    ensures
        ({
            let v1 = spec_successor(spec_current(s), k1);
            let v2 = spec_successor(v1, k2);
            spec_incr(spec_incr(s, k1), k2) == s.push(v1).push(v2) && spec_lt(v1, v2)
        }),
{
    let v1 = spec_successor(spec_current(s), k1);
    assert(spec_current(spec_incr(s, k1)) == v1);
    lemma_successor_gt(v1, k2);
}

} // verus!
