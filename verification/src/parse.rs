//! Extraction of semantic versions from raw tag names.
//!
//! A tag name conforms when it contains, anywhere in the string, three runs
//! of decimal digits separated by literal dots. Matching is unanchored and
//! leftmost: the first position where such a dotted triple begins decides,
//! and each digit run is maximal. Non-conforming names are discarded.

use vstd::prelude::*;

use crate::version::Version;
use crate::version::spec_decimal;
use crate::version::spec_digit_char;
use crate::version::spec_version_str;

verus! {

/// `c` is a decimal digit.
pub open spec fn is_digit(c: char) -> bool {
    '0' as int <= c as int && c as int <= '9' as int
}

/// The numeric value of a digit character.
pub open spec fn digit_val(c: char) -> int {
    c as int - '0' as int
}

/// The end of the maximal digit run that starts at `i`.
pub open spec fn run_end(s: Seq<char>, i: int) -> int
    decreases s.len() - i,
{
    if 0 <= i < s.len() && is_digit(s[i]) {
        run_end(s, i + 1)
    } else {
        i
    }
}

/// A dotted digit triple begins exactly at position `i`: a non-empty digit
/// run, a dot, a non-empty digit run, a dot, a non-empty digit run.
pub open spec fn match_at(s: Seq<char>, i: int) -> bool {
    let e1 = run_end(s, i);
    let e2 = run_end(s, e1 + 1);
    let e3 = run_end(s, e2 + 1);
    &&& e1 > i
    &&& e1 < s.len()
    &&& s[e1] == '.'
    &&& e2 > e1 + 1
    &&& e2 < s.len()
    &&& s[e2] == '.'
    &&& e3 > e2 + 1
}

/// The value of a sequence of digit characters read in base ten.
pub open spec fn seq_digits_val(s: Seq<char>) -> int
    decreases s.len(),
{
    if s.len() == 0 {
        0
    } else {
        10 * seq_digits_val(s.drop_last()) + digit_val(s.last())
    }
}

/// The three group values of the triple that begins at `i`.
pub open spec fn groups_at(s: Seq<char>, i: int) -> (int, int, int) {
    let e1 = run_end(s, i);
    let e2 = run_end(s, e1 + 1);
    let e3 = run_end(s, e2 + 1);
    (
        seq_digits_val(s.subrange(i, e1)),
        seq_digits_val(s.subrange(e1 + 1, e2)),
        seq_digits_val(s.subrange(e2 + 1, e3)),
    )
}

/// The groups of the leftmost triple that begins at or after `i`, if any.
pub open spec fn spec_parse_from(s: Seq<char>, i: int) -> Option<(int, int, int)>
    decreases s.len() - i,
{
    if i >= s.len() {
        None
    } else if match_at(s, i) {
        Some(groups_at(s, i))
    } else {
        spec_parse_from(s, i + 1)
    }
}

/// The groups of the leftmost dotted digit triple in `s`, if any.
pub open spec fn spec_parse(s: Seq<char>) -> Option<(int, int, int)> {
    spec_parse_from(s, 0)
}

/// The version built from matched groups, provided every group fits in
/// `u32`; a triple with an oversized group is discarded.
pub open spec fn version_of_groups(t: (int, int, int)) -> Option<Version> {
    if t.0 <= u32::MAX && t.1 <= u32::MAX && t.2 <= u32::MAX {
        Some(Version { major: t.0 as u32, minor: t.1 as u32, patch: t.2 as u32 })
    } else {
        None
    }
}

/// The version extracted from a raw tag name, if it conforms.
pub open spec fn spec_parse_version(s: Seq<char>) -> Option<Version> {
    match spec_parse(s) {
        Some(t) => version_of_groups(t),
        None => None,
    }
}

/// Bounds and content of a maximal digit run.
proof fn lemma_run_end(s: Seq<char>, i: int)
    requires
        0 <= i <= s.len(),
    ensures
        i <= run_end(s, i) <= s.len(),
        forall|j: int| i <= j < run_end(s, i) ==> is_digit(s[j]),
        run_end(s, i) == s.len() || !is_digit(s[run_end(s, i)]),
    decreases s.len() - i,
{
    if i < s.len() && is_digit(s[i]) {
        lemma_run_end(s, i + 1);
    }
}

/// A digit run that ends exactly where the digits stop is what `run_end` finds.
proof fn lemma_run_end_exact(s: Seq<char>, i: int, e: int)
    requires
        0 <= i <= e <= s.len(),
        forall|j: int| i <= j < e ==> is_digit(s[j]),
        e == s.len() || !is_digit(s[e]),
    ensures
        run_end(s, i) == e,
    decreases e - i,
{
    if i < e {
        lemma_run_end_exact(s, i + 1, e);
    }
}

/// A decimal rendering is a non-empty run of digits whose base-ten value is
/// the rendered number.
proof fn lemma_decimal_val(n: int)
    requires
        n >= 0,
    ensures
        spec_decimal(n).len() >= 1,
        forall|j: int| 0 <= j < spec_decimal(n).len() ==> is_digit(#[trigger] spec_decimal(n)[j]),
        seq_digits_val(spec_decimal(n)) == n,
    decreases n,
{
    if n < 10 {
        let s = seq![spec_digit_char(n)];
        assert(s.drop_last() =~= Seq::<char>::empty());
        assert(seq_digits_val(Seq::<char>::empty()) == 0);
        assert(s.last() == spec_digit_char(n));
        assert(seq_digits_val(s) == digit_val(spec_digit_char(n)));
    } else {
        lemma_decimal_val(n / 10);
        let s = spec_decimal(n);
        assert(s.drop_last() =~= spec_decimal(n / 10));
        assert(seq_digits_val(s) == 10 * (n / 10) + digit_val(spec_digit_char(n % 10)));
    }
}

/// Round trip of the canonical display: parsing the canonical text form of
/// any version yields that version back.
pub proof fn lemma_format_parse_round_trip(v: Version)
    ensures
        spec_parse_version(spec_version_str(v)) == Some(v),
{
    let d1 = spec_decimal(v.major as int);
    let d2 = spec_decimal(v.minor as int);
    let d3 = spec_decimal(v.patch as int);
    lemma_decimal_val(v.major as int);
    lemma_decimal_val(v.minor as int);
    lemma_decimal_val(v.patch as int);
    let s = spec_version_str(v);
    let e1 = d1.len() as int;
    let e2 = e1 + 1 + d2.len();
    let e3 = e2 + 1 + d3.len();
    assert(s.len() == e3);
    assert(forall|j: int| 0 <= j < e1 ==> s[j] == d1[j]);
    assert(s[e1] == '.');
    assert(forall|j: int| e1 + 1 <= j < e2 ==> s[j] == d2[j - (e1 + 1)]);
    assert(s[e2] == '.');
    assert(forall|j: int| e2 + 1 <= j < e3 ==> s[j] == d3[j - (e2 + 1)]);
    assert(!is_digit('.'));
    lemma_run_end_exact(s, 0, e1);
    lemma_run_end_exact(s, e1 + 1, e2);
    lemma_run_end_exact(s, e2 + 1, e3);
    assert(match_at(s, 0));
    assert(s.subrange(0, e1) =~= d1);
    assert(s.subrange(e1 + 1, e2) =~= d2);
    assert(s.subrange(e2 + 1, e3) =~= d3);
    assert(groups_at(s, 0) == (v.major as int, v.minor as int, v.patch as int));
    assert(spec_parse_from(s, 0) == Some(groups_at(s, 0)));
}

fn is_digit_exec(c: char) -> (r: bool)
    ensures
        r == is_digit(c),
{
    let u: u32 = c as u32;
    48 <= u && u <= 57
}

/// Compute the end of the maximal digit run that starts at `i`.
fn run_end_exec(s: &Vec<char>, i: usize) -> (e: usize)
    requires
        i <= s@.len(),
    ensures
        e as int == run_end(s@, i as int),
        i <= e <= s@.len(),
{
    let n: usize = s.len();
    let mut j: usize = i;
    while j < n && is_digit_exec(s[j])
        invariant
            i <= j <= n,
            n == s@.len(),
            run_end(s@, i as int) == run_end(s@, j as int),
        decreases n - j,
    {
        j += 1;
    }
    j
}

/// Digit values are non-negative, so a digit sequence has a non-negative value.
proof fn lemma_digits_val_nonneg(s: Seq<char>)
    requires
        forall|k: int| 0 <= k < s.len() ==> is_digit(s[k]),
    ensures
        seq_digits_val(s) >= 0,
    decreases s.len(),
{
    if s.len() > 0 {
        lemma_digits_val_nonneg(s.drop_last());
    }
}

/// Extending a digit run to the right never shrinks its value.
proof fn lemma_digits_val_mono(s: Seq<char>, from: int, mid: int, to: int)
    requires
        0 <= from <= mid <= to <= s.len(),
        forall|k: int| from <= k < to ==> is_digit(s[k]),
    ensures
        seq_digits_val(s.subrange(from, to)) >= seq_digits_val(s.subrange(from, mid)),
    decreases to - mid,
{
    if mid < to {
        lemma_digits_val_mono(s, from, mid, to - 1);
        let sub = s.subrange(from, to);
        assert(sub.drop_last() =~= s.subrange(from, to - 1));
        lemma_digits_val_nonneg(sub.drop_last());
    }
}

/// Read the digit run `s[from..to]` as a `u32`; `None` when its value is too
/// large for `u32`.
fn digits_to_u32(s: &Vec<char>, from: usize, to: usize) -> (r: Option<u32>)
    requires
        from <= to <= s@.len(),
        forall|k: int| from <= k < to ==> is_digit(s@[k]),
    ensures
        match r {
            Some(v) => v as int == seq_digits_val(s@.subrange(from as int, to as int)),
            None => seq_digits_val(s@.subrange(from as int, to as int)) > u32::MAX,
        },
{
    let mut acc: u32 = 0;
    let mut j: usize = from;
    proof {
        assert(s@.subrange(from as int, from as int) =~= Seq::<char>::empty());
    }
    while j < to
        invariant
            from <= j <= to,
            to <= s@.len(),
            forall|k: int| from <= k < to ==> is_digit(s@[k]),
            acc as int == seq_digits_val(s@.subrange(from as int, j as int)),
        decreases to - j,
    {
        let d: u32 = (s[j] as u32) - 48;
        proof {
            let sub = s@.subrange(from as int, j + 1);
            assert(sub.drop_last() =~= s@.subrange(from as int, j as int));
            assert(sub.last() == s@[j as int]);
        }
        let m: Option<u32> = acc.checked_mul(10);
        match m {
            Some(prod) => {
                let sum: Option<u32> = prod.checked_add(d);
                match sum {
                    Some(x) => {
                        acc = x;
                    },
                    None => {
                        proof {
                            lemma_digits_val_mono(s@, from as int, j + 1, to as int);
                        }
                        return None;
                    },
                }
            },
            None => {
                proof {
                    lemma_digits_val_mono(s@, from as int, j + 1, to as int);
                }
                return None;
            },
        }
        j += 1;
    }
    Some(acc)
}

/// Try the pattern at position `i` alone. `None`: no triple begins at `i`.
/// `Some(r)`: a triple begins at `i`, and `r` is its version, or `None` when
/// a group overflows `u32`.
fn parse_at(s: &Vec<char>, i: usize) -> (r: Option<Option<Version>>)
    requires
        i < s@.len(),
    ensures
        match r {
            None => !match_at(s@, i as int),
            Some(opt) => match_at(s@, i as int) && opt == version_of_groups(
                groups_at(s@, i as int),
            ),
        },
{
    let n: usize = s.len();
    let e1: usize = run_end_exec(s, i);
    if !(e1 > i && e1 < n && s[e1] == '.') {
        return None;
    }
    let e2: usize = run_end_exec(s, e1 + 1);
    if !(e2 > e1 + 1 && e2 < n && s[e2] == '.') {
        return None;
    }
    let e3: usize = run_end_exec(s, e2 + 1);
    if !(e3 > e2 + 1) {
        return None;
    }
    proof {
        lemma_run_end(s@, i as int);
        lemma_run_end(s@, e1 + 1);
        lemma_run_end(s@, e2 + 1);
    }
    let g1: Option<u32> = digits_to_u32(s, i, e1);
    let g2: Option<u32> = digits_to_u32(s, e1 + 1, e2);
    let g3: Option<u32> = digits_to_u32(s, e2 + 1, e3);
    match (g1, g2, g3) {
        (Some(a), Some(b), Some(c)) => Some(Some(Version::new(a, b, c))),
        _ => Some(None),
    }
}

/// Collect the characters of `s` into a vector.
fn str_to_chars(s: &str) -> (v: Vec<char>)
    ensures
        v@ == s@,
{
    let n: usize = s.unicode_len();
    let mut v: Vec<char> = Vec::new();
    let mut i: usize = 0;
    proof {
        assert(v@ =~= s@.subrange(0, 0));
    }
    while i < n
        invariant
            i <= n,
            n == s@.len(),
            v@ == s@.subrange(0, i as int),
        decreases n - i,
    {
        v.push(s.get_char(i));
        proof {
            assert(v@ =~= s@.subrange(0, i + 1));
        }
        i += 1;
    }
    proof {
        assert(v@ =~= s@);
    }
    v
}

/// Extract a version from a raw tag name: the leftmost dotted digit triple,
/// each maximal digit group read in base ten. `None` when no triple occurs
/// in the name, or when a group's value does not fit in `u32`.
pub fn parse_version(s: &str) -> (r: Option<Version>)
    ensures
        r == spec_parse_version(s@),
{
    let chars: Vec<char> = str_to_chars(s);
    let n: usize = chars.len();
    let mut i: usize = 0;
    while i < n
        invariant
            i <= n,
            n == s@.len(),
            chars@ == s@,
            spec_parse_from(s@, 0) == spec_parse_from(s@, i as int),
        decreases n - i,
    {
        match parse_at(&chars, i) {
            Some(opt) => {
                return opt;
            },
            None => {},
        }
        i += 1;
    }
    None
}

/// The character sequences of a sequence of strings.
pub open spec fn views_of(tags: Seq<String>) -> Seq<Seq<char>> {
    tags.map_values(|t: String| t@)
}

/// The versions of the conforming names among `tags`, in input order.
pub open spec fn spec_versions(tags: Seq<Seq<char>>) -> Seq<Version>
    decreases tags.len(),
{
    if tags.len() == 0 {
        Seq::empty()
    } else {
        spec_versions(tags.drop_last()) + match spec_parse_version(tags.last()) {
            Some(v) => seq![v],
            None => Seq::<Version>::empty(),
        }
    }
}

/// Parse every tag name, keeping the versions of the conforming ones in
/// input order and silently discarding the rest.
pub fn versions_of(tags: &Vec<String>) -> (r: Vec<Version>)
    ensures
        r@ == spec_versions(views_of(tags@)),
{
    let ghost m = views_of(tags@);
    let mut out: Vec<Version> = Vec::new();
    let mut i: usize = 0;
    proof {
        assert(m.subrange(0, 0) =~= Seq::<Seq<char>>::empty());
    }
    while i < tags.len()
        invariant
            i <= tags@.len(),
            m == views_of(tags@),
            m.len() == tags@.len(),
            out@ == spec_versions(m.subrange(0, i as int)),
        decreases tags@.len() - i,
    {
        proof {
            assert(m.subrange(0, i + 1).drop_last() =~= m.subrange(0, i as int));
            assert(m.subrange(0, i + 1).last() == tags@[i as int]@);
        }
        match parse_version(tags[i].as_str()) {
            Some(v) => {
                out.push(v);
            },
            None => {},
        }
        i += 1;
    }
    proof {
        assert(m.subrange(0, tags@.len() as int) =~= m);
    }
    out
}

} // verus!
