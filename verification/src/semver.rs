//! Semantic versions and version queries for the name registry.
//!
//! A registration carries an exact version `major.minor.patch`, each
//! component a decimal numeral without leading zeros.  A lookup query is a
//! version prefix of one to three components, optionally introduced by `^`
//! (caret range) or `=` (exact match on the given components); a bare prefix
//! means the same as a caret range.  Resolution picks the highest registered
//! version satisfying the query.

use vstd::prelude::*;
use vstd::string::StringSliceAdditionalSpecFns;

verus! {

/// An exact semantic version.
#[derive(Clone, Copy, PartialEq, Eq, Structural, Debug)]
pub struct Version {
    pub major: u64,
    pub minor: u64,
    pub patch: u64,
}

/// A parsed version query: one to three version components, either matched
/// exactly (`exact`) or as a caret compatibility range.
#[derive(Clone, Copy, Debug)]
pub struct VersionQuery {
    pub exact: bool,
    pub major: u64,
    pub minor: Option<u64>,
    pub patch: Option<u64>,
}

/// Lexicographic order on versions.
pub open spec fn version_lt(a: Version, b: Version) -> bool {
    ||| a.major < b.major
    ||| (a.major == b.major && a.minor < b.minor)
    ||| (a.major == b.major && a.minor == b.minor && a.patch < b.patch)
}

pub open spec fn version_le(a: Version, b: Version) -> bool {
    version_lt(a, b) || a == b
}

/// Whether a version satisfies a query.
///
/// An exact query matches the versions that agree with every component it
/// gives.  A caret query matches the versions at or above its lower bound
/// that do not cross the leftmost nonzero component given (the semver
/// compatibility rule: `^1.1` admits `1.1.0` up to below `2.0.0`, `^0.2`
/// admits `0.2.x` only, `^0.0.3` admits exactly `0.0.3`).
pub open spec fn query_matches(q: VersionQuery, v: Version) -> bool {
    if q.exact {
        &&& v.major == q.major
        &&& (q.minor is Some ==> v.minor == q.minor->0)
        &&& (q.patch is Some ==> v.patch == q.patch->0)
    } else {
        let lower = Version {
            major: q.major,
            minor: if q.minor is Some {
                q.minor->0
            } else {
                0
            },
            patch: if q.patch is Some {
                q.patch->0
            } else {
                0
            },
        };
        &&& version_le(lower, v)
        &&& if q.major > 0 {
            v.major == q.major
        } else if q.minor is None {
            v.major == 0
        } else if q.minor->0 > 0 {
            v.major == 0 && v.minor == q.minor->0
        } else if q.patch is Some {
            v == Version { major: 0, minor: 0, patch: q.patch->0 }
        } else {
            v.major == 0 && v.minor == 0
        }
    }
}

// ---------------------------------------------------------------------------
// Byte-level grammar.
// ---------------------------------------------------------------------------

pub open spec fn is_digit(b: u8) -> bool {
    0x30 <= b && b <= 0x39
}

pub open spec fn digit_val(b: u8) -> int {
    b - 0x30
}

pub open spec fn all_digits(s: Seq<u8>) -> bool {
    forall|k: int| 0 <= k < s.len() ==> is_digit(#[trigger] s[k])
}

/// A decimal numeral: nonempty, digits only, no leading zero.
pub open spec fn is_numeral(s: Seq<u8>) -> bool {
    &&& s.len() > 0
    &&& all_digits(s)
    &&& (s[0] == 0x30 ==> s.len() == 1)
}

/// The value of a digit string.
pub open spec fn numeral_val(s: Seq<u8>) -> int
    decreases s.len(),
{
    if s.len() == 0 {
        0
    } else {
        numeral_val(s.drop_last()) * 10 + digit_val(s.last())
    }
}

/// A numeral whose value fits the component type.
pub open spec fn numeral_fits(s: Seq<u8>) -> bool {
    is_numeral(s) && numeral_val(s) <= u64::MAX
}

/// `s` reads `A.B.C` with the dots at `i` and `j` and each component a
/// numeral in range.
pub open spec fn is_version_split(s: Seq<u8>, i: int, j: int) -> bool {
    &&& 0 <= i < j < s.len()
    &&& s[i] == 0x2e
    &&& s[j] == 0x2e
    &&& numeral_fits(s.subrange(0, i))
    &&& numeral_fits(s.subrange(i + 1, j))
    &&& numeral_fits(s.subrange(j + 1, s.len() as int))
}

pub open spec fn version_split_val(s: Seq<u8>, i: int, j: int) -> Version {
    Version {
        major: numeral_val(s.subrange(0, i)) as u64,
        minor: numeral_val(s.subrange(i + 1, j)) as u64,
        patch: numeral_val(s.subrange(j + 1, s.len() as int)) as u64,
    }
}

/// The bytes form an exact semantic version.
pub open spec fn is_version_bytes(s: Seq<u8>) -> bool {
    exists|i: int, j: int| is_version_split(s, i, j)
}

/// `v` is the version the bytes denote.
pub open spec fn version_repr(s: Seq<u8>, v: Version) -> bool {
    exists|i: int, j: int| is_version_split(s, i, j) && version_split_val(s, i, j) == v
}

/// The version a well-formed version string denotes.
pub open spec fn spec_version_of(s: Seq<u8>) -> Version {
    choose|v: Version| version_repr(s, v)
}

/// `s` reads `A.B` with the dot at `i`, both components numerals in range.
pub open spec fn is_pair_split(s: Seq<u8>, i: int) -> bool {
    &&& 0 <= i < s.len()
    &&& s[i] == 0x2e
    &&& numeral_fits(s.subrange(0, i))
    &&& numeral_fits(s.subrange(i + 1, s.len() as int))
}

/// The index where the query body begins: a leading `^` or `=` is skipped.
pub open spec fn query_body_start(s: Seq<u8>) -> int {
    if s.len() > 0 && (s[0] == 0x5e || s[0] == 0x3d) {
        1
    } else {
        0
    }
}

/// Whether the query asks for an exact component match (`=` prefix).
pub open spec fn query_is_exact(s: Seq<u8>) -> bool {
    s.len() > 0 && s[0] == 0x3d
}

/// The bytes form a version query: an optional `^` or `=`, then one to
/// three dot-separated components.
pub open spec fn is_query_bytes(s: Seq<u8>) -> bool {
    let b = s.subrange(query_body_start(s), s.len() as int);
    ||| numeral_fits(b)
    ||| exists|i: int| is_pair_split(b, i)
    ||| exists|i: int, j: int| is_version_split(b, i, j)
}

/// `q` is the query the bytes denote.
pub open spec fn query_repr(s: Seq<u8>, q: VersionQuery) -> bool {
    let b = s.subrange(query_body_start(s), s.len() as int);
    &&& q.exact == query_is_exact(s)
    &&& {
        ||| (numeral_fits(b) && q.major == numeral_val(b) && q.minor is None && q.patch is None)
        ||| (exists|i: int|
            is_pair_split(b, i) && q.major == numeral_val(b.subrange(0, i)) && q.minor == Some(
                numeral_val(b.subrange(i + 1, b.len() as int)) as u64,
            ) && q.patch is None)
        ||| (exists|i: int, j: int|
            is_version_split(b, i, j) && q.major == version_split_val(b, i, j).major && q.minor
                == Some(version_split_val(b, i, j).minor) && q.patch == Some(
                version_split_val(b, i, j).patch,
            ))
    }
}

/// The query a well-formed query string denotes.
pub open spec fn spec_query_of(s: Seq<u8>) -> VersionQuery {
    choose|q: VersionQuery| query_repr(s, q)
}

// ---------------------------------------------------------------------------
// Lemmas about the grammar.
// ---------------------------------------------------------------------------

proof fn lemma_numeral_val_nonneg(s: Seq<u8>)
    requires
        all_digits(s),
    ensures
        numeral_val(s) >= 0,
    decreases s.len(),
{
    if s.len() > 0 {
        assert(all_digits(s.drop_last())) by {
            assert(forall|k: int|
                0 <= k < s.drop_last().len() ==> #[trigger] s.drop_last()[k] == s[k]);
        }
        lemma_numeral_val_nonneg(s.drop_last());
    }
}

/// Extending a digit string never decreases its value.
proof fn lemma_numeral_prefix_le(s: Seq<u8>, k: int)
    requires
        all_digits(s),
        0 <= k <= s.len(),
    ensures
        numeral_val(s.subrange(0, k)) <= numeral_val(s),
    decreases s.len() - k,
{
    if k == s.len() {
        assert(s.subrange(0, k) =~= s);
    } else {
        assert(all_digits(s.subrange(0, k + 1))) by {
            assert(forall|m: int|
                0 <= m < k + 1 ==> #[trigger] s.subrange(0, k + 1)[m] == s[m]);
        }
        assert(s.subrange(0, k + 1).drop_last() =~= s.subrange(0, k));
        lemma_numeral_val_nonneg(s.subrange(0, k));
        assert(numeral_val(s.subrange(0, k + 1)) == numeral_val(s.subrange(0, k)) * 10
            + digit_val(s.subrange(0, k + 1).last()));
        lemma_numeral_prefix_le(s, k + 1);
    }
}

/// In a full version split, every position other than the two dots holds a
/// digit.
proof fn lemma_version_split_digits(s: Seq<u8>, i: int, j: int)
    requires
        is_version_split(s, i, j),
    ensures
        forall|k: int| 0 <= k < s.len() && k != i && k != j ==> is_digit(#[trigger] s[k]),
{
    assert forall|k: int| 0 <= k < s.len() && k != i && k != j implies is_digit(#[trigger] s[k]) by {
        if k < i {
            assert(s.subrange(0, i)[k] == s[k]);
        } else if k < j {
            assert(s.subrange(i + 1, j)[k - i - 1] == s[k]);
        } else {
            assert(s.subrange(j + 1, s.len() as int)[k - j - 1] == s[k]);
        }
    }
}

/// In a two-component split, every position other than the dot holds a digit.
proof fn lemma_pair_split_digits(s: Seq<u8>, i: int)
    requires
        is_pair_split(s, i),
    ensures
        forall|k: int| 0 <= k < s.len() && k != i ==> is_digit(#[trigger] s[k]),
{
    assert forall|k: int| 0 <= k < s.len() && k != i implies is_digit(#[trigger] s[k]) by {
        if k < i {
            assert(s.subrange(0, i)[k] == s[k]);
        } else {
            assert(s.subrange(i + 1, s.len() as int)[k - i - 1] == s[k]);
        }
    }
}

/// A version string has exactly one reading.
pub proof fn lemma_version_repr_unique(s: Seq<u8>, v1: Version, v2: Version)
    requires
        version_repr(s, v1),
        version_repr(s, v2),
    ensures
        v1 == v2,
{
    let (i1, j1): (int, int) = choose|i: int, j: int|
        is_version_split(s, i, j) && version_split_val(s, i, j) == v1;
    let (i2, j2): (int, int) = choose|i: int, j: int|
        is_version_split(s, i, j) && version_split_val(s, i, j) == v2;
    lemma_version_split_digits(s, i1, j1);
    lemma_version_split_digits(s, i2, j2);
    assert(!is_digit(0x2e));
    assert(i1 == i2 && j1 == j2);
}

/// A query string has exactly one reading.
pub proof fn lemma_query_repr_unique(s: Seq<u8>, q1: VersionQuery, q2: VersionQuery)
    requires
        query_repr(s, q1),
        query_repr(s, q2),
    ensures
        q1 == q2,
{
    let b = s.subrange(query_body_start(s), s.len() as int);
    assert(!is_digit(0x2e));
    if numeral_fits(b) {
        assert forall|i: int| !is_pair_split(b, i) by {
            if is_pair_split(b, i) {
                assert(is_digit(b[i]));
            }
        }
        assert forall|i: int, j: int| !is_version_split(b, i, j) by {
            if is_version_split(b, i, j) {
                assert(is_digit(b[i]));
            }
        }
    } else {
        if exists|i: int| is_pair_split(b, i) {
            let i1 = choose|i: int| is_pair_split(b, i);
            lemma_pair_split_digits(b, i1);
            assert forall|i: int, j: int| !is_version_split(b, i, j) by {
                if is_version_split(b, i, j) {
                    lemma_version_split_digits(b, i, j);
                    assert(i == i1 && j == i1);
                }
            }
            assert forall|i2: int| is_pair_split(b, i2) implies i2 == i1 by {
                lemma_pair_split_digits(b, i2);
            }
            let iq1 = choose|i: int|
                is_pair_split(b, i) && q1.major == numeral_val(b.subrange(0, i)) && q1.minor
                    == Some(numeral_val(b.subrange(i + 1, b.len() as int)) as u64) && q1.patch
                    is None;
            let iq2 = choose|i: int|
                is_pair_split(b, i) && q2.major == numeral_val(b.subrange(0, i)) && q2.minor
                    == Some(numeral_val(b.subrange(i + 1, b.len() as int)) as u64) && q2.patch
                    is None;
            assert(iq1 == i1 && iq2 == i1);
        } else {
            let (i1, j1): (int, int) = choose|i: int, j: int| is_version_split(b, i, j);
            lemma_version_split_digits(b, i1, j1);
            assert forall|i2: int, j2: int| is_version_split(b, i2, j2) implies i2 == i1 && j2
                == j1 by {
                lemma_version_split_digits(b, i2, j2);
            }
            let (iq1, jq1): (int, int) = choose|i: int, j: int|
                is_version_split(b, i, j) && q1.major == version_split_val(b, i, j).major
                    && q1.minor == Some(version_split_val(b, i, j).minor) && q1.patch == Some(
                    version_split_val(b, i, j).patch,
                );
            let (iq2, jq2): (int, int) = choose|i: int, j: int|
                is_version_split(b, i, j) && q2.major == version_split_val(b, i, j).major
                    && q2.minor == Some(version_split_val(b, i, j).minor) && q2.patch == Some(
                    version_split_val(b, i, j).patch,
                );
            assert(iq1 == i1 && jq1 == j1 && iq2 == i1 && jq2 == j1);
        }
    }
}

// ---------------------------------------------------------------------------
// Executable parsing.
// ---------------------------------------------------------------------------

/// Parses the digits of `s[lo..hi]` as one version component.
fn parse_numeral(s: &[u8], lo: usize, hi: usize) -> (r: Option<u64>)
    requires
        lo <= hi <= s@.len(),
    ensures
        match r {
            Some(v) => numeral_fits(s@.subrange(lo as int, hi as int)) && v == numeral_val(
                s@.subrange(lo as int, hi as int),
            ),
            None => !numeral_fits(s@.subrange(lo as int, hi as int)),
        },
{
    let ghost whole = s@.subrange(lo as int, hi as int);
    if lo == hi {
        return None;
    }
    if s[lo] == 0x30 && hi - lo > 1 {
        // leading zero
        return None;
    }
    let mut val: u64 = 0;
    let mut k: usize = lo;
    proof {
        assert(s@.subrange(lo as int, lo as int) =~= Seq::<u8>::empty());
    }
    while k < hi
        invariant
            lo <= k <= hi <= s@.len(),
            whole == s@.subrange(lo as int, hi as int),
            all_digits(s@.subrange(lo as int, k as int)),
            val == numeral_val(s@.subrange(lo as int, k as int)),
        decreases hi - k,
    {
        let b: u8 = s[k];
        if b < 0x30 || b > 0x39 {
            proof {
                assert(whole[k - lo] == b);
            }
            return None;
        }
        let d: u64 = (b - 0x30) as u64;
        proof {
            assert(s@.subrange(lo as int, k as int + 1).drop_last() =~= s@.subrange(
                lo as int,
                k as int,
            ));
            assert(s@.subrange(lo as int, k as int + 1).last() == b);
            assert(forall|m: int|
                0 <= m < k + 1 - lo ==> #[trigger] s@.subrange(lo as int, k as int + 1)[m] == s@[
                    lo + m]);
        }
        if val > (u64::MAX - d) / 10 {
            proof {
                // The value read so far already overflows; the whole numeral
                // can only be larger.
                assert(val * 10 + d > u64::MAX) by (nonlinear_arith)
                    requires
                        val > (u64::MAX - d) / 10,
                        d <= 9,
                ;
                if numeral_fits(whole) {
                    assert(all_digits(whole));
                    assert(whole.subrange(0, k as int + 1 - lo) =~= s@.subrange(
                        lo as int,
                        k as int + 1,
                    ));
                    lemma_numeral_prefix_le(whole, k as int + 1 - lo);
                    assert(numeral_val(s@.subrange(lo as int, k as int + 1)) == val * 10 + d);
                }
            }
            return None;
        }
        val = val * 10 + d;
        k += 1;
    }
    proof {
        assert(whole =~= s@.subrange(lo as int, hi as int));
        assert(whole[0] == s@[lo as int]);
    }
    Some(val)
}

/// Parses an exact semantic version `major.minor.patch`.
pub fn parse_version(s: &str) -> (r: Option<Version>)
    ensures
        r is Some <==> is_version_bytes(s.spec_bytes()),
        r matches Some(v) ==> version_repr(s.spec_bytes(), v),
{
    let bytes: &[u8] = s.as_bytes();
    let r = parse_version_range(bytes, 0, bytes.len());
    proof {
        assert(bytes@.subrange(0, bytes@.len() as int) =~= s.spec_bytes());
    }
    r
}

/// Parses `s[lo..hi]` as an exact semantic version.
fn parse_version_range(s: &[u8], lo: usize, hi: usize) -> (r: Option<Version>)
    requires
        lo <= hi <= s@.len(),
    ensures
        r is Some <==> is_version_bytes(s@.subrange(lo as int, hi as int)),
        r matches Some(v) ==> version_repr(s@.subrange(lo as int, hi as int), v),
{
    let ghost body = s@.subrange(lo as int, hi as int);
    let (count, d1, d2) = scan_dots(s, lo, hi);
    if count != 2 {
        proof {
            if is_version_bytes(body) {
                let (i, j): (int, int) = choose|i: int, j: int| is_version_split(body, i, j);
                lemma_version_split_digits(body, i, j);
                assert(!is_digit(0x2e));
                assert(body[i] == s@[lo + i]);
                assert(body[j] == s@[lo + j]);
                assert(s@[lo + i] == 0x2e);
                assert(s@[lo + j] == 0x2e);
                if count == 0 {
                    assert(s@[lo + i] != 0x2e);
                } else if count == 1 {
                    assert(lo + i == d1 as int);
                    assert(lo + j == d1 as int);
                } else {
                    // three or more dots, but a split leaves room for two
                    let m: int = choose|m: int| d2 < m < hi && s@[m] == 0x2e;
                    assert(body[d1 - lo] == s@[d1 as int]);
                    assert(body[d2 - lo] == s@[d2 as int]);
                    assert(body[m - lo] == s@[m]);
                    if d1 != lo + i && d1 != lo + j {
                        assert(is_digit(body[d1 - lo]));
                    }
                    if d2 != lo + i && d2 != lo + j {
                        assert(is_digit(body[d2 - lo]));
                    }
                    if m != lo + i && m != lo + j {
                        assert(is_digit(body[m - lo]));
                    }
                }
                assert(false);
            }
        }
        return None;
    }
    let ghost bi = d1 - lo;
    let ghost bj = d2 - lo;
    proof {
        // the dots of any split must sit exactly at d1 and d2
        assert forall|i: int, j: int| is_version_split(body, i, j) implies i == bi && j == bj by {
            lemma_version_split_digits(body, i, j);
            assert(!is_digit(0x2e));
            assert(body[bi] == 0x2e);
            assert(body[bj] == 0x2e);
        }
        assert(body.subrange(0, bi) =~= s@.subrange(lo as int, d1 as int));
        assert(body.subrange(bi + 1, bj) =~= s@.subrange(d1 as int + 1, d2 as int));
        assert(body.subrange(bj + 1, body.len() as int) =~= s@.subrange(d2 as int + 1, hi as int));
    }
    let major = match parse_numeral(s, lo, d1) {
        Some(v) => v,
        None => {
            return None;
        },
    };
    let minor = match parse_numeral(s, d1 + 1, d2) {
        Some(v) => v,
        None => {
            return None;
        },
    };
    let patch = match parse_numeral(s, d2 + 1, hi) {
        Some(v) => v,
        None => {
            return None;
        },
    };
    proof {
        assert(is_version_split(body, bi, bj));
    }
    Some(Version { major, minor, patch })
}

/// Scans `s[lo..hi]` for dots: returns how many there are (capped at 3) and
/// the positions of the first two.
#[allow(unused_parens)]
fn scan_dots(s: &[u8], lo: usize, hi: usize) -> (r: (usize, usize, usize))
    requires
        lo <= hi <= s@.len(),
    ensures
        ({
            let (count, d1, d2) = r;
            &&& (count == 0 ==> forall|m: int| lo <= m < hi ==> s@[m] != 0x2e)
            &&& (count >= 1 ==> lo <= d1 < hi && s@[d1 as int] == 0x2e && forall|m: int|
                lo <= m < d1 ==> s@[m] != 0x2e)
            &&& (count == 1 ==> forall|m: int| d1 < m < hi ==> s@[m] != 0x2e)
            &&& (count >= 2 ==> d1 < d2 < hi && s@[d2 as int] == 0x2e && forall|m: int|
                d1 < m < d2 ==> s@[m] != 0x2e)
            &&& (count == 2 ==> forall|m: int| d2 < m < hi ==> s@[m] != 0x2e)
            &&& (count == 3 ==> exists|m: int| d2 < m < hi && s@[m] == 0x2e)
            &&& count <= 3
        }),
{
    let mut count: usize = 0;
    let mut d1: usize = 0;
    let mut d2: usize = 0;
    let mut k: usize = lo;
    while k < hi
        invariant
            lo <= k <= hi <= s@.len(),
            count <= 3,
            count == 0 ==> forall|m: int| lo <= m < k ==> s@[m] != 0x2e,
            count >= 1 ==> lo <= d1 < k && s@[d1 as int] == 0x2e && forall|m: int|
                lo <= m < d1 ==> s@[m] != 0x2e,
            count == 1 ==> forall|m: int| d1 < m < k ==> s@[m] != 0x2e,
            count >= 2 ==> d1 < d2 < k && s@[d2 as int] == 0x2e && forall|m: int|
                d1 < m < d2 ==> s@[m] != 0x2e,
            count == 2 ==> forall|m: int| d2 < m < k ==> s@[m] != 0x2e,
            count == 3 ==> exists|m: int| d2 < m < k && s@[m] == 0x2e,
        decreases hi - k,
    {
        if s[k] == 0x2e {
            if count == 0 {
                d1 = k;
                count = 1;
            } else if count == 1 {
                d2 = k;
                count = 2;
            } else if count == 2 {
                count = 3;
            }
        }
        k += 1;
    }
    (count, d1, d2)
}

/// Parses a version query: an optional `^` or `=`, then one to three
/// dot-separated components.
pub fn parse_query(s: &str) -> (r: Option<VersionQuery>)
    ensures
        r is Some <==> is_query_bytes(s.spec_bytes()),
        r matches Some(q) ==> query_repr(s.spec_bytes(), q),
{
    let bytes: &[u8] = s.as_bytes();
    let n: usize = bytes.len();
    let mut exact: bool = false;
    let mut lo: usize = 0;
    if n > 0 && bytes[0] == 0x5e {
        lo = 1;
    } else if n > 0 && bytes[0] == 0x3d {
        lo = 1;
        exact = true;
    }
    let ghost body = s.spec_bytes().subrange(query_body_start(s.spec_bytes()),
        s.spec_bytes().len() as int);
    proof {
        assert(lo == query_body_start(s.spec_bytes()));
        assert(exact == query_is_exact(s.spec_bytes()));
        assert(body =~= bytes@.subrange(lo as int, n as int));
    }
    let (count, d1, d2) = scan_dots(bytes, lo, n);
    if count == 0 {
        match parse_numeral(bytes, lo, n) {
            Some(v) => {
                return Some(VersionQuery { exact, major: v, minor: None, patch: None });
            },
            None => {
                proof {
                    refute_query(bytes@, lo as int, n as int, count as int, d1 as int, d2 as int);
                }
                return None;
            },
        }
    } else if count == 1 {
        let ghost bi = d1 - lo;
        proof {
            assert(body.subrange(0, bi) =~= bytes@.subrange(lo as int, d1 as int));
            assert(body.subrange(bi + 1, body.len() as int) =~= bytes@.subrange(
                d1 as int + 1,
                n as int,
            ));
        }
        let major = match parse_numeral(bytes, lo, d1) {
            Some(v) => v,
            None => {
                proof {
                    refute_query(bytes@, lo as int, n as int, count as int, d1 as int, d2 as int);
                }
                return None;
            },
        };
        let minor = match parse_numeral(bytes, d1 + 1, n) {
            Some(v) => v,
            None => {
                proof {
                    refute_query(bytes@, lo as int, n as int, count as int, d1 as int, d2 as int);
                }
                return None;
            },
        };
        proof {
            assert(is_pair_split(body, bi));
        }
        return Some(VersionQuery { exact, major, minor: Some(minor), patch: None });
    } else if count == 2 {
        match parse_version_range(bytes, lo, n) {
            Some(v) => {
                proof {
                    let (i, j): (int, int) = choose|i: int, j: int|
                        is_version_split(body, i, j) && version_split_val(body, i, j) == v;
                    assert(is_version_split(body, i, j));
                }
                return Some(
                    VersionQuery {
                        exact,
                        major: v.major,
                        minor: Some(v.minor),
                        patch: Some(v.patch),
                    },
                );
            },
            None => {
                proof {
                    refute_query(bytes@, lo as int, n as int, count as int, d1 as int, d2 as int);
                }
                return None;
            },
        }
    } else {
        proof {
            refute_query(bytes@, lo as int, n as int, count as int, d1 as int, d2 as int);
        }
        return None;
    }
}

/// When the component parse that `scan_dots` dictates has failed, no reading
/// of the query body exists at all.
proof fn refute_query(s: Seq<u8>, lo: int, n: int, count: int, d1: int, d2: int)
    requires
        0 <= lo <= n <= s.len(),
        count == 0 ==> forall|m: int| lo <= m < n ==> s[m] != 0x2e,
        count >= 1 ==> lo <= d1 < n && s[d1] == 0x2e && forall|m: int| lo <= m < d1 ==> s[m] != 0x2e,
        count == 1 ==> forall|m: int| d1 < m < n ==> s[m] != 0x2e,
        count >= 2 ==> d1 < d2 < n && s[d2] == 0x2e && forall|m: int| d1 < m < d2 ==> s[m] != 0x2e,
        count == 2 ==> forall|m: int| d2 < m < n ==> s[m] != 0x2e,
        count == 3 ==> exists|m: int| d2 < m < n && s[m] == 0x2e,
        count == 0 ==> !numeral_fits(s.subrange(lo, n)),
        count == 1 ==> !(numeral_fits(s.subrange(lo, d1)) && numeral_fits(s.subrange(d1 + 1, n))),
        count == 2 ==> !is_version_bytes(s.subrange(lo, n)),
        0 <= count <= 3,
    ensures
        !numeral_fits(s.subrange(lo, n)),
        !(exists|i: int| is_pair_split(s.subrange(lo, n), i)),
        !(exists|i: int, j: int| is_version_split(s.subrange(lo, n), i, j)),
{
    let b = s.subrange(lo, n);
    assert(!is_digit(0x2e));
    if numeral_fits(b) {
        if count >= 1 {
            assert(b[d1 - lo] == s[d1]);
            assert(is_digit(b[d1 - lo]));
        }
        assert(false);
    }
    if exists|i: int| is_pair_split(b, i) {
        let i: int = choose|i: int| is_pair_split(b, i);
        lemma_pair_split_digits(b, i);
        assert(b[i] == s[lo + i]);
        assert(s[lo + i] == 0x2e);
        if count == 0 {
            assert(s[lo + i] != 0x2e);
        } else {
            assert(b[d1 - lo] == s[d1]);
            if d1 != lo + i {
                assert(is_digit(b[d1 - lo]));
            }
            assert(d1 == lo + i);
            if count == 1 {
                assert(b.subrange(0, i) =~= s.subrange(lo, d1));
                assert(b.subrange(i + 1, b.len() as int) =~= s.subrange(d1 + 1, n));
            } else {
                assert(b[d2 - lo] == s[d2]);
                if d2 != lo + i {
                    assert(is_digit(b[d2 - lo]));
                }
            }
        }
        assert(false);
    }
    if exists|i: int, j: int| is_version_split(b, i, j) {
        let (i, j): (int, int) = choose|i: int, j: int| is_version_split(b, i, j);
        lemma_version_split_digits(b, i, j);
        assert(b[i] == s[lo + i]);
        assert(b[j] == s[lo + j]);
        assert(s[lo + i] == 0x2e);
        assert(s[lo + j] == 0x2e);
        if count == 0 {
            assert(s[lo + i] != 0x2e);
        } else if count == 1 {
            assert(lo + i == d1);
            assert(lo + j == d1);
        } else if count == 2 {
            assert(is_version_split(b, i, j));
            assert(is_version_bytes(b));
        } else {
            let m: int = choose|m: int| d2 < m < n && s[m] == 0x2e;
            assert(b[d1 - lo] == s[d1]);
            assert(b[d2 - lo] == s[d2]);
            assert(b[m - lo] == s[m]);
            if d1 != lo + i && d1 != lo + j {
                assert(is_digit(b[d1 - lo]));
            }
            if d2 != lo + i && d2 != lo + j {
                assert(is_digit(b[d2 - lo]));
            }
            if m != lo + i && m != lo + j {
                assert(is_digit(b[m - lo]));
            }
        }
        assert(false);
    }
}

/// Lexicographic comparison of versions.
pub fn version_lt_exec(a: &Version, b: &Version) -> (r: bool)
    ensures
        r == version_lt(*a, *b),
{
    if a.major != b.major {
        a.major < b.major
    } else if a.minor != b.minor {
        a.minor < b.minor
    } else {
        a.patch < b.patch
    }
}

/// Whether a version satisfies a query.
pub fn query_matches_exec(q: &VersionQuery, v: &Version) -> (r: bool)
    ensures
        r == query_matches(*q, *v),
{
    let q_minor: u64 = match q.minor {
        Some(m) => m,
        None => 0,
    };
    let q_patch: u64 = match q.patch {
        Some(p) => p,
        None => 0,
    };
    if q.exact {
        let minor_ok = match q.minor {
            Some(m) => v.minor == m,
            None => true,
        };
        let patch_ok = match q.patch {
            Some(p) => v.patch == p,
            None => true,
        };
        v.major == q.major && minor_ok && patch_ok
    } else {
        let lower = Version { major: q.major, minor: q_minor, patch: q_patch };
        let lower_ok = version_lt_exec(&lower, v) || (lower.major == v.major && lower.minor
            == v.minor && lower.patch == v.patch);
        let upper_ok = if q.major > 0 {
            v.major == q.major
        } else if q.minor.is_none() {
            v.major == 0
        } else if q_minor > 0 {
            v.major == 0 && v.minor == q_minor
        } else if q.patch.is_some() {
            v.major == 0 && v.minor == 0 && v.patch == q_patch
        } else {
            v.major == 0 && v.minor == 0
        };
        lower_ok && upper_ok
    }
}

} // verus!
