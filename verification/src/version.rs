//! The semantic version triple: its canonical text, its parse, and its
//! ordering.

use vstd::prelude::*;
use crate::digits::{
    dec_str, is_digit, num_val, scan_u64, u64_to_string, valid_u64_str, lemma_dec_str_canonical,
    lemma_dec_str_num_val, lemma_num_val_dec_str,
};

verus! {

/// A semantic version: `major.minor.patch`.
#[derive(Clone, Copy, Debug, PartialEq, Eq, Structural)]
pub struct Version {
    pub major: u64,
    pub minor: u64,
    pub patch: u64,
}

/// The canonical text of a version: the three components in canonical
/// decimal, separated by dots.
pub open spec fn version_str(v: Version) -> Seq<char> {
    dec_str(v.major as nat) + seq!['.'] + dec_str(v.minor as nat) + seq!['.'] + dec_str(
        v.patch as nat,
    )
}

/// `s` splits into three in-range decimal numerals around dots at positions
/// `i` and `j`.
pub open spec fn version_split_at(s: Seq<char>, i: int, j: int) -> bool {
    &&& 0 <= i < j < s.len()
    &&& s[i] == '.'
    &&& s[j] == '.'
    &&& valid_u64_str(s.subrange(0, i))
    &&& valid_u64_str(s.subrange(i + 1, j))
    &&& valid_u64_str(s.subrange(j + 1, s.len() as int))
}

/// A well-formed version string.
pub open spec fn valid_version_str(s: Seq<char>) -> bool {
    exists|i: int, j: int| version_split_at(s, i, j)
}

/// The version a well-formed version string denotes.
pub open spec fn version_of(s: Seq<char>) -> Version {
    let (i, j) = choose|i: int, j: int| version_split_at(s, i, j);
    Version {
        major: num_val(s.subrange(0, i)) as u64,
        minor: num_val(s.subrange(i + 1, j)) as u64,
        patch: num_val(s.subrange(j + 1, s.len() as int)) as u64,
    }
}

/// Versions are ordered by major, then minor, then patch.
pub open spec fn version_le(a: Version, b: Version) -> bool {
    ||| a.major < b.major
    ||| (a.major == b.major && a.minor < b.minor)
    ||| (a.major == b.major && a.minor == b.minor && a.patch <= b.patch)
}

/// Strict version order.
pub open spec fn version_lt(a: Version, b: Version) -> bool {
    version_le(a, b) && a != b
}

/// A digit is never a dot.
proof fn lemma_digit_not_dot(c: char)
    requires
        is_digit(c),
    ensures
        c != '.',
{
}

/// Inside a split, the only dots of `s` are the two separators.
proof fn lemma_split_dots(s: Seq<char>, i: int, j: int, k: int)
    requires
        version_split_at(s, i, j),
        0 <= k < s.len(),
        s[k] == '.',
    ensures
        k == i || k == j,
{
    if k < i {
        assert(is_digit(s.subrange(0, i)[k]));
    } else if i < k < j {
        assert(is_digit(s.subrange(i + 1, j)[k - i - 1]));
    } else if j < k {
        assert(is_digit(s.subrange(j + 1, s.len() as int)[k - j - 1]));
    }
}

/// A version string splits in exactly one way.
pub proof fn lemma_version_split_unique(s: Seq<char>, i1: int, j1: int, i2: int, j2: int)
    requires
        version_split_at(s, i1, j1),
        version_split_at(s, i2, j2),
    ensures
        i1 == i2,
        j1 == j2,
{
    lemma_split_dots(s, i1, j1, i2);
    lemma_split_dots(s, i1, j1, j2);
}

/// What `version_of` gives on a string with a known split.
pub proof fn lemma_version_of_split(s: Seq<char>, i: int, j: int)
    requires
        version_split_at(s, i, j),
    ensures
        valid_version_str(s),
        version_of(s) == (Version {
            major: num_val(s.subrange(0, i)) as u64,
            minor: num_val(s.subrange(i + 1, j)) as u64,
            patch: num_val(s.subrange(j + 1, s.len() as int)) as u64,
        }),
{
    let (ci, cj) = choose|ci: int, cj: int| version_split_at(s, ci, cj);
    lemma_version_split_unique(s, i, j, ci, cj);
}

/// Printing a version always yields a well-formed version string, and parsing
/// it back recovers the same version.
pub proof fn lemma_version_str_parses(v: Version)
    ensures
        valid_version_str(version_str(v)),
        version_of(version_str(v)) == v,
{
    let a = dec_str(v.major as nat);
    let b = dec_str(v.minor as nat);
    let c = dec_str(v.patch as nat);
    lemma_dec_str_canonical(v.major as nat);
    lemma_dec_str_canonical(v.minor as nat);
    lemma_dec_str_canonical(v.patch as nat);
    lemma_num_val_dec_str(v.major as nat);
    lemma_num_val_dec_str(v.minor as nat);
    lemma_num_val_dec_str(v.patch as nat);
    let s = version_str(v);
    let i = a.len() as int;
    let j = a.len() + 1 + b.len();
    assert(s.subrange(0, i) =~= a);
    assert(s.subrange(i + 1, j as int) =~= b);
    assert(s.subrange(j as int + 1, s.len() as int) =~= c);
    assert(version_split_at(s, i, j as int));
    lemma_version_of_split(s, i, j as int);
}

/// Parsing a well-formed version string and printing the result gives the
/// starting string back.
pub proof fn lemma_version_str_of(s: Seq<char>)
    requires
        valid_version_str(s),
    ensures
        version_str(version_of(s)) == s,
{
    let (i, j) = choose|i: int, j: int| version_split_at(s, i, j);
    assert(version_split_at(s, i, j));
    let a = s.subrange(0, i);
    let b = s.subrange(i + 1, j);
    let c = s.subrange(j + 1, s.len() as int);
    lemma_dec_str_num_val(a);
    lemma_dec_str_num_val(b);
    lemma_dec_str_num_val(c);
    let v = version_of(s);
    assert(v.major as nat == num_val(a));
    assert(v.minor as nat == num_val(b));
    assert(v.patch as nat == num_val(c));
    assert(version_str(v) =~= s);
}

/// The version order is total.
pub proof fn lemma_version_le_total(a: Version, b: Version)
    ensures
        version_le(a, b) || version_le(b, a),
{
}

/// The version order is transitive.
pub proof fn lemma_version_le_trans(a: Version, b: Version, c: Version)
    requires
        version_le(a, b),
        version_le(b, c),
    ensures
        version_le(a, c),
{
}

impl Version {
    /// The canonical text of this version.
    pub fn to_string(&self) -> (r: String)
        ensures
            r@ == version_str(*self),
    {
        proof {
            reveal_strlit(".");
            assert("."@ =~= seq!['.']);
        }
        let mut s = u64_to_string(self.major);
        s.append(".");
        let minor = u64_to_string(self.minor);
        s.append(minor.as_str());
        s.append(".");
        let patch = u64_to_string(self.patch);
        s.append(patch.as_str());
        proof {
            assert(s@ =~= version_str(*self));
        }
        s
    }

    /// Whether this version is at most `other` in the version order.
    pub fn le(&self, other: &Version) -> (r: bool)
        ensures
            r == version_le(*self, *other),
    {
        if self.major != other.major {
            self.major < other.major
        } else if self.minor != other.minor {
            self.minor < other.minor
        } else {
            self.patch <= other.patch
        }
    }

    /// Parses `s` as a semantic version. Succeeds exactly on well-formed
    /// `major.minor.patch` strings whose components are canonical decimal
    /// numerals in `u64` range.
    pub fn parse(s: &str) -> (r: Option<Version>)
        ensures
            r is Some <==> valid_version_str(s@),
            r matches Some(v) ==> v == version_of(s@),
    {
        let n = s.unicode_len();
        // First dot.
        let mut i: usize = 0;
        while i < n && s.get_char(i) != '.'
            invariant
                0 <= i <= n == s@.len(),
                forall|k: int| 0 <= k < i ==> s@[k] != '.',
            decreases n - i,
        {
            i += 1;
        }
        if i == n {
            proof {
                if valid_version_str(s@) {
                    let (a, b) = choose|a: int, b: int| version_split_at(s@, a, b);
                    assert(s@[a] == '.');
                }
            }
            return None;
        }
        // Second dot.
        let mut j: usize = i + 1;
        while j < n && s.get_char(j) != '.'
            invariant
                i < j <= n == s@.len(),
                forall|k: int| i < k < j ==> s@[k] != '.',
                forall|k: int| 0 <= k < i ==> s@[k] != '.',
                s@[i as int] == '.',
            decreases n - j,
        {
            j += 1;
        }
        if j == n {
            proof {
                if valid_version_str(s@) {
                    let (a, b) = choose|a: int, b: int| version_split_at(s@, a, b);
                    assert(s@[a] == '.');
                    assert(s@[b] == '.');
                    assert(a >= i);
                    assert(b > i);
                }
            }
            return None;
        }
        // No further dot.
        let mut k: usize = j + 1;
        while k < n && s.get_char(k) != '.'
            invariant
                j < k <= n == s@.len(),
                forall|m: int| j < m < k ==> s@[m] != '.',
            decreases n - k,
        {
            k += 1;
        }
        if k < n {
            proof {
                if valid_version_str(s@) {
                    let (a, b) = choose|a: int, b: int| version_split_at(s@, a, b);
                    lemma_split_dots(s@, a, b, i as int);
                    lemma_split_dots(s@, a, b, j as int);
                    lemma_split_dots(s@, a, b, k as int);
                }
            }
            return None;
        }
        // From here on the dots of `s` are exactly `i` and `j`, so the only
        // candidate split is at (i, j).
        proof {
            if valid_version_str(s@) {
                let (a, b) = choose|a: int, b: int| version_split_at(s@, a, b);
                lemma_split_dots(s@, a, b, i as int);
                lemma_split_dots(s@, a, b, j as int);
                assert(a == i && b == j);
            }
        }
        let major = match Self::parse_component(s, 0, i) {
            Some(m) => m,
            None => {
                return None;
            },
        };
        let minor = match Self::parse_component(s, i + 1, j) {
            Some(m) => m,
            None => {
                return None;
            },
        };
        let patch = match Self::parse_component(s, j + 1, n) {
            Some(m) => m,
            None => {
                return None;
            },
        };
        proof {
            assert(version_split_at(s@, i as int, j as int));
            lemma_version_of_split(s@, i as int, j as int);
        }
        Some(Version { major, minor, patch })
    }

    /// Reads one version component: a canonical decimal numeral in `u64`
    /// range at the characters `start .. end` of `s`.
    fn parse_component(s: &str, start: usize, end: usize) -> (r: Option<u64>)
        requires
            start <= end <= s@.len(),
        ensures
            r is Some <==> valid_u64_str(s@.subrange(start as int, end as int)),
            r matches Some(v) ==> v as nat == num_val(s@.subrange(start as int, end as int)),
    {
        let v = match scan_u64(s, start, end) {
            Some(v) => v,
            None => {
                return None;
            },
        };
        if end - start > 1 && s.get_char(start) == '0' {
            proof {
                assert(s@.subrange(start as int, end as int)[0] == '0');
            }
            return None;
        }
        proof {
            assert(s@.subrange(start as int, end as int)[0] == s@[start as int]);
        }
        Some(v)
    }
}

} // verus!
