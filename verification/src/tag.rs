//! The version tag domain model: the increment position, the tag itself, its
//! textual identity, and the increment rules.

use vstd::prelude::*;
use crate::error::TaggingError;
use crate::version::{
    Version, valid_version_str, version_lt, version_of, version_str, lemma_version_str_of,
    lemma_version_str_parses,
};

verus! {

/// Which version component to bump next.
#[derive(Clone, Copy, Debug, PartialEq, Eq, Structural)]
pub enum Position {
    Major,
    Minor,
    Patch,
}

/// The lower-case form of an ASCII letter; everything else is unchanged.
pub open spec fn lower_char(c: char) -> char {
    if c == 'A' {
        'a'
    } else if c == 'B' {
        'b'
    } else if c == 'C' {
        'c'
    } else if c == 'D' {
        'd'
    } else if c == 'E' {
        'e'
    } else if c == 'F' {
        'f'
    } else if c == 'G' {
        'g'
    } else if c == 'H' {
        'h'
    } else if c == 'I' {
        'i'
    } else if c == 'J' {
        'j'
    } else if c == 'K' {
        'k'
    } else if c == 'L' {
        'l'
    } else if c == 'M' {
        'm'
    } else if c == 'N' {
        'n'
    } else if c == 'O' {
        'o'
    } else if c == 'P' {
        'p'
    } else if c == 'Q' {
        'q'
    } else if c == 'R' {
        'r'
    } else if c == 'S' {
        's'
    } else if c == 'T' {
        't'
    } else if c == 'U' {
        'u'
    } else if c == 'V' {
        'v'
    } else if c == 'W' {
        'w'
    } else if c == 'X' {
        'x'
    } else if c == 'Y' {
        'y'
    } else if c == 'Z' {
        'z'
    } else {
        c
    }
}

/// The string with each ASCII letter lowered.
pub open spec fn lower_of(s: Seq<char>) -> Seq<char> {
    s.map_values(|c: char| lower_char(c))
}

/// The increment position a user-entered token denotes, if any: the word
/// forms are case-insensitive, the one-letter forms exact (`M` and `m` must
/// stay distinguishable).
pub open spec fn position_token(s: Seq<char>) -> Option<Position> {
    if s == "M"@ || lower_of(s) == "major"@ {
        Some(Position::Major)
    } else if s == "m"@ || lower_of(s) == "minor"@ {
        Some(Position::Minor)
    } else if s == "p"@ || lower_of(s) == "patch"@ {
        Some(Position::Patch)
    } else {
        None
    }
}

/// Whether two strings hold the same characters.
fn str_eq(a: &str, b: &str) -> (r: bool)
    ensures
        r == (a@ == b@),
{
    let n = a.unicode_len();
    if n != b.unicode_len() {
        return false;
    }
    let mut i: usize = 0;
    while i < n
        invariant
            0 <= i <= n,
            n == a@.len() == b@.len(),
            forall|k: int| 0 <= k < i ==> a@[k] == b@[k],
        decreases n - i,
    {
        if a.get_char(i) != b.get_char(i) {
            return false;
        }
        i += 1;
    }
    proof {
        assert(a@ =~= b@);
    }
    true
}

/// The lower-case form of an ASCII letter.
fn lower_char_of(c: char) -> (r: char)
    ensures
        r == lower_char(c),
{
    match c {
        'A' => 'a',
        'B' => 'b',
        'C' => 'c',
        'D' => 'd',
        'E' => 'e',
        'F' => 'f',
        'G' => 'g',
        'H' => 'h',
        'I' => 'i',
        'J' => 'j',
        'K' => 'k',
        'L' => 'l',
        'M' => 'm',
        'N' => 'n',
        'O' => 'o',
        'P' => 'p',
        'Q' => 'q',
        'R' => 'r',
        'S' => 's',
        'T' => 't',
        'U' => 'u',
        'V' => 'v',
        'W' => 'w',
        'X' => 'x',
        'Y' => 'y',
        'Z' => 'z',
        _ => c,
    }
}

/// Whether `a`, with its ASCII letters lowered, holds the same characters
/// as `b`.
fn str_eq_lower(a: &str, b: &str) -> (r: bool)
    ensures
        r == (lower_of(a@) == b@),
{
    let n = a.unicode_len();
    if n != b.unicode_len() {
        return false;
    }
    let mut i: usize = 0;
    while i < n
        invariant
            0 <= i <= n,
            n == a@.len() == b@.len(),
            forall|k: int| 0 <= k < i ==> lower_char(#[trigger] a@[k]) == b@[k],
        decreases n - i,
    {
        if lower_char_of(a.get_char(i)) != b.get_char(i) {
            proof {
                assert(lower_of(a@)[i as int] == lower_char(a@[i as int]));
            }
            return false;
        }
        i += 1;
    }
    proof {
        assert(lower_of(a@) =~= b@);
    }
    true
}

impl Position {
    /// Parses a user-entered increment-position token: any capitalization of
    /// `major`, `minor` or `patch`, or exactly the letters `M`, `m`, `p`.
    pub fn from_str(s: &str) -> (r: Result<Position, TaggingError>)
        ensures
            r == match position_token(s@) {
                Some(p) => Ok::<Position, TaggingError>(p),
                None => Err::<Position, TaggingError>(TaggingError::InvalidPosition),
            },
    {
        if str_eq(s, "M") || str_eq_lower(s, "major") {
            Ok(Position::Major)
        } else if str_eq(s, "m") || str_eq_lower(s, "minor") {
            Ok(Position::Minor)
        } else if str_eq(s, "p") || str_eq_lower(s, "patch") {
            Ok(Position::Patch)
        } else {
            Err(TaggingError::InvalidPosition)
        }
    }
}

/// The mathematical value of a tag.
pub ghost struct TagV {
    pub prefix: Seq<char>,
    pub version: Version,
    pub timestamp: Option<i64>,
    pub message: Option<Seq<char>>,
}

/// The textual identity of a tag: prefix followed by the canonical version
/// text.
pub open spec fn tag_str(t: TagV) -> Seq<char> {
    t.prefix + version_str(t.version)
}

/// The characters of an optional string.
pub open spec fn opt_str_view(m: Option<String>) -> Option<Seq<char>> {
    match m {
        Some(s) => Some(s@),
        None => None,
    }
}

/// What constructing a tag from raw text yields: a tag whenever the raw text
/// is a well-formed version string, nothing otherwise.
pub open spec fn parse_tag(
    raw: Seq<char>,
    prefix: Seq<char>,
    timestamp: Option<i64>,
    message: Option<Seq<char>>,
) -> Option<TagV> {
    if valid_version_str(raw) {
        Some(TagV { prefix, version: version_of(raw), timestamp, message })
    } else {
        None
    }
}

/// A version tag: a prefix scoping the namespace, the version, and, for tags
/// discovered in the store, a creation timestamp; a new tag may carry an
/// annotation message.
#[derive(Debug)]
pub struct Tag {
    pub prefix: String,
    pub version: Version,
    pub timestamp: Option<i64>,
    pub message: Option<String>,
}

impl View for Tag {
    type V = TagV;

    open spec fn view(&self) -> TagV {
        TagV {
            prefix: self.prefix@,
            version: self.version,
            timestamp: self.timestamp,
            message: opt_str_view(self.message),
        }
    }
}

/// The values of a sequence of tags.
pub open spec fn views_of(s: Seq<Tag>) -> Seq<TagV> {
    s.map_values(|t: Tag| t@)
}

/// Whether the component `position` names in `v` can still be bumped without
/// leaving its machine range.
pub open spec fn can_bump(v: Version, position: Position) -> bool {
    match position {
        Position::Major => v.major < u64::MAX,
        Position::Minor => v.minor < u64::MAX,
        Position::Patch => v.patch < u64::MAX,
    }
}

/// The standard semantic-version bump: the named component rises by one and
/// the lower components reset to zero.
pub open spec fn bumped(v: Version, position: Position) -> Version {
    match position {
        Position::Major => Version { major: (v.major + 1) as u64, minor: 0, patch: 0 },
        Position::Minor => Version { major: v.major, minor: (v.minor + 1) as u64, patch: 0 },
        Position::Patch => Version { major: v.major, minor: v.minor, patch: (v.patch + 1) as u64 },
    }
}

/// Whether the component `position` names in `v` can be bumped without
/// overflow.
pub fn can_bump_check(v: &Version, position: Position) -> (r: bool)
    ensures
        r == can_bump(*v, position),
{
    match position {
        Position::Major => v.major < u64::MAX,
        Position::Minor => v.minor < u64::MAX,
        Position::Patch => v.patch < u64::MAX,
    }
}

/// Every bump strictly increases a tag's version in the version order.
pub proof fn lemma_bump_increases(v: Version, position: Position)
    requires
        can_bump(v, position),
    ensures
        version_lt(v, bumped(v, position)),
{
}

/// Parsing a well-formed version string and displaying the resulting tag
/// yields the prefix followed by exactly the raw text.
pub proof fn lemma_parse_then_display(
    raw: Seq<char>,
    prefix: Seq<char>,
    timestamp: Option<i64>,
    message: Option<Seq<char>>,
)
    requires
        valid_version_str(raw),
    ensures
        parse_tag(raw, prefix, timestamp, message) matches Some(t) && tag_str(t) == prefix + raw,
{
    lemma_version_str_of(raw);
}

/// Displaying a tag, stripping its prefix, and parsing the remainder with the
/// tag's own prefix, timestamp and message reconstructs the tag exactly.
pub proof fn lemma_display_then_parse(t: TagV)
    ensures
        tag_str(t).subrange(t.prefix.len() as int, tag_str(t).len() as int) == version_str(
            t.version,
        ),
        parse_tag(version_str(t.version), t.prefix, t.timestamp, t.message) == Some(t),
{
    lemma_version_str_parses(t.version);
    assert(tag_str(t).subrange(t.prefix.len() as int, tag_str(t).len() as int) =~= version_str(
        t.version,
    ));
}

/// For tags sharing a prefix, the textual identity coincides with version
/// equality: two such tags display the same text exactly when their versions
/// are equal.
pub proof fn lemma_display_identity(t1: TagV, t2: TagV)
    requires
        t1.prefix == t2.prefix,
    ensures
        tag_str(t1) == tag_str(t2) <==> t1.version == t2.version,
{
    if tag_str(t1) == tag_str(t2) {
        lemma_version_str_parses(t1.version);
        lemma_version_str_parses(t2.version);
        assert(version_str(t1.version) =~= tag_str(t1).subrange(
            t1.prefix.len() as int,
            tag_str(t1).len() as int,
        ));
        assert(version_str(t2.version) =~= tag_str(t2).subrange(
            t2.prefix.len() as int,
            tag_str(t2).len() as int,
        ));
    }
}

impl Tag {
    /// Builds a tag from raw version text and an explicit prefix; the
    /// optional timestamp and message are stored verbatim. Fails exactly when
    /// the raw text is not a well-formed semantic version.
    pub fn new(raw_version: &str, prefix: String, timestamp: Option<i64>, message: Option<String>) -> (r:
        Result<Tag, TaggingError>)
        ensures
            r is Ok <==> valid_version_str(raw_version@),
            r matches Ok(t) ==> Some(t@) == parse_tag(
                raw_version@,
                prefix@,
                timestamp,
                opt_str_view(message),
            ),
            r is Err ==> r == Err::<Tag, TaggingError>(TaggingError::VersionFormat),
    {
        match Version::parse(raw_version) {
            Some(version) => Ok(Tag { prefix, version, timestamp, message }),
            None => Err(TaggingError::VersionFormat),
        }
    }

    /// A new tag with the named component bumped: same prefix, timestamp and
    /// message absent, since they belong to the not-yet-created tag.
    pub fn incremented(&self, position: Position) -> (r: Tag)
        requires
            can_bump(self@.version, position),
        ensures
            r@.prefix == self@.prefix,
            r@.version == bumped(self@.version, position),
            r@.timestamp is None,
            r@.message is None,
    {
        let version = match position {
            Position::Major => Version { major: self.version.major + 1, minor: 0, patch: 0 },
            Position::Minor => Version {
                major: self.version.major,
                minor: self.version.minor + 1,
                patch: 0,
            },
            Position::Patch => Version {
                major: self.version.major,
                minor: self.version.minor,
                patch: self.version.patch + 1,
            },
        };
        Tag { prefix: self.prefix.clone(), version, timestamp: None, message: None }
    }

    /// The full textual form of the tag: prefix followed by the canonical
    /// version text. This is the tag's identity and the literal name handed
    /// to the store.
    pub fn to_string(&self) -> (r: String)
        ensures
            r@ == tag_str(self@),
    {
        let mut s = self.prefix.clone();
        let version = self.version.to_string();
        s.append(version.as_str());
        s
    }
}

} // verus!
