//! Tag discovery and the tag store interface: the grammar of a store listing
//! line, the parser that turns raw listings into tags scoped by prefix, the
//! descending sort, and the repository wrapper with its ghost record of the
//! tags it has written.

use vstd::prelude::*;
use crate::digits::{i64_of, scan_i64};
use crate::error::TaggingError;
use crate::tag::{Tag, TagV, views_of};
use crate::version::{
    Version, valid_version_str, version_le, version_of, lemma_version_le_total,
};

verus! {

/// The horizontal whitespace stripped from the ends of a listing line.
pub open spec fn is_space(c: char) -> bool {
    c == ' ' || c == '\t' || c == '\r'
}

/// `s` without its leading whitespace.
pub open spec fn ltrim(s: Seq<char>) -> Seq<char>
    decreases s.len(),
{
    if s.len() > 0 && is_space(s.first()) {
        ltrim(s.drop_first())
    } else {
        s
    }
}

/// `s` without its trailing whitespace.
pub open spec fn rtrim(s: Seq<char>) -> Seq<char>
    decreases s.len(),
{
    if s.len() > 0 && is_space(s.last()) {
        rtrim(s.drop_last())
    } else {
        s
    }
}

/// `s` without whitespace at either end.
pub open spec fn trimmed(s: Seq<char>) -> Seq<char> {
    rtrim(ltrim(s))
}

/// `s` without one pair of wrapping single quotes, when both are present.
pub open spec fn unquoted(s: Seq<char>) -> Seq<char> {
    if s.len() >= 2 && s.first() == '\'' && s.last() == '\'' {
        s.subrange(1, s.len() - 1)
    } else {
        s
    }
}

/// The position of the last space of `s`, if it has one.
pub open spec fn last_space(s: Seq<char>) -> Option<int>
    decreases s.len(),
{
    if s.len() == 0 {
        None
    } else if s.last() == ' ' {
        Some(s.len() - 1)
    } else {
        last_space(s.drop_last())
    }
}

/// The tag a single listing line denotes under `prefix`, if any. After
/// trimming and unquoting, the line must read `prefix`, then a well-formed
/// version string, then a space, then the creation timestamp; a timestamp
/// that is not a decimal `i64` is recorded as absent.
pub open spec fn line_tag(line: Seq<char>, prefix: Seq<char>) -> Option<TagV> {
    let inner = unquoted(trimmed(line));
    match last_space(inner) {
        Some(k) => {
            let name = inner.subrange(0, k);
            let ts = inner.subrange(k + 1, inner.len() as int);
            let raw = name.subrange(prefix.len() as int, name.len() as int);
            if prefix.is_prefix_of(name) && valid_version_str(raw) {
                Some(
                    TagV {
                        prefix,
                        version: version_of(raw),
                        timestamp: match i64_of(ts) {
                            Some(v) => Some(v as i64),
                            None => None,
                        },
                        message: None,
                    },
                )
            } else {
                None
            }
        },
        None => None,
    }
}

/// The position of the first newline of `s`, if it has one.
pub open spec fn find_newline(s: Seq<char>) -> Option<int>
    decreases s.len(),
{
    if s.len() == 0 {
        None
    } else if s.first() == '\n' {
        Some(0)
    } else {
        match find_newline(s.drop_first()) {
            Some(i) => Some(i + 1),
            None => None,
        }
    }
}

/// A found newline is a newline, the first one.
proof fn lemma_find_newline_some(s: Seq<char>)
    requires
        find_newline(s) is Some,
    ensures
        0 <= find_newline(s).unwrap() < s.len(),
        s[find_newline(s).unwrap()] == '\n',
        forall|k: int| 0 <= k < find_newline(s).unwrap() ==> s[k] != '\n',
    decreases s.len(),
{
    if s.len() > 0 && s.first() != '\n' {
        let d = s.drop_first();
        lemma_find_newline_some(d);
        let i = find_newline(s).unwrap();
        assert forall|k: int| 0 <= k < i implies s[k] != '\n' by {
            if k > 0 {
                assert(d[k - 1] == s[k]);
            }
        }
    }
}

/// `s` cut at its newlines.
pub open spec fn split_lines(s: Seq<char>) -> Seq<Seq<char>>
    decreases s.len(),
    when true
    via split_lines_decreases
{
    match find_newline(s) {
        Some(k) => seq![s.subrange(0, k)] + split_lines(s.subrange(k + 1, s.len() as int)),
        None => seq![s],
    }
}

#[via_fn]
proof fn split_lines_decreases(s: Seq<char>) {
    if find_newline(s) is Some {
        lemma_find_newline_some(s);
    }
}

/// The tags denoted by a sequence of listing lines, in listing order.
pub open spec fn parsed_tags(lines: Seq<Seq<char>>, prefix: Seq<char>) -> Seq<TagV>
    decreases lines.len(),
{
    if lines.len() == 0 {
        Seq::empty()
    } else {
        parsed_tags(lines.drop_last(), prefix) + match line_tag(lines.last(), prefix) {
            Some(t) => seq![t],
            None => Seq::<TagV>::empty(),
        }
    }
}

/// Newest first: each tag's version is at least the version of every tag
/// after it.
pub open spec fn tags_sorted_desc(s: Seq<TagV>) -> bool {
    forall|a: int, b: int| 0 <= a < b < s.len() ==> version_le(#[trigger] s[b].version, #[trigger] s[a].version)
}

/// `ltrim` keeps exactly the characters from the first non-space position.
proof fn lemma_ltrim_range(s: Seq<char>, a: int)
    requires
        0 <= a <= s.len(),
        forall|k: int| 0 <= k < a ==> is_space(s[k]),
        a < s.len() ==> !is_space(s[a]),
    ensures
        ltrim(s) == s.subrange(a, s.len() as int),
    decreases a,
{
    if a == 0 {
        if s.len() == 0 || !is_space(s.first()) {
            assert(ltrim(s) =~= s.subrange(0, s.len() as int));
        }
    } else {
        let d = s.drop_first();
        assert(forall|k: int| 0 <= k < a - 1 ==> is_space(d[k]));
        lemma_ltrim_range(d, a - 1);
        assert(d.subrange(a - 1, d.len() as int) =~= s.subrange(a, s.len() as int));
    }
}

/// `rtrim` keeps exactly the characters before the last non-space position.
proof fn lemma_rtrim_range(s: Seq<char>, b: int)
    requires
        0 <= b <= s.len(),
        forall|k: int| b <= k < s.len() ==> is_space(s[k]),
        b > 0 ==> !is_space(s[b - 1]),
    ensures
        rtrim(s) == s.subrange(0, b),
    decreases s.len(),
{
    if b == s.len() {
        if s.len() == 0 || !is_space(s.last()) {
            assert(rtrim(s) =~= s.subrange(0, b));
        } else {
            assert(false);
        }
    } else {
        let d = s.drop_last();
        lemma_rtrim_range(d, b);
        assert(d.subrange(0, b) =~= s.subrange(0, b));
    }
}

/// A space at `k` with none after it is the last space.
proof fn lemma_last_space_at(s: Seq<char>, k: int)
    requires
        0 <= k < s.len(),
        s[k] == ' ',
        forall|m: int| k < m < s.len() ==> s[m] != ' ',
    ensures
        last_space(s) == Some(k),
    decreases s.len(),
{
    if k == s.len() - 1 {
    } else {
        lemma_last_space_at(s.drop_last(), k);
    }
}

/// A string without spaces has no last space.
proof fn lemma_no_last_space(s: Seq<char>)
    requires
        forall|m: int| 0 <= m < s.len() ==> s[m] != ' ',
    ensures
        last_space(s) is None,
    decreases s.len(),
{
    if s.len() > 0 {
        lemma_no_last_space(s.drop_last());
    }
}

/// Whether the character is trimmed line whitespace.
fn is_space_char(c: char) -> (r: bool)
    ensures
        r == is_space(c),
{
    c == ' ' || c == '\t' || c == '\r'
}

/// Parses one listing line exactly as `line_tag` describes.
#[verifier::rlimit(100)]
fn parse_line(line: &str, prefix: &str) -> (r: Option<Tag>)
    ensures
        match r {
            Some(t) => line_tag(line@, prefix@) == Some(t@),
            None => line_tag(line@, prefix@) is None,
        },
{
    let n = line.unicode_len();
    // Trim whitespace from both ends.
    let mut a: usize = 0;
    while a < n && is_space_char(line.get_char(a))
        invariant
            0 <= a <= n == line@.len(),
            forall|k: int| 0 <= k < a ==> is_space(line@[k]),
        decreases n - a,
    {
        a += 1;
    }
    let mut b: usize = n;
    while b > a && is_space_char(line.get_char(b - 1))
        invariant
            a <= b <= n == line@.len(),
            forall|k: int| b <= k < n ==> is_space(line@[k]),
        decreases b,
    {
        b -= 1;
    }
    proof {
        lemma_ltrim_range(line@, a as int);
        let t = line@.subrange(a as int, n as int);
        lemma_rtrim_range(t, b - a);
        assert(t.subrange(0, b - a) =~= line@.subrange(a as int, b as int));
        assert(trimmed(line@) == line@.subrange(a as int, b as int));
    }
    // Strip one pair of wrapping single quotes.
    let (qa, qb): (usize, usize) = if b - a >= 2 && line.get_char(a) == '\'' && line.get_char(b - 1)
        == '\'' {
        (a + 1, b - 1)
    } else {
        (a, b)
    };
    let ghost inner = unquoted(trimmed(line@));
    proof {
        let t = line@.subrange(a as int, b as int);
        if t.len() >= 2 && t.first() == '\'' && t.last() == '\'' {
            assert(t.subrange(1, t.len() - 1) =~= line@.subrange(qa as int, qb as int));
        }
        assert(inner =~= line@.subrange(qa as int, qb as int));
    }
    // Find the last space: the name / timestamp separator.
    let mut m: usize = qb;
    while m > qa && line.get_char(m - 1) != ' '
        invariant
            qa <= m <= qb <= n == line@.len(),
            forall|k: int| m <= k < qb ==> line@[k] != ' ',
        decreases m,
    {
        m -= 1;
    }
    if m == qa {
        proof {
            assert(forall|k: int| 0 <= k < inner.len() ==> inner[k] == line@[qa + k]);
            lemma_no_last_space(inner);
        }
        return None;
    }
    proof {
        assert(inner[m - 1 - qa] == line@[m - 1]);
        assert(forall|k: int| m - qa <= k < inner.len() ==> inner[k] == line@[qa + k]);
        lemma_last_space_at(inner, m - 1 - qa);
    }
    let ghost name = inner.subrange(0, m - 1 - qa);
    let ghost ts = inner.subrange(m - qa, inner.len() as int);
    proof {
        assert(name =~= line@.subrange(qa as int, m - 1));
        assert(ts =~= line@.subrange(m as int, qb as int));
    }
    // The name must start with the prefix.
    let pn = prefix.unicode_len();
    if m - 1 - qa < pn {
        proof {
            assert(!prefix@.is_prefix_of(name));
        }
        return None;
    }
    let mut p: usize = 0;
    while p < pn && line.get_char(qa + p) == prefix.get_char(p)
        invariant
            0 <= p <= pn == prefix@.len(),
            qa + pn <= m - 1 <= n == line@.len(),
            forall|k: int| 0 <= k < p ==> line@[qa + k] == prefix@[k],
        decreases pn - p,
    {
        p += 1;
    }
    if p < pn {
        proof {
            assert(name[p as int] == line@[qa + p]);
            assert(name.subrange(0, pn as int)[p as int] == name[p as int]);
            assert(!prefix@.is_prefix_of(name));
        }
        return None;
    }
    proof {
        assert(forall|k: int| 0 <= k < pn ==> name[k] == line@[qa + k]);
        assert(prefix@ =~= name.subrange(0, pn as int));
        assert(prefix@.is_prefix_of(name));
    }
    // The remainder of the name must be a well-formed version string.
    let raw = line.substring_char(qa + pn, m - 1);
    proof {
        assert(raw@ =~= name.subrange(pn as int, name.len() as int));
    }
    let version = match Version::parse(raw) {
        Some(v) => v,
        None => {
            return None;
        },
    };
    // The timestamp, when it is a decimal number in range.
    let timestamp = scan_i64(line, m, qb);
    Some(
        Tag {
            prefix: String::from_str(prefix),
            version,
            timestamp,
            message: None,
        },
    )
}

/// A newline at `k` with none before it is the first newline.
proof fn lemma_find_newline_at(s: Seq<char>, k: int)
    requires
        0 <= k < s.len(),
        s[k] == '\n',
        forall|m: int| 0 <= m < k ==> s[m] != '\n',
    ensures
        find_newline(s) == Some(k),
    decreases k,
{
    if k > 0 {
        let d = s.drop_first();
        assert(forall|m: int| 0 <= m < k - 1 ==> d[m] == s[m + 1]);
        assert(d[k - 1] == s[k as int]);
        lemma_find_newline_at(d, k - 1);
    }
}

/// A string without newlines has no first newline.
proof fn lemma_find_newline_none(s: Seq<char>)
    requires
        forall|m: int| 0 <= m < s.len() ==> s[m] != '\n',
    ensures
        find_newline(s) is None,
    decreases s.len(),
{
    if s.len() > 0 {
        lemma_find_newline_none(s.drop_first());
    }
}

/// Removing an element commutes with taking the tag values.
proof fn lemma_views_remove(s: Seq<Tag>, i: int)
    requires
        0 <= i < s.len(),
    ensures
        views_of(s.remove(i)) == views_of(s).remove(i),
{
    assert(views_of(s.remove(i)) =~= views_of(s).remove(i));
}

/// Inserting an element commutes with taking the tag values.
proof fn lemma_views_insert(s: Seq<Tag>, i: int, t: Tag)
    requires
        0 <= i <= s.len(),
    ensures
        views_of(s.insert(i, t)) == views_of(s).insert(i, t@),
{
    assert(views_of(s.insert(i, t)) =~= views_of(s).insert(i, t@));
}

/// Appending an element commutes with taking the tag values.
proof fn lemma_views_push(s: Seq<Tag>, t: Tag)
    ensures
        views_of(s.push(t)) == views_of(s).push(t@),
{
    assert(views_of(s.push(t)) =~= views_of(s).push(t@));
}

/// Sorts the tags in place by version, newest first, keeping exactly the
/// same collection of tags.
fn sort_tags(tags: &mut Vec<Tag>)
    ensures
        final(tags)@.len() == old(tags)@.len(),
        tags_sorted_desc(views_of(final(tags)@)),
        views_of(final(tags)@).to_multiset() == views_of(old(tags)@).to_multiset(),
        forall|k: int|
            0 <= k < final(tags)@.len() ==> old(tags)@.contains(#[trigger] final(tags)@[k]),
{
    broadcast use vstd::seq_lib::group_to_multiset_ensures;

    let ghost orig = tags@;
    proof {
        assert(forall|k: int| 0 <= k < tags@.len() ==> orig.contains(#[trigger] tags@[k]));
    }
    let mut i: usize = 1;
    while i < tags.len()
        invariant
            1 <= i,
            i <= tags@.len() || tags@.len() < 2,
            tags@.len() == orig.len(),
            views_of(tags@).to_multiset() == views_of(orig).to_multiset(),
            forall|x: int, y: int|
                0 <= x < y < i && y < tags@.len() ==> version_le(
                    (#[trigger] views_of(tags@)[y]).version,
                    (#[trigger] views_of(tags@)[x]).version,
                ),
            forall|k: int| 0 <= k < tags@.len() ==> orig.contains(#[trigger] tags@[k]),
        decreases tags@.len() - i,
    {
        let ghost pre = tags@;
        let t = tags.remove(i);
        proof {
            assert(t == pre[i as int]);
            assert(tags@ == pre.remove(i as int));
        }
        let mut j: usize = 0;
        while j < i && t.version.le(&tags[j].version)
            invariant
                0 <= j <= i < pre.len(),
                tags@ == pre.remove(i as int),
                t == pre[i as int],
                forall|k: int|
                    0 <= k < j ==> version_le(t@.version, (#[trigger] tags@[k])@.version),
            decreases i - j,
        {
            proof {
                assert(tags@[j as int]@.version == views_of(tags@)[j as int].version);
            }
            j += 1;
        }
        proof {
            if j < i {
                lemma_version_le_total(t@.version, tags@[j as int]@.version);
            }
        }
        let ghost mid = tags@;
        tags.insert(j, t);
        proof {
            assert(tags@ == mid.insert(j as int, t));
            let vs = views_of(tags@);
            let pvs = views_of(pre);
            let mvs = views_of(mid);
            lemma_views_remove(pre, i as int);
            lemma_views_insert(mid, j as int, t);
            assert(mvs == pvs.remove(i as int));
            assert(vs == mvs.insert(j as int, t@));
            // The collection of tags is unchanged.
            assert(pvs[i as int] == t@);
            assert(pvs.contains(t@)) by {
                assert(pvs[i as int] == t@);
            }
            vstd::seq_lib::to_multiset_contains(pvs, t@);
            vstd::seq_lib::to_multiset_remove(pvs, i as int);
            assert(mvs.to_multiset() == pvs.to_multiset().remove(t@));
            vstd::seq_lib::to_multiset_insert(mvs, j as int, t@);
            assert(vs.to_multiset() == pvs.to_multiset().remove(t@).insert(t@));
            assert(pvs.to_multiset().count(t@) > 0);
            assert(pvs.to_multiset().remove(t@).insert(t@) =~= pvs.to_multiset());
            // The sorted region has grown by one.
            assert forall|x: int, y: int| 0 <= x < y < i + 1 && y < tags@.len() implies version_le(
                (#[trigger] vs[y]).version,
                (#[trigger] vs[x]).version,
            ) by {
                assert(forall|k: int|
                    0 <= k < mid.len() ==> (#[trigger] mvs[k]) == (if k < i {
                        pvs[k]
                    } else {
                        pvs[k + 1]
                    }));
                assert(forall|k: int|
                    0 <= k < vs.len() ==> (#[trigger] vs[k]) == (if k < j {
                        mvs[k]
                    } else if k == j {
                        t@
                    } else {
                        mvs[k - 1]
                    }));
                assert(forall|k: int|
                    0 <= k < j ==> version_le(t@.version, (#[trigger] mvs[k]).version));
                if j < i {
                    assert(version_le(mvs[j as int].version, t@.version));
                }
            }
            // Every element still comes from the input vector.
            assert forall|k: int| 0 <= k < tags@.len() implies orig.contains(
                #[trigger] tags@[k],
            ) by {
                if k < j {
                    assert(tags@[k] == mid[k]);
                    assert(mid[k] == (if k < i {
                        pre[k]
                    } else {
                        pre[k + 1]
                    }));
                } else if k == j {
                    assert(tags@[k] == t);
                } else {
                    assert(tags@[k] == mid[k - 1]);
                    assert(mid[k - 1] == (if k - 1 < i {
                        pre[k - 1]
                    } else {
                        pre[k]
                    }));
                }
            }
        }
        i += 1;
    }
}

/// Parses a raw store listing into the tags scoped by `prefix`, newest
/// first. Lines that do not match the listing grammar are skipped, so this
/// never fails: unusable output simply contributes no tags, and empty output
/// yields an empty vector. The result holds exactly the tags of the
/// parseable lines, in descending version order.
pub fn parse_tags(output: &str, prefix: &str) -> (r: Vec<Tag>)
    ensures
        views_of(r@).to_multiset() == parsed_tags(split_lines(output@), prefix@).to_multiset(),
        tags_sorted_desc(views_of(r@)),
        forall|i: int|
            0 <= i < r@.len() ==> (#[trigger] r@[i])@.prefix == prefix@ && r@[i]@.message is None,
{
    let n = output.unicode_len();
    let mut tags: Vec<Tag> = Vec::new();
    let ghost mut done: Seq<Seq<char>> = Seq::empty();
    let mut start: usize = 0;
    let mut i: usize = 0;
    proof {
        assert(output@.subrange(0, n as int) =~= output@);
        assert(done + split_lines(output@.subrange(0, n as int)) =~= split_lines(output@));
        assert(views_of(tags@) =~= parsed_tags(done, prefix@));
    }
    while i < n
        invariant
            start <= i <= n == output@.len(),
            forall|k: int| start <= k < i ==> output@[k] != '\n',
            split_lines(output@) == done + split_lines(output@.subrange(start as int, n as int)),
            views_of(tags@) == parsed_tags(done, prefix@),
            forall|k: int|
                0 <= k < tags@.len() ==> (#[trigger] tags@[k])@.prefix == prefix@
                    && tags@[k]@.message is None,
        decreases n - i,
    {
        if output.get_char(i) == '\n' {
            let line = output.substring_char(start, i);
            let ghost rem = output@.subrange(start as int, n as int);
            proof {
                assert(rem[i - start] == output@[i as int]);
                assert forall|m: int| 0 <= m < i - start implies rem[m] != '\n' by {
                    assert(rem[m] == output@[start + m]);
                }
                lemma_find_newline_at(rem, i - start);
                assert(rem.subrange(0, i - start) =~= line@);
                assert(rem.subrange(i - start + 1, rem.len() as int) =~= output@.subrange(
                    i + 1,
                    n as int,
                ));
                assert(split_lines(rem) == seq![line@] + split_lines(
                    output@.subrange(i + 1, n as int),
                ));
                assert(done + split_lines(rem) =~= done.push(line@) + split_lines(
                    output@.subrange(i + 1, n as int),
                ));
            }
            let ghost pre_tags = tags@;
            match parse_line(line, prefix) {
                Some(t) => {
                    tags.push(t);
                    proof {
                        lemma_views_push(pre_tags, t);
                        assert(done.push(line@).drop_last() =~= done);
                        assert(parsed_tags(done.push(line@), prefix@) =~= parsed_tags(
                            done,
                            prefix@,
                        ) + seq![t@]);
                        assert(views_of(tags@) =~= parsed_tags(done, prefix@) + seq![t@]);
                    }
                },
                None => {
                    proof {
                        assert(done.push(line@).drop_last() =~= done);
                        assert(parsed_tags(done.push(line@), prefix@) =~= parsed_tags(
                            done,
                            prefix@,
                        ));
                    }
                },
            }
            proof {
                done = done.push(line@);
            }
            start = i + 1;
        }
        i += 1;
    }
    // The final line, after the last newline.
    let line = output.substring_char(start, n);
    proof {
        let rem = output@.subrange(start as int, n as int);
        assert forall|m: int| 0 <= m < rem.len() implies rem[m] != '\n' by {
            assert(rem[m] == output@[start + m]);
        }
        lemma_find_newline_none(rem);
        assert(rem =~= line@);
        assert(split_lines(rem) == seq![line@]);
        assert(done + seq![line@] =~= done.push(line@));
        assert(split_lines(output@) == done.push(line@));
    }
    let ghost pre_tags = tags@;
    match parse_line(line, prefix) {
        Some(t) => {
            tags.push(t);
            proof {
                lemma_views_push(pre_tags, t);
                assert(done.push(line@).drop_last() =~= done);
                assert(parsed_tags(done.push(line@), prefix@) =~= parsed_tags(done, prefix@)
                    + seq![t@]);
                assert(views_of(tags@) =~= parsed_tags(done.push(line@), prefix@));
            }
        },
        None => {
            proof {
                assert(done.push(line@).drop_last() =~= done);
                assert(parsed_tags(done.push(line@), prefix@) =~= parsed_tags(done, prefix@));
            }
        },
    }
    proof {
        assert(views_of(tags@) == parsed_tags(split_lines(output@), prefix@));
    }
    let ghost presort = tags@;
    sort_tags(&mut tags);
    proof {
        assert forall|k: int| 0 <= k < tags@.len() implies (#[trigger] tags@[k])@.prefix == prefix@
            && tags@[k]@.message is None by {
            assert(presort.contains(tags@[k]));
            let m = choose|m: int| 0 <= m < presort.len() && presort[m] == tags@[k];
        }
    }
    tags
}

/// The raw operations of the underlying store client: list the tags under a
/// prefix as one text listing, describe the most recent relevant commit, and
/// create a tag. Implementations live outside the library (the real
/// store client, or a substitute in tests), so nothing is assumed of their
/// results.
pub trait GitClientIO {
    fn get_tags(&self, prefix: &str) -> (r: Result<String, TaggingError>);

    fn get_log(&self, tag: Option<&Tag>) -> (r: Result<String, TaggingError>);

    fn add_tag(&self, tag: &Tag) -> (r: Result<String, TaggingError>);
}

/// A tag repository: discovery of existing tags and creation of new ones,
/// with a ghost record of every tag written through it.
pub trait GitRepoIO {
    /// The tags written through this repository, in order.
    spec fn writes(&self) -> Seq<TagV>;

    /// The result of the most recent discovery, if it succeeded: the values
    /// of the tags it returned, newest first.
    spec fn discovered(&self) -> Option<Seq<TagV>>;

    /// All stored tags under `prefix`, newest first. Whatever listing the
    /// store returned, the result is exactly the tags of its parseable
    /// lines, in descending version order, every one scoped to `prefix` and
    /// without a message; a successful discovery is recorded, so later
    /// contracts can speak of it. The only failure is an unreachable store.
    fn get_tags(&mut self, prefix: &str) -> (r: Result<Vec<Tag>, TaggingError>)
        ensures
            final(self).writes() == old(self).writes(),
            r is Err ==> r == Err::<Vec<Tag>, TaggingError>(TaggingError::TagStoreUnavailable),
            r matches Ok(tags) ==> final(self).discovered() == Some(views_of(tags@))
                && tags_sorted_desc(views_of(tags@)) && (forall|i: int|
                0 <= i < tags@.len() ==> (#[trigger] tags@[i])@.prefix == prefix@ && tags@[i]@.message is None)
                && (exists|listing: Seq<char>|
                views_of(tags@).to_multiset() == parsed_tags(
                    split_lines(listing),
                    prefix@,
                ).to_multiset()),
            r is Err ==> final(self).discovered() is None,
    ;

    /// A short description of the most recent relevant commit, for display
    /// only. The only failure is an unreachable store.
    fn get_log(&self, tag: Option<&Tag>) -> (r: Result<String, TaggingError>)
        ensures
            r is Err ==> r == Err::<String, TaggingError>(TaggingError::TagStoreUnavailable),
    ;

    /// Records `tag` in the store. On success the tag is appended to the
    /// write record; on failure — the store rejecting the write — nothing
    /// has been written.
    fn add_tag(&mut self, tag: &Tag) -> (r: Result<(), TaggingError>)
        ensures
            final(self).discovered() == old(self).discovered(),
            r is Ok ==> final(self).writes() == old(self).writes().push(tag@),
            r is Err ==> final(self).writes() == old(self).writes() && r == Err::<
                (),
                TaggingError,
            >(TaggingError::StoreWriteRejected),
    ;
}

/// The repository over a store client: discovery parses and orders whatever
/// the client lists, and every write is recorded in the ghost log.
pub struct GitRepo<C: GitClientIO> {
    pub client: C,
    write_log: Ghost<Seq<TagV>>,
    found: Ghost<Option<Seq<TagV>>>,
}

impl<C: GitClientIO> GitRepo<C> {
    /// A repository speaking to the store through `client`, with nothing
    /// written yet.
    pub fn new(client: C) -> (r: GitRepo<C>)
        ensures
            r.writes() == Seq::<TagV>::empty(),
            r.discovered() is None,
    {
        GitRepo { client, write_log: Ghost(Seq::empty()), found: Ghost(None) }
    }
}

impl<C: GitClientIO> GitRepoIO for GitRepo<C> {
    closed spec fn writes(&self) -> Seq<TagV> {
        self.write_log@
    }

    closed spec fn discovered(&self) -> Option<Seq<TagV>> {
        self.found@
    }

    fn get_tags(&mut self, prefix: &str) -> (r: Result<Vec<Tag>, TaggingError>) {
        match self.client.get_tags(prefix) {
            Ok(listing) => {
                let tags = parse_tags(listing.as_str(), prefix);
                self.found = Ghost(Some(views_of(tags@)));
                proof {
                    assert(views_of(tags@).to_multiset() == parsed_tags(
                        split_lines(listing@),
                        prefix@,
                    ).to_multiset());
                }
                Ok(tags)
            },
            Err(_) => {
                self.found = Ghost(None);
                Err(TaggingError::TagStoreUnavailable)
            },
        }
    }

    fn get_log(&self, tag: Option<&Tag>) -> (r: Result<String, TaggingError>) {
        match self.client.get_log(tag) {
            Ok(log) => Ok(log),
            Err(_) => Err(TaggingError::TagStoreUnavailable),
        }
    }

    fn add_tag(&mut self, tag: &Tag) -> (r: Result<(), TaggingError>) {
        match self.client.add_tag(tag) {
            Ok(_) => {
                self.write_log = Ghost(self.write_log@.push(tag@));
                Ok(())
            },
            Err(_) => Err(TaggingError::StoreWriteRejected),
        }
    }
}

} // verus!
