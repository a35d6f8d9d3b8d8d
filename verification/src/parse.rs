//! The content parser: classifies a secret's plaintext as an opaque value
//! or as a structured key/value record.
//!
//! The text is read line by line. A line contributes a field when it
//! consists of optional leading whitespace, a non-empty key of word
//! characters, spaces, dots and hyphens, a colon, and a non-empty value
//! running to the end of the line; whitespace around the key and the value
//! is excluded. A later line with the same key overwrites the earlier one.
//! When no line matches, the whole text, trimmed, is an opaque secret.

use crate::entries::Entries;
use crate::text::{is_key_char, key_char, trim, trim_str};
use vstd::prelude::*;

verus! {

/// The position of the first occurrence of `c` in `s`, or `s.len()` when
/// `c` does not occur.
pub open spec fn find_char(s: Seq<char>, c: char) -> int
    decreases s.len(),
{
    if s.len() == 0 {
        0
    } else if s[0] == c {
        0
    } else {
        1 + find_char(s.skip(1), c)
    }
}

/// `find_char` returns a position within bounds, before which `c` does not
/// occur, and at which `c` stands when the position is inside the sequence.
pub proof fn lemma_find_char(s: Seq<char>, c: char)
    ensures
        0 <= find_char(s, c) <= s.len(),
        forall|k: int| 0 <= k < find_char(s, c) ==> s[k] != c,
        find_char(s, c) < s.len() ==> s[find_char(s, c)] == c,
    decreases s.len(),
{
    if s.len() != 0 && s[0] != c {
        lemma_find_char(s.skip(1), c);
        assert forall|k: int| 0 <= k < find_char(s, c) implies s[k] != c by {
            if k > 0 {
                assert(s.skip(1)[k - 1] != c);
            }
        }
    }
}

/// The first position at which `c` occurs is characterized by what stands
/// before and at it.
pub proof fn lemma_find_char_is(s: Seq<char>, c: char, p: int)
    requires
        0 <= p <= s.len(),
        forall|k: int| 0 <= k < p ==> s[k] != c,
        p == s.len() || s[p] == c,
    ensures
        find_char(s, c) == p,
    decreases p,
{
    if s.len() == 0 {
    } else if p == 0 {
    } else {
        assert(s[0] != c);
        let t = s.skip(1);
        assert(forall|k: int| 0 <= k < t.len() ==> t[k] == s[k + 1]);
        lemma_find_char_is(t, c, p - 1);
    }
}

/// The lines of the text: the segments between line feeds. A trailing line
/// feed yields a final empty line, which never matches.
pub open spec fn split_lines(s: Seq<char>) -> Seq<Seq<char>>
    decreases s.len(),
    via split_lines_decreases
{
    let p = find_char(s, '\n');
    if p == s.len() {
        seq![s]
    } else {
        seq![s.take(p)] + split_lines(s.skip(p + 1))
    }
}

#[via_fn]
proof fn split_lines_decreases(s: Seq<char>) {
    lemma_find_char(s, '\n');
}

/// Whether a line contributes a field: it has a colon, everything before
/// the colon is made of key characters with at least one non-blank among
/// them, and a non-blank value follows the colon.
pub open spec fn line_matches(line: Seq<char>) -> bool {
    let p = find_char(line, ':');
    &&& p < line.len()
    &&& forall|k: int| 0 <= k < p ==> is_key_char(#[trigger] line[k])
    &&& line_key(line).len() > 0
    &&& line_value(line).len() > 0
}

/// The field key of a line: what stands before its first colon, trimmed.
pub open spec fn line_key(line: Seq<char>) -> Seq<char> {
    trim(line.take(find_char(line, ':')))
}

/// The field value of a line: what stands after its first colon, trimmed.
pub open spec fn line_value(line: Seq<char>) -> Seq<char> {
    trim(line.skip(find_char(line, ':') + 1))
}

/// The record the matching lines build up, a later line overwriting an
/// earlier one with the same key.
pub open spec fn fields_of(lines: Seq<Seq<char>>) -> Map<Seq<char>, Seq<char>>
    decreases lines.len(),
{
    if lines.len() == 0 {
        Map::empty()
    } else if line_matches(lines.last()) {
        fields_of(lines.drop_last()).insert(line_key(lines.last()), line_value(lines.last()))
    } else {
        fields_of(lines.drop_last())
    }
}

/// Whether any line contributes a field.
pub open spec fn any_line_matches(lines: Seq<Seq<char>>) -> bool {
    exists|i: int| 0 <= i < lines.len() && line_matches(#[trigger] lines[i])
}

/// The classification of resolved plaintext: an opaque secret to deliver
/// verbatim, or a structured record to browse field by field.
pub enum ParsedPassword {
    Raw(String),
    KeyValue(Entries),
}

/// Extracts the field a line contributes, when it contributes one.
fn match_line(line: &str) -> (r: Option<(String, String)>)
    ensures
        r is Some <==> line_matches(line@),
        match r {
            Some(kv) => kv.0@ == line_key(line@) && kv.1@ == line_value(line@),
            None => true,
        },
{
    let n = line.unicode_len();
    let mut p: usize = 0;
    while p < n && line.get_char(p) != ':'
        invariant
            0 <= p <= n,
            n == line@.len(),
            forall|k: int| 0 <= k < p ==> line@[k] != ':',
        decreases n - p,
    {
        p = p + 1;
    }
    proof {
        lemma_find_char_is(line@, ':', p as int);
    }
    if p == n {
        return None;
    }
    let mut k: usize = 0;
    while k < p
        invariant
            0 <= k <= p < n,
            n == line@.len(),
            p as int == find_char(line@, ':'),
            forall|j: int| 0 <= j < k ==> is_key_char(#[trigger] line@[j]),
        decreases p - k,
    {
        if !key_char(line.get_char(k)) {
            proof {
                if line_matches(line@) {
                    assert(is_key_char(line@[k as int]));
                }
            }
            return None;
        }
        k = k + 1;
    }
    let key = trim_str(line.substring_char(0, p));
    proof {
        assert(line@.subrange(0, p as int) =~= line@.take(p as int));
    }
    if key.as_str().is_empty() {
        return None;
    }
    let value = trim_str(line.substring_char(p + 1, n));
    proof {
        assert(line@.subrange(p as int + 1, n as int) =~= line@.skip(p as int + 1));
    }
    if value.as_str().is_empty() {
        return None;
    }
    Some((key, value))
}

/// Classifies plaintext: a record of the fields its lines contribute when
/// at least one line matches, and otherwise the text itself, trimmed.
pub fn parse_kv(content: &str) -> (r: ParsedPassword)
    ensures
        match r {
            ParsedPassword::KeyValue(e) => any_line_matches(split_lines(content@)) && e.wf() && e@
                == fields_of(split_lines(content@)),
            ParsedPassword::Raw(s) => !any_line_matches(split_lines(content@)) && s@ == trim(
                content@,
            ),
        },
{
    let lines = split_into_lines(content);
    let ghost line_views = split_lines(content@);
    let mut fields = Entries::new();
    let mut matched = false;
    let mut i: usize = 0;
    proof {
        assert(line_views.take(0) =~= Seq::<Seq<char>>::empty());
    }
    while i < lines.len()
        invariant
            0 <= i <= lines@.len(),
            lines@.map_values(|s: String| s@) == line_views,
            lines@.len() == line_views.len(),
            fields.wf(),
            fields@ == fields_of(line_views.take(i as int)),
            matched == any_line_matches(line_views.take(i as int)),
        decreases lines@.len() - i,
    {
        let ghost prefix = line_views.take(i as int);
        proof {
            assert(line_views[i as int] == lines@[i as int]@);
            assert(line_views.take(i as int + 1).drop_last() =~= prefix);
            assert(line_views.take(i as int + 1).last() == line_views[i as int]);
        }
        match match_line(lines[i].as_str()) {
            Some(kv) => {
                fields.insert(kv.0, kv.1);
                matched = true;
                proof {
                    assert(line_matches(line_views.take(i as int + 1)[i as int]));
                }
            },
            None => {
                proof {
                    if any_line_matches(line_views.take(i as int + 1)) {
                        let j = choose|j: int|
                            0 <= j < line_views.take(i as int + 1).len() && line_matches(
                                #[trigger] line_views.take(i as int + 1)[j],
                            );
                        if j < i {
                            assert(line_matches(prefix[j]));
                        }
                    }
                    if any_line_matches(prefix) {
                        let j = choose|j: int|
                            0 <= j < prefix.len() && line_matches(#[trigger] prefix[j]);
                        assert(line_matches(line_views.take(i as int + 1)[j]));
                    }
                }
            },
        }
        i = i + 1;
    }
    proof {
        assert(line_views.take(line_views.len() as int) =~= line_views);
    }
    if matched {
        ParsedPassword::KeyValue(fields)
    } else {
        ParsedPassword::Raw(trim_str(content))
    }
}

/// Splits the text at line feeds.
fn split_into_lines(content: &str) -> (r: Vec<String>)
    ensures
        r@.map_values(|s: String| s@) == split_lines(content@),
{
    let n = content.unicode_len();
    let mut lines: Vec<String> = Vec::new();
    let mut start: usize = 0;
    let mut i: usize = 0;
    proof {
        assert(content@.skip(0) =~= content@);
        assert(lines@.map_values(|s: String| s@) =~= Seq::<Seq<char>>::empty());
    }
    while i < n
        invariant
            0 <= start <= i <= n,
            n == content@.len(),
            forall|k: int| start <= k < i ==> content@[k] != '\n',
            split_lines(content@) == lines@.map_values(|s: String| s@) + split_lines(
                content@.skip(start as int),
            ),
        decreases n - i,
    {
        if content.get_char(i) == '\n' {
            let line = String::from_str(content.substring_char(start, i));
            let ghost rest = content@.skip(start as int);
            let ghost lv = lines@.map_values(|s: String| s@);
            proof {
                assert(forall|k: int| 0 <= k < rest.len() ==> rest[k] == content@[k + start]);
                lemma_find_char_is(rest, '\n', i - start);
                assert(split_lines(rest) == seq![rest.take(i - start)] + split_lines(
                    rest.skip(i - start + 1),
                ));
                assert(rest.take(i - start) =~= content@.subrange(start as int, i as int));
                assert(rest.skip(i - start + 1) =~= content@.skip(i as int + 1));
            }
            lines.push(line);
            proof {
                assert(lines@.map_values(|s: String| s@) =~= lv.push(line@));
                assert(lv + (seq![line@] + split_lines(content@.skip(i as int + 1))) =~= lv.push(
                    line@,
                ) + split_lines(content@.skip(i as int + 1)));
            }
            start = i + 1;
        }
        i = i + 1;
    }
    let last = String::from_str(content.substring_char(start, n));
    let ghost rest = content@.skip(start as int);
    let ghost lv = lines@.map_values(|s: String| s@);
    proof {
        assert(forall|k: int| 0 <= k < rest.len() ==> rest[k] == content@[k + start]);
        lemma_find_char_is(rest, '\n', n - start);
        assert(split_lines(rest) == seq![rest]);
        assert(rest =~= content@.subrange(start as int, n as int));
    }
    lines.push(last);
    proof {
        assert(lines@.map_values(|s: String| s@) =~= lv.push(last@));
        assert(lv + seq![rest] =~= lv.push(last@));
    }
    lines
}

} // verus!
