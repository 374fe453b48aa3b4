//! Splitting text into lines and words, and joining it again.

use crate::text;
use crate::text::CharClass;
use vstd::prelude::*;

verus! {

/// A line without the carriage return that stood before its line feed.
pub open spec fn without_return(line: Seq<char>) -> Seq<char> {
    if line.len() > 0 && line.last() == '\r' {
        line.drop_last()
    } else {
        line
    }
}

/// The lines of `s`. A line ends at `\n` or `\r\n`, which is not part of it; the last line need
/// not be ended.
pub open spec fn lines(s: Seq<char>) -> Seq<Seq<char>>
    decreases s.len(),
{
    let end = text::first_index(s, CharClass::Is('\n'));
    if s.len() == 0 {
        Seq::empty()
    } else if end < s.len() {
        seq![without_return(s.take(end as int))] + lines(s.skip(end as int + 1))
    } else {
        seq![s]
    }
}

/// The maximal runs of `s` without white space.
pub open spec fn words(s: Seq<char>) -> Seq<Seq<char>>
    decreases s.len(),
{
    if s.len() == 0 {
        Seq::empty()
    } else if text::is_white(s[0]) {
        words(s.drop_first())
    } else {
        let end = text::first_index(s, CharClass::White);
        proof {
            text::lemma_first_index(s, CharClass::White);
        }
        seq![s.take(end as int)] + words(s.skip(end as int))
    }
}

/// The parts in order, with `separator` between each two.
pub open spec fn joined(parts: Seq<Seq<char>>, separator: Seq<char>) -> Seq<char>
    decreases parts.len(),
{
    if parts.len() == 0 {
        Seq::empty()
    } else if parts.len() == 1 {
        parts[0]
    } else {
        parts[0] + separator + joined(parts.drop_first(), separator)
    }
}

/// The number of the line `index` lines below `start_line`.
pub open spec fn line_number(start_line: u32, index: nat) -> u32 {
    (start_line + (index as u32)) as u32
}

/// A text without the line feed at its end, if there is one.
pub open spec fn without_final_newline(s: Seq<char>) -> Seq<char> {
    if s.len() > 0 && s.last() == '\n' {
        s.drop_last()
    } else {
        s
    }
}

/// A text has lines unless it is empty, and no more lines than characters.
pub proof fn lemma_lines_len(s: Seq<char>)
    ensures
        lines(s).len() <= s.len(),
        s.len() > 0 ==> lines(s).len() > 0,
    decreases s.len(),
{
    let end = text::first_index(s, CharClass::Is('\n'));
    if s.len() > 0 && end < s.len() {
        lemma_lines_len(s.skip(end as int + 1));
    }
}

/// No line holds a line feed.
pub proof fn lemma_lines_hold_no_newline(s: Seq<char>)
    ensures
        forall|i: int|
            0 <= i < lines(s).len() ==> !(#[trigger] lines(s)[i]).contains('\n'),
    decreases s.len(),
{
    let newline = CharClass::Is('\n');
    let end = text::first_index(s, newline);
    text::lemma_first_index(s, newline);
    if s.len() > 0 && end < s.len() {
        let line = without_return(s.take(end as int));
        assert(!line.contains('\n')) by {
            if line.contains('\n') {
                let i = choose|i: int| 0 <= i < line.len() && line[i] == '\n';
                assert(s[i] == '\n');
                assert(newline.has(s[i]));
            }
        }
        let rest = s.skip(end as int + 1);
        lemma_lines_hold_no_newline(rest);
        assert forall|i: int| 0 <= i < lines(s).len() implies !(#[trigger] lines(s)[i]).contains(
            '\n',
        ) by {
            if i > 0 {
                assert(lines(s)[i] == lines(rest)[i - 1]);
            }
        }
    } else if s.len() > 0 {
        assert(!s.contains('\n')) by {
            if s.contains('\n') {
                let i = choose|i: int| 0 <= i < s.len() && s[i] == '\n';
                assert(newline.has(s[i]));
            }
        }
    }
}

/// The first line of a text starts with the first character of the text, unless it is empty.
pub proof fn lemma_first_line_start(s: Seq<char>)
    requires
        s.len() > 0,
    ensures
        lines(s).len() > 0,
        lines(s)[0].len() > 0 ==> lines(s)[0][0] == s[0],
{
    text::lemma_first_index(s, CharClass::Is('\n'));
}

/// A character other than a line end, put before a text, goes to the first line alone.
pub proof fn lemma_lines_after_prefix(c: char, s: Seq<char>)
    requires
        c != '\n',
        c != '\r',
        s.len() > 0,
    ensures
        lines(s).len() > 0,
        lines(seq![c] + s) == lines(s).update(0, seq![c] + lines(s)[0]),
{
    let newline = CharClass::Is('\n');
    let t = seq![c] + s;
    let end = text::first_index(s, newline) as int;
    text::lemma_first_index(s, newline);
    assert(t.drop_first() =~= s);
    assert(text::first_index(t, newline) == end + 1);
    if end < s.len() {
        assert(t.take(end + 1) =~= seq![c] + s.take(end));
        assert(without_return(t.take(end + 1)) =~= seq![c] + without_return(s.take(end)));
        assert(t.skip(end + 2) =~= s.skip(end + 1));
    }
    assert(lines(t) =~= lines(s).update(0, seq![c] + lines(s)[0]));
}

/// What follows the first part of a joined text, where the part holds no line feed.
pub proof fn lemma_lines_of_first(first: Seq<char>, rest: Seq<char>)
    requires
        !first.contains('\n'),
    ensures
        lines(first + "\n"@ + rest) == seq![without_return(first)] + lines(rest),
{
    reveal_strlit("\n");
    let s = first + "\n"@ + rest;
    assert forall|i: int| 0 <= i < first.len() implies !CharClass::Is('\n').has(#[trigger] s[i]) by {
        assert(s[i] == first[i]);
        assert(first.contains(first[i]));
    }
    text::lemma_first_index_unique(s, CharClass::Is('\n'), first.len() as int);
    assert(s.take(first.len() as int) =~= first);
    assert(s.skip(first.len() as int + 1) =~= rest);
}

/// Joining lines does not make more of them.
pub proof fn lemma_joined_lines_len(parts: Seq<Seq<char>>)
    requires
        forall|i: int| 0 <= i < parts.len() ==> !(#[trigger] parts[i]).contains('\n'),
    ensures
        lines(joined(parts, "\n"@)).len() <= parts.len(),
    decreases parts.len(),
{
    if parts.len() == 1 {
        let s = parts[0];
        text::lemma_first_index(s, CharClass::Is('\n'));
        let end = text::first_index(s, CharClass::Is('\n')) as int;
        assert(end < s.len() ==> s.contains(s[end]));
    } else if parts.len() > 1 {
        let rest = parts.drop_first();
        assert forall|i: int| 0 <= i < rest.len() implies !(#[trigger] rest[i]).contains('\n') by {
            assert(rest[i] == parts[i + 1]);
        }
        lemma_joined_lines_len(rest);
        lemma_lines_of_first(parts[0], joined(rest, "\n"@));
    }
}

/// Joining two runs of parts is joining all of them.
pub proof fn lemma_joined_concat(a: Seq<Seq<char>>, b: Seq<Seq<char>>, separator: Seq<char>)
    requires
        a.len() > 0,
        b.len() > 0,
    ensures
        joined(a + b, separator) == joined(a, separator) + separator + joined(b, separator),
    decreases a.len(),
{
    let rest = a.drop_first();
    assert((a + b).drop_first() =~= rest + b);
    if a.len() == 1 {
        assert(rest + b =~= b);
    } else {
        lemma_joined_concat(rest, b, separator);
        assert(joined(a + b, separator) =~= joined(a, separator) + separator + joined(
            b,
            separator,
        ));
    }
}

/// Whether no line of `s` ends in a carriage return and a line feed.
pub open spec fn has_plain_line_ends(s: Seq<char>) -> bool {
    forall|i: int| 0 <= i < s.len() - 1 && #[trigger] s[i] == '\r' ==> s[i + 1] != '\n'
}

/// The lines of a text that uses plain line feeds, joined again, are the text without the line
/// feed at its end.
pub proof fn lemma_lines_joined(s: Seq<char>)
    requires
        has_plain_line_ends(s),
    ensures
        joined(lines(s), "\n"@) == without_final_newline(s),
    decreases s.len(),
{
    reveal_strlit("\n");
    let newline = CharClass::Is('\n');
    let end = text::first_index(s, newline);
    text::lemma_first_index(s, newline);
    if s.len() > 0 && end < s.len() {
        let line = s.take(end as int);
        let rest = s.skip(end as int + 1);
        assert(without_return(line) == line) by {
            if line.len() > 0 {
                assert(s[end - 1] == line.last());
                assert(newline.has(s[end as int]));
            }
        }
        assert(has_plain_line_ends(rest)) by {
            assert forall|i: int| 0 <= i < rest.len() - 1 && #[trigger] rest[i] == '\r' implies rest[i
                + 1] != '\n' by {
                assert(s[end + 1 + i] == '\r');
            }
        }
        lemma_lines_joined(rest);
        lemma_lines_len(rest);
        assert(lines(s).drop_first() =~= lines(rest));
        if rest.len() == 0 {
            assert(without_final_newline(s) =~= line);
        } else {
            assert(rest.last() == s.last());
            assert(without_final_newline(s) =~= line + "\n"@ + without_final_newline(rest));
        }
    } else if s.len() > 0 {
        assert(newline.has(s.last()) == (s.last() == '\n'));
    }
}

/// The lines of `s`.
pub fn split_lines(s: &str) -> (result: Vec<String>)
    ensures
        text::views(result@) == lines(s@),
{
    let chars = text::chars_of(s);
    let mut result: Vec<String> = Vec::new();
    let mut rest: &[char] = chars.as_slice();
    assert(text::views(result@) + lines(rest@) =~= lines(s@));
    while rest.len() > 0
        invariant
            text::views(result@) + lines(rest@) == lines(s@),
        decreases rest@.len(),
    {
        let end = text::find(rest, CharClass::Is('\n'));
        let ghost done = result@;
        if end < rest.len() {
            let raw = text::take(rest, end);
            let line = if end > 0 && raw[end - 1] == '\r' {
                text::take(raw, end - 1)
            } else {
                raw
            };
            assert(line@ =~= without_return(rest@.take(end as int)));
            let ghost old_rest = rest@;
            result.push(text::string_of(line));
            rest = text::skip(rest, end + 1);
            proof {
                text::lemma_views_push(done, result@.last());
                assert(text::views(result@) + lines(rest@) =~= text::views(done) + lines(old_rest));
            }
        } else {
            let ghost old_rest = rest@;
            result.push(text::string_of(rest));
            rest = text::skip(rest, end);
            proof {
                text::lemma_views_push(done, result@.last());
                assert(text::views(result@) + lines(rest@) =~= text::views(done) + lines(old_rest));
            }
        }
    }
    assert(text::views(result@) + lines(rest@) =~= text::views(result@));
    result
}

/// The maximal runs of `s` without white space.
pub fn split_words<'a>(s: &'a [char]) -> (result: Vec<&'a [char]>)
    ensures
        result@.map_values(|word: &[char]| word@) == words(s@),
{
    let mut result: Vec<&'a [char]> = Vec::new();
    let mut rest: &'a [char] = s;
    let ghost view = |word: &[char]| word@;
    assert(result@.map_values(view) + words(rest@) =~= words(s@));
    while rest.len() > 0
        invariant
            view == (|word: &[char]| word@),
            result@.map_values(view) + words(rest@) == words(s@),
        decreases rest@.len(),
    {
        if text::is_whitespace(rest[0]) {
            let ghost old_rest = rest@;
            rest = text::skip(rest, 1);
            assert(rest@ =~= old_rest.drop_first());
        } else {
            let end = text::find(rest, CharClass::White);
            let ghost done = result@;
            let ghost old_rest = rest@;
            let word = text::take(rest, end);
            result.push(word);
            rest = text::skip(rest, end);
            assert(result@.map_values(view) + words(rest@) =~= done.map_values(view) + words(
                old_rest,
            ));
        }
    }
    assert(result@.map_values(view) + words(rest@) =~= result@.map_values(view));
    result
}

/// The strings from index `from` up to `to`, with `separator` between each two.
pub fn join(parts: &Vec<String>, from: usize, to: usize, separator: &str) -> (result: String)
    requires
        from <= to <= parts@.len(),
    ensures
        result@ == joined(text::views(parts@).subrange(from as int, to as int), separator@),
{
    let ghost all = text::views(parts@);
    let mut result = String::new();
    let mut i = from;
    if from == to {
        return result;
    }
    result.append(parts[from].as_str());
    i += 1;
    assert(all.subrange(from as int, to as int).drop_first() =~= all.subrange(
        from + 1,
        to as int,
    ));
    assert(result@ + tail(all.subrange(i as int, to as int), separator@) =~= joined(
        all.subrange(from as int, to as int),
        separator@,
    ));
    while i < to
        invariant
            from < i <= to <= parts@.len(),
            all == text::views(parts@),
            result@ + tail(all.subrange(i as int, to as int), separator@) == joined(
                all.subrange(from as int, to as int),
                separator@,
            ),
        decreases to - i,
    {
        let ghost before = result@;
        result.append(separator);
        result.append(parts[i].as_str());
        proof {
            let rest = all.subrange(i as int, to as int);
            assert(rest.drop_first() =~= all.subrange(i + 1, to as int));
            assert(result@ + tail(rest.drop_first(), separator@) =~= before + tail(
                rest,
                separator@,
            ));
        }
        i += 1;
    }
    assert(result@ + tail(all.subrange(to as int, to as int), separator@) =~= result@);
    result
}

/// What follows the first part of a joined text: each later part after a separator.
spec fn tail(parts: Seq<Seq<char>>, separator: Seq<char>) -> Seq<char> {
    if parts.len() == 0 {
        Seq::empty()
    } else {
        separator + joined(parts, separator)
    }
}

} // verus!
