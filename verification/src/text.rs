//! Characters, character classes, and the slicing of text by class.
//!
//! Text is modelled as a sequence of `char`. The executable functions work on
//! slices of `char`; `chars_of` and `string_of` go between slices and strings.

use vstd::prelude::*;
use vstd::slice::slice_subrange;

verus! {

/// `String::push` appends one character at the end of the string.
pub assume_specification[ String::push ](string: &mut String, ch: char)
    ensures
        final(string)@ == old(string)@.push(ch),
;

/// What the Unicode tables map a text that is not all ASCII to.
pub uninterp spec fn unicode_lowercase(s: Seq<char>) -> Seq<char>;

/// The lower case of an ASCII character.
pub open spec fn ascii_lowercase(c: char) -> char {
    if 'A' <= c <= 'Z' {
        (c as u32 + 32) as char
    } else {
        c
    }
}

/// An ASCII text in lower case.
pub open spec fn ascii_lower(s: Seq<char>) -> Seq<char> {
    s.map_values(|c: char| ascii_lowercase(c))
}

/// `s` in lower case.
pub open spec fn lowercase(s: Seq<char>) -> Seq<char> {
    if vstd::utf8::is_ascii_chars(s) {
        ascii_lower(s)
    } else {
        unicode_lowercase(s)
    }
}

/// `str::to_lowercase` maps a text to lower case by the Unicode tables. ASCII characters map one
/// by one, whatever stands around them: the letters `A` to `Z` become small, and the rest is kept.
/// So ASCII text is mapped that way as a whole, and so is the ASCII end of any text. What other
/// text is mapped to is not spelled out here, only that the text alone decides it.
pub assume_specification[ str::to_lowercase ](s: &str) -> (lower: String)
    ensures
        vstd::utf8::is_ascii_chars(s@) ==> lower@ == ascii_lower(s@),
        !vstd::utf8::is_ascii_chars(s@) ==> lower@ == unicode_lowercase(s@),
        forall|k: int|
            0 <= k <= s@.len() && vstd::utf8::is_ascii_chars(#[trigger] s@.skip(k))
                ==> finishes_with(lower@, ascii_lower(s@.skip(k))),
;

/// The characters with the Unicode property `White_Space`.
pub open spec fn is_white(c: char) -> bool {
    ||| '\u{9}' <= c <= '\u{d}'
    ||| c == '\u{20}'
    ||| c == '\u{85}'
    ||| c == '\u{a0}'
    ||| c == '\u{1680}'
    ||| '\u{2000}' <= c <= '\u{200a}'
    ||| c == '\u{2028}'
    ||| c == '\u{2029}'
    ||| c == '\u{202f}'
    ||| c == '\u{205f}'
    ||| c == '\u{3000}'
}

/// Whether `c` is white space.
pub fn is_whitespace(c: char) -> (white: bool)
    ensures
        white == is_white(c),
{
    ('\u{9}' <= c && c <= '\u{d}') || c == '\u{20}' || c == '\u{85}' || c == '\u{a0}' || c
        == '\u{1680}' || ('\u{2000}' <= c && c <= '\u{200a}') || c == '\u{2028}' || c == '\u{2029}'
        || c == '\u{202f}' || c == '\u{205f}' || c == '\u{3000}'
}

/// A set of characters to search for or to strip.
#[derive(Clone, Copy)]
pub enum CharClass {
    /// White space.
    White,
    /// One character.
    Is(char),
    /// What ends the name in a declaration: white space, `=`, `:` or `;`.
    NameBreak,
    /// What ends the name of a tag: white space, `>` or `/`.
    TagBreak,
    /// What separates the parts of a path: `/` or `\`.
    PathBreak,
    /// Everything beyond ASCII.
    NonAscii,
}

impl CharClass {
    /// Whether `c` belongs to the class.
    pub open spec fn has(self, c: char) -> bool {
        match self {
            CharClass::White => is_white(c),
            CharClass::Is(d) => c == d,
            CharClass::NameBreak => is_white(c) || c == '=' || c == ':' || c == ';',
            CharClass::TagBreak => is_white(c) || c == '>' || c == '/',
            CharClass::PathBreak => c == '/' || c == '\\',
            CharClass::NonAscii => c > '\u{7f}',
        }
    }

    /// Whether `c` belongs to the class.
    pub fn accepts(&self, c: char) -> (accepted: bool)
        ensures
            accepted == self.has(c),
    {
        match self {
            CharClass::White => is_whitespace(c),
            CharClass::Is(d) => c == *d,
            CharClass::NameBreak => is_whitespace(c) || c == '=' || c == ':' || c == ';',
            CharClass::TagBreak => is_whitespace(c) || c == '>' || c == '/',
            CharClass::PathBreak => c == '/' || c == '\\',
            CharClass::NonAscii => c > '\u{7f}',
        }
    }
}

/// The index of the first character of `s` in `class`; the length of `s` if there is none.
pub open spec fn first_index(s: Seq<char>, class: CharClass) -> nat
    decreases s.len(),
{
    if s.len() == 0 || class.has(s[0]) {
        0
    } else {
        1 + first_index(s.drop_first(), class)
    }
}

/// `s` without the longest prefix whose characters are all in `class`.
pub open spec fn trimmed_start(s: Seq<char>, class: CharClass) -> Seq<char>
    decreases s.len(),
{
    if s.len() > 0 && class.has(s[0]) {
        trimmed_start(s.drop_first(), class)
    } else {
        s
    }
}

/// `s` without the longest suffix whose characters are all in `class`.
pub open spec fn trimmed_end(s: Seq<char>, class: CharClass) -> Seq<char>
    decreases s.len(),
{
    if s.len() > 0 && class.has(s.last()) {
        trimmed_end(s.drop_last(), class)
    } else {
        s
    }
}

/// `s` stripped of `class` at both ends.
pub open spec fn trimmed_matches(s: Seq<char>, class: CharClass) -> Seq<char> {
    trimmed_end(trimmed_start(s, class), class)
}

/// `s` stripped of white space at both ends.
pub open spec fn trimmed(s: Seq<char>) -> Seq<char> {
    trimmed_matches(s, CharClass::White)
}

/// Whether `s` begins with `prefix`.
pub open spec fn begins_with(s: Seq<char>, prefix: Seq<char>) -> bool {
    prefix.len() <= s.len() && s.take(prefix.len() as int) == prefix
}

/// Whether `s` ends with `suffix`.
pub open spec fn finishes_with(s: Seq<char>, suffix: Seq<char>) -> bool {
    suffix.len() <= s.len() && s.skip(s.len() - suffix.len()) == suffix
}

/// The longest suffix of `s` without a character in `class`: what follows the last of them.
pub open spec fn after_last(s: Seq<char>, class: CharClass) -> Seq<char>
    decreases s.len(),
{
    if s.len() == 0 || class.has(s.last()) {
        Seq::empty()
    } else {
        after_last(s.drop_last(), class).push(s.last())
    }
}

/// The views of a sequence of strings.
pub open spec fn views(strings: Seq<String>) -> Seq<Seq<char>> {
    strings.map_values(|s: String| s@)
}

/// No character is below the first.
pub proof fn lemma_char_range(c: char)
    ensures
        '\0' <= c,
{
}

/// `first_index` is the first index in the class: everything before it is outside.
pub proof fn lemma_first_index(s: Seq<char>, class: CharClass)
    ensures
        first_index(s, class) <= s.len(),
        first_index(s, class) < s.len() ==> class.has(s[first_index(s, class) as int]),
        forall|i: int| 0 <= i < first_index(s, class) ==> !class.has(#[trigger] s[i]),
    decreases s.len(),
{
    if s.len() > 0 && !class.has(s[0]) {
        let rest = s.drop_first();
        lemma_first_index(rest, class);
        assert forall|i: int| 0 <= i < first_index(s, class) implies !class.has(
            #[trigger] s[i],
        ) by {
            if i > 0 {
                assert(s[i] == rest[i - 1]);
            }
        }
    }
}

/// An index before which nothing is in the class, and which ends the text or is in the class,
/// is `first_index`.
pub proof fn lemma_first_index_unique(s: Seq<char>, class: CharClass, k: int)
    requires
        0 <= k <= s.len(),
        forall|i: int| 0 <= i < k ==> !class.has(#[trigger] s[i]),
        k < s.len() ==> class.has(s[k]),
    ensures
        first_index(s, class) == k,
{
    lemma_first_index(s, class);
    let f = first_index(s, class) as int;
    if f < k {
        assert(class.has(s[f]));
    } else if k < f {
        assert(class.has(s[k]));
    }
}

/// What is left after stripping the start is a suffix that does not start in the class, and what
/// was stripped is all in the class.
pub proof fn lemma_trimmed_start(s: Seq<char>, class: CharClass)
    ensures
        trimmed_start(s, class).len() <= s.len(),
        trimmed_start(s, class) == s.skip(s.len() - trimmed_start(s, class).len()),
        trimmed_start(s, class).len() > 0 ==> !class.has(trimmed_start(s, class)[0]),
        forall|i: int|
            0 <= i < s.len() - trimmed_start(s, class).len() ==> class.has(#[trigger] s[i]),
    decreases s.len(),
{
    if s.len() > 0 && class.has(s[0]) {
        lemma_trimmed_start(s.drop_first(), class);
        assert forall|i: int| 0 <= i < s.len() - trimmed_start(s, class).len() implies class.has(
            #[trigger] s[i],
        ) by {
            if i > 0 {
                assert(s[i] == s.drop_first()[i - 1]);
            }
        }
    }
    assert(trimmed_start(s, class) =~= s.skip(s.len() - trimmed_start(s, class).len()));
}

/// What is left after stripping the end is a prefix that does not end in the class, and what was
/// stripped is all in the class.
pub proof fn lemma_trimmed_end(s: Seq<char>, class: CharClass)
    ensures
        trimmed_end(s, class).len() <= s.len(),
        trimmed_end(s, class) == s.take(trimmed_end(s, class).len() as int),
        trimmed_end(s, class).len() > 0 ==> !class.has(trimmed_end(s, class).last()),
        forall|i: int| trimmed_end(s, class).len() <= i < s.len() ==> class.has(#[trigger] s[i]),
    decreases s.len(),
{
    if s.len() > 0 && class.has(s.last()) {
        lemma_trimmed_end(s.drop_last(), class);
        assert forall|i: int| trimmed_end(s, class).len() <= i < s.len() implies class.has(
            #[trigger] s[i],
        ) by {
            if i < s.len() - 1 {
                assert(s[i] == s.drop_last()[i]);
            }
        }
    }
    assert(trimmed_end(s, class) =~= s.take(trimmed_end(s, class).len() as int));
}

/// What is left after stripping both ends holds only characters of the text, and neither starts
/// nor ends in the class.
pub proof fn lemma_trimmed_matches(s: Seq<char>, class: CharClass)
    ensures
        ({
            let t = trimmed_matches(s, class);
            &&& t.len() > 0 ==> !class.has(t[0]) && !class.has(t.last())
            &&& forall|i: int| 0 <= i < t.len() ==> s.contains(#[trigger] t[i])
        }),
{
    let u = trimmed_start(s, class);
    let t = trimmed_matches(s, class);
    lemma_trimmed_start(s, class);
    lemma_trimmed_end(u, class);
    assert forall|i: int| 0 <= i < t.len() implies s.contains(#[trigger] t[i]) by {
        assert(t[i] == s[s.len() - u.len() + i]);
    }
}

/// What follows the last character in the class is a suffix without any, and the character before
/// it, if there is one, is in the class.
pub proof fn lemma_after_last_suffix(s: Seq<char>, class: CharClass)
    ensures
        ({
            let tail = after_last(s, class);
            &&& tail.len() <= s.len()
            &&& tail == s.skip(s.len() - tail.len())
            &&& forall|i: int| 0 <= i < tail.len() ==> !class.has(#[trigger] tail[i])
            &&& tail.len() < s.len() ==> class.has(s[s.len() - tail.len() - 1])
        }),
    decreases s.len(),
{
    if s.len() > 0 && !class.has(s.last()) {
        lemma_after_last_suffix(s.drop_last(), class);
    }
    assert(after_last(s, class) =~= s.skip(s.len() - after_last(s, class).len()));
}

/// What follows the last character in the class is what stands behind it.
pub proof fn lemma_after_last(head: Seq<char>, c: char, tail: Seq<char>, class: CharClass)
    requires
        class.has(c),
        forall|i: int| 0 <= i < tail.len() ==> !class.has(#[trigger] tail[i]),
    ensures
        after_last(head.push(c) + tail, class) == tail,
    decreases tail.len(),
{
    let s = head.push(c) + tail;
    if tail.len() > 0 {
        assert(s.drop_last() =~= head.push(c) + tail.drop_last());
        lemma_after_last(head, c, tail.drop_last(), class);
        assert(after_last(s, class) =~= tail);
    } else {
        assert(s.last() == c);
        assert(after_last(s, class) =~= tail);
    }
}

/// A text without a character in the class is what follows the last of them.
pub proof fn lemma_after_none(s: Seq<char>, class: CharClass)
    requires
        forall|i: int| 0 <= i < s.len() ==> !class.has(#[trigger] s[i]),
    ensures
        after_last(s, class) == s,
    decreases s.len(),
{
    if s.len() > 0 {
        lemma_after_none(s.drop_last(), class);
    }
    assert(after_last(s, class) =~= s);
}

/// Appending one string appends its view.
pub proof fn lemma_views_push(strings: Seq<String>, s: String)
    ensures
        views(strings.push(s)) == views(strings).push(s@),
{
    assert(views(strings.push(s)) =~= views(strings).push(s@));
}

/// The characters of a string.
pub fn chars_of(s: &str) -> (chars: Vec<char>)
    ensures
        chars@ == s@,
{
    let mut chars: Vec<char> = Vec::new();
    for c in it: s.chars()
        invariant
            chars@ == s@.take(it.index() as int),
            it.seq() == s@,
    {
        chars.push(c);
    }
    chars
}

/// The string made of the given characters.
pub fn string_of(chars: &[char]) -> (s: String)
    ensures
        s@ == chars@,
{
    let mut s = String::new();
    let mut i: usize = 0;
    while i < chars.len()
        invariant
            i <= chars@.len(),
            s@ == chars@.take(i as int),
        decreases chars@.len() - i,
    {
        s.push(chars[i]);
        i += 1;
    }
    s
}

/// The index of the first character in `class`; the length of `s` if there is none.
pub fn find(s: &[char], class: CharClass) -> (index: usize)
    ensures
        index == first_index(s@, class),
        index <= s@.len(),
{
    let mut i: usize = 0;
    while i < s.len() && !class.accepts(s[i])
        invariant
            i <= s@.len(),
            forall|j: int| 0 <= j < i ==> !class.has(#[trigger] s@[j]),
        decreases s@.len() - i,
    {
        i += 1;
    }
    proof {
        lemma_first_index_unique(s@, class, i as int);
    }
    i
}

/// Strips `class` from the start.
pub fn trim_start_matches<'a>(s: &'a [char], class: CharClass) -> (rest: &'a [char])
    ensures
        rest@ == trimmed_start(s@, class),
{
    let mut i: usize = 0;
    assert(s@.skip(0) =~= s@);
    while i < s.len() && class.accepts(s[i])
        invariant
            i <= s@.len(),
            trimmed_start(s@.skip(i as int), class) == trimmed_start(s@, class),
        decreases s@.len() - i,
    {
        assert(s@.skip(i as int).drop_first() =~= s@.skip(i + 1));
        i += 1;
    }
    assert(s@.subrange(i as int, s@.len() as int) =~= s@.skip(i as int));
    slice_subrange(s, i, s.len())
}

/// Strips `class` from the end.
pub fn trim_end_matches<'a>(s: &'a [char], class: CharClass) -> (rest: &'a [char])
    ensures
        rest@ == trimmed_end(s@, class),
{
    let mut j: usize = s.len();
    assert(s@.take(s@.len() as int) =~= s@);
    while j > 0 && class.accepts(s[j - 1])
        invariant
            j <= s@.len(),
            trimmed_end(s@.take(j as int), class) == trimmed_end(s@, class),
        decreases j,
    {
        assert(s@.take(j as int).drop_last() =~= s@.take(j - 1));
        j -= 1;
    }
    assert(s@.subrange(0, j as int) =~= s@.take(j as int));
    slice_subrange(s, 0, j)
}

/// Strips `class` from both ends.
pub fn trim_matches<'a>(s: &'a [char], class: CharClass) -> (rest: &'a [char])
    ensures
        rest@ == trimmed_matches(s@, class),
{
    trim_end_matches(trim_start_matches(s, class), class)
}

/// Strips white space from both ends.
pub fn trim<'a>(s: &'a [char]) -> (rest: &'a [char])
    ensures
        rest@ == trimmed(s@),
{
    trim_matches(s, CharClass::White)
}

/// What follows the last character in `class`; all of `s` if there is none.
pub fn skip_past_last<'a>(s: &'a [char], class: CharClass) -> (rest: &'a [char])
    ensures
        rest@ == after_last(s@, class),
        rest@.len() <= s@.len(),
{
    let mut j: usize = s.len();
    assert(s@.take(s@.len() as int) =~= s@);
    assert(after_last(s@, class) =~= after_last(s@.take(j as int), class) + s@.skip(j as int));
    while j > 0 && !class.accepts(s[j - 1])
        invariant
            j <= s@.len(),
            after_last(s@, class) == after_last(s@.take(j as int), class) + s@.skip(j as int),
        decreases j,
    {
        assert(s@.take(j as int).drop_last() =~= s@.take(j - 1));
        assert(after_last(s@.take(j - 1), class) + s@.skip(j - 1) =~= after_last(
            s@.take(j as int),
            class,
        ) + s@.skip(j as int));
        j -= 1;
    }
    assert(after_last(s@.take(j as int), class) + s@.skip(j as int) =~= s@.skip(j as int));
    skip(s, j)
}

/// The characters from `from` on.
pub fn skip<'a>(s: &'a [char], from: usize) -> (rest: &'a [char])
    requires
        from <= s@.len(),
    ensures
        rest@ == s@.skip(from as int),
{
    assert(s@.subrange(from as int, s@.len() as int) =~= s@.skip(from as int));
    slice_subrange(s, from, s.len())
}

/// The first `to` characters.
pub fn take<'a>(s: &'a [char], to: usize) -> (part: &'a [char])
    requires
        to <= s@.len(),
    ensures
        part@ == s@.take(to as int),
{
    assert(s@.subrange(0, to as int) =~= s@.take(to as int));
    slice_subrange(s, 0, to)
}

/// Whether `s` begins with `prefix`.
pub fn starts_with(s: &[char], prefix: &str) -> (found: bool)
    ensures
        found == begins_with(s@, prefix@),
{
    let p = chars_of(prefix);
    if p.len() > s.len() {
        return false;
    }
    let mut i: usize = 0;
    while i < p.len()
        invariant
            i <= p@.len() <= s@.len(),
            p@ == prefix@,
            forall|j: int| 0 <= j < i ==> s@[j] == #[trigger] p@[j],
        decreases p@.len() - i,
    {
        if s[i] != p[i] {
            assert(s@.take(p@.len() as int)[i as int] != p@[i as int]);
            return false;
        }
        i += 1;
    }
    assert(s@.take(p@.len() as int) =~= p@);
    true
}

/// Whether `s` ends with `suffix`.
pub fn ends_with(s: &[char], suffix: &str) -> (found: bool)
    ensures
        found == finishes_with(s@, suffix@),
{
    let len = suffix.unicode_len();
    if len > s.len() {
        return false;
    }
    equals(skip(s, s.len() - len), suffix)
}

/// Whether `s` is the text `other`.
pub fn equals(s: &[char], other: &str) -> (same: bool)
    ensures
        same == (s@ == other@),
{
    let same_start = starts_with(s, other);
    let other_len = other.unicode_len();
    proof {
        if same_start && s@.len() == other@.len() {
            assert(s@.take(other@.len() as int) =~= s@);
        }
        if s@ == other@ {
            assert(s@.take(other@.len() as int) =~= s@);
        }
    }
    same_start && s.len() == other_len
}

} // verus!
