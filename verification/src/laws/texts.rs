//! What stripping, splitting, joining and writing numbers do to a text, stated by how the text is
//! put together.

use crate::hash;
use crate::lines;
use crate::numerals;
use crate::text;
use crate::text::CharClass;
use vstd::prelude::*;

verus! {

/// Whether every character of a text is in the class.
pub open spec fn is_all(s: Seq<char>, class: CharClass) -> bool {
    forall|i: int| 0 <= i < s.len() ==> class.has(#[trigger] s[i])
}

/// Whether a text neither starts nor ends in the class.
pub open spec fn is_bare(s: Seq<char>, class: CharClass) -> bool {
    s.len() > 0 ==> !class.has(s[0]) && !class.has(s.last())
}

/// What each class of characters holds.
pub proof fn law_character_classes(c: char, d: char)
    ensures
        CharClass::White.has(c) == text::is_white(c),
        CharClass::Is(d).has(c) == (c == d),
        CharClass::NameBreak.has(c) == (text::is_white(c) || seq!['=', ':', ';'].contains(c)),
        CharClass::TagBreak.has(c) == (text::is_white(c) || seq!['>', '/'].contains(c)),
        CharClass::PathBreak.has(c) == seq!['/', '\\'].contains(c),
        CharClass::NonAscii.has(c) == (c as int >= 0x80),
{
    let names = seq!['=', ':', ';'];
    assert(names[0] == '=' && names[1] == ':' && names[2] == ';');
    let tags = seq!['>', '/'];
    assert(tags[0] == '>' && tags[1] == '/');
    let paths = seq!['/', '\\'];
    assert(paths[0] == '/' && paths[1] == '\\');
}

/// Stripping the start of a text takes off the characters in the class there, and nothing else.
pub proof fn law_strip_start(run: Seq<char>, rest: Seq<char>, class: CharClass)
    requires
        is_all(run, class),
        rest.len() > 0 ==> !class.has(rest[0]),
    ensures
        text::trimmed_start(run + rest, class) == rest,
    decreases run.len(),
{
    let s = run + rest;
    if run.len() > 0 {
        assert(s[0] == run[0]);
        assert(s.drop_first() =~= run.drop_first() + rest);
        assert forall|i: int| 0 <= i < run.drop_first().len() implies class.has(
            #[trigger] run.drop_first()[i],
        ) by {
            assert(run.drop_first()[i] == run[i + 1]);
        }
        law_strip_start(run.drop_first(), rest, class);
    } else {
        assert(s =~= rest);
    }
}

/// Stripping the end of a text takes off the characters in the class there, and nothing else.
pub proof fn law_strip_end(rest: Seq<char>, run: Seq<char>, class: CharClass)
    requires
        is_all(run, class),
        rest.len() > 0 ==> !class.has(rest.last()),
    ensures
        text::trimmed_end(rest + run, class) == rest,
    decreases run.len(),
{
    let s = rest + run;
    if run.len() > 0 {
        assert(s.last() == run[run.len() - 1]);
        assert(s.drop_last() =~= rest + run.drop_last());
        law_strip_end(rest, run.drop_last(), class);
    } else {
        assert(s =~= rest);
    }
}

/// Stripping both ends of a text takes off the characters in the class there, and nothing else.
pub proof fn law_strip(before: Seq<char>, inner: Seq<char>, after: Seq<char>, class: CharClass)
    requires
        is_all(before, class),
        is_all(after, class),
        is_bare(inner, class),
    ensures
        text::trimmed_matches(before + inner + after, class) == inner,
{
    let s = before + inner + after;
    if inner.len() > 0 {
        assert(s =~= before + (inner + after));
        law_strip_start(before, inner + after, class);
        law_strip_end(inner, after, class);
    } else {
        let run = before + after;
        assert forall|i: int| 0 <= i < run.len() implies class.has(#[trigger] run[i]) by {
            if i < before.len() {
                assert(run[i] == before[i]);
            } else {
                assert(run[i] == after[i - before.len()]);
            }
        }
        assert(s =~= run + inner);
        law_strip_start(run, inner, class);
        assert(inner + Seq::<char>::empty() =~= inner);
        law_strip_end(inner, Seq::empty(), class);
    }
}

/// A text begins with a prefix just where it is that prefix with something after it, and it ends
/// with a suffix just where it is that suffix with something before it.
pub proof fn law_prefix_and_suffix(s: Seq<char>, part: Seq<char>)
    ensures
        text::begins_with(s, part) == (exists|rest: Seq<char>| s == #[trigger] (part + rest)),
        text::finishes_with(s, part) == (exists|rest: Seq<char>| s == #[trigger] (rest + part)),
{
    if text::begins_with(s, part) {
        assert(s =~= part + s.skip(part.len() as int));
    }
    if exists|rest: Seq<char>| s == #[trigger] (part + rest) {
        assert(s.take(part.len() as int) =~= part);
    }
    if text::finishes_with(s, part) {
        assert(s =~= s.take(s.len() - part.len()) + part);
    }
    if exists|rest: Seq<char>| s == #[trigger] (rest + part) {
        assert(s.skip(s.len() - part.len()) =~= part);
    }
}

/// The characters that are white space, one by one.
pub proof fn law_white_space(c: char)
    ensures
        text::is_white(c) == seq![
            0x9int, 0xa, 0xb, 0xc, 0xd, 0x20, 0x85, 0xa0, 0x1680, 0x2000, 0x2001, 0x2002, 0x2003,
            0x2004, 0x2005, 0x2006, 0x2007, 0x2008, 0x2009, 0x200a, 0x2028, 0x2029, 0x202f,
            0x205f, 0x3000,
        ].contains(c as int),
{
    let all = seq![
        0x9int, 0xa, 0xb, 0xc, 0xd, 0x20, 0x85, 0xa0, 0x1680, 0x2000, 0x2001, 0x2002, 0x2003,
        0x2004, 0x2005, 0x2006, 0x2007, 0x2008, 0x2009, 0x200a, 0x2028, 0x2029, 0x202f, 0x205f,
        0x3000,
    ];
    if text::is_white(c) {
        let k: int = if c <= '\u{d}' {
            c as int - 9
        } else if c == '\u{20}' {
            5
        } else if c == '\u{85}' {
            6
        } else if c == '\u{a0}' {
            7
        } else if c == '\u{1680}' {
            8
        } else if c <= '\u{200a}' {
            c as int - 0x2000 + 9
        } else if c == '\u{2028}' {
            20
        } else if c == '\u{2029}' {
            21
        } else if c == '\u{202f}' {
            22
        } else if c == '\u{205f}' {
            23
        } else {
            24
        };
        assert(all[k] == c as int);
    }
}

/// In lower case an ASCII text has as many characters: each letter from `A` to `Z` is the small one,
/// and every other character is kept.
pub proof fn law_ascii_lower_case(s: Seq<char>, i: int)
    requires
        vstd::utf8::is_ascii_chars(s),
        0 <= i < s.len(),
    ensures
        text::lowercase(s).len() == s.len(),
        text::lowercase(s)[i] as int == (if 'A' <= s[i] <= 'Z' {
            s[i] as int - 'A' as int + 'a' as int
        } else {
            s[i] as int
        }),
{
}

/// A line feed ends a line, which keeps all its characters unless the last is a carriage return.
pub proof fn law_line_feed_ends_line(line: Seq<char>, rest: Seq<char>)
    requires
        !line.contains('\n'),
        line.len() > 0 ==> line.last() != '\r',
    ensures
        lines::lines(line + "\n"@ + rest) == seq![line] + lines::lines(rest),
{
    lines::lemma_lines_of_first(line, rest);
}

/// A carriage return and a line feed end a line, and neither is part of it.
pub proof fn law_return_and_feed_end_line(line: Seq<char>, rest: Seq<char>)
    requires
        !line.contains('\n'),
    ensures
        lines::lines(line + "\r\n"@ + rest) == seq![line] + lines::lines(rest),
{
    reveal_strlit("\r\n");
    reveal_strlit("\n");
    let returned = line.push('\r');
    assert(!returned.contains('\n')) by {
        if returned.contains('\n') {
            let i = choose|i: int| 0 <= i < returned.len() && returned[i] == '\n';
            assert(line[i] == '\n');
        }
    }
    assert(line + "\r\n"@ + rest =~= returned + "\n"@ + rest);
    lines::lemma_lines_of_first(returned, rest);
    assert(returned.drop_last() =~= line);
}

/// A text without a line feed is one line, all of it; an empty text has none.
pub proof fn law_last_line(line: Seq<char>)
    requires
        !line.contains('\n'),
    ensures
        lines::lines(line) == (if line.len() > 0 {
            seq![line]
        } else {
            Seq::empty()
        }),
{
    text::lemma_first_index(line, CharClass::Is('\n'));
    let end = text::first_index(line, CharClass::Is('\n')) as int;
    if end < line.len() {
        assert(line.contains(line[end]));
    }
}

/// The lines of a text that ends in a line feed, and of another after it, are the lines of both.
pub proof fn law_lines_concat(a: Seq<char>, b: Seq<char>)
    requires
        a.len() > 0 ==> a.last() == '\n',
    ensures
        lines::lines(a + b) == lines::lines(a) + lines::lines(b),
    decreases a.len(),
{
    reveal_strlit("\n");
    if a.len() > 0 {
        let newline = CharClass::Is('\n');
        let end = text::first_index(a, newline) as int;
        text::lemma_first_index(a, newline);
        assert(end < a.len()) by {
            assert(newline.has(a[a.len() - 1]));
        }
        let line = a.take(end);
        let rest = a.skip(end + 1);
        assert(!line.contains('\n')) by {
            if line.contains('\n') {
                let i = choose|i: int| 0 <= i < line.len() && line[i] == '\n';
                assert(newline.has(a[i]));
            }
        }
        assert(a =~= line + "\n"@ + rest);
        assert(a + b =~= line + "\n"@ + (rest + b));
        lines::lemma_lines_of_first(line, rest);
        lines::lemma_lines_of_first(line, rest + b);
        if rest.len() > 0 {
            assert(rest.last() == a.last());
        }
        law_lines_concat(rest, b);
        assert(lines::lines(a + b) =~= lines::lines(a) + lines::lines(b));
    } else {
        assert(a + b =~= b);
        assert(lines::lines(a) + lines::lines(b) =~= lines::lines(b));
    }
}

/// White space ends a word, which keeps all its characters.
pub proof fn law_space_ends_word(word: Seq<char>, space: char, rest: Seq<char>)
    requires
        word.len() > 0,
        forall|i: int| 0 <= i < word.len() ==> !text::is_white(#[trigger] word[i]),
        text::is_white(space),
    ensures
        lines::words(word.push(space) + rest) == seq![word] + lines::words(rest),
        lines::words(word) == seq![word],
        lines::words(seq![space] + rest) == lines::words(rest),
        lines::words(Seq::<char>::empty()).len() == 0,
{
    let white = CharClass::White;
    let s = word.push(space) + rest;
    assert forall|i: int| 0 <= i < word.len() implies !white.has(#[trigger] s[i]) by {
        assert(s[i] == word[i]);
    }
    assert(s[word.len() as int] == space);
    text::lemma_first_index_unique(s, white, word.len() as int);
    assert(s.take(word.len() as int) =~= word);
    let t = s.skip(word.len() as int);
    assert(t =~= seq![space] + rest);
    assert(t.drop_first() =~= rest);
    assert(t[0] == space);
    assert(lines::words(t) == lines::words(rest));
    assert(s[0] == word[0]);
    assert(lines::words(s) == seq![word] + lines::words(t));
    text::lemma_first_index_unique(word, white, word.len() as int);
    assert(word.take(word.len() as int) =~= word);
    assert(word.skip(word.len() as int) =~= Seq::<char>::empty());
    assert(seq![word] + lines::words(Seq::<char>::empty()) =~= seq![word]);
}

/// Joining puts the separator between each two parts, and nothing else.
pub proof fn law_join(first: Seq<char>, others: Seq<Seq<char>>, separator: Seq<char>)
    ensures
        lines::joined(Seq::empty(), separator) == Seq::<char>::empty(),
        lines::joined(seq![first], separator) == first,
        others.len() > 0 ==> lines::joined(seq![first] + others, separator) == first + separator
            + lines::joined(others, separator),
{
    assert((seq![first] + others).drop_first() =~= others);
}

/// The number that a digit stands for.
pub open spec fn digit_value(c: char) -> int {
    if '0' <= c <= '9' {
        c as int - '0' as int
    } else {
        c as int - 'a' as int + 10
    }
}

/// The number that a numeral stands for.
pub open spec fn numeral_value(s: Seq<char>, base: int) -> int
    decreases s.len(),
{
    if s.len() == 0 {
        0
    } else {
        numeral_value(s.drop_last(), base) * base + digit_value(s.last())
    }
}

proof fn lemma_digit_value(d: nat)
    requires
        d < 16,
    ensures
        digit_value(numerals::digit_char(d)) == d,
{
    reveal_strlit("0123456789abcdef");
}

/// A decimal numeral stands for its number, and does not start with a zero unless it is one.
pub proof fn law_decimal_reads_back(n: nat)
    ensures
        numeral_value(numerals::decimal(n), 10) == n,
        n > 0 ==> numerals::decimal(n)[0] != '0',
    decreases n,
{
    lemma_digit_value(n % 10);
    numerals::lemma_decimal_digits(n / 10);
    if n >= 10 {
        law_decimal_reads_back(n / 10);
        assert(numerals::decimal(n).drop_last() =~= numerals::decimal(n / 10));
    } else {
        reveal_with_fuel(numeral_value, 2);
        assert(numerals::decimal(n).drop_last() =~= Seq::empty());
    }
}

proof fn lemma_hex_value(n: nat, width: nat)
    requires
        n < numerals::hex_range(width),
    ensures
        numeral_value(numerals::hex(n, width), 16) == n,
    decreases width,
{
    if width > 0 {
        lemma_digit_value(n % 16);
        lemma_hex_value(n / 16, (width - 1) as nat);
        assert(numerals::hex(n, width).drop_last() =~= numerals::hex(
            n / 16,
            (width - 1) as nat,
        ));
    }
}

/// The hash of a text stands, in hexadecimal, for the djb2 hash of all its UTF-8 bytes.
pub proof fn law_hash_reads_back(s: Seq<char>)
    ensures
        numeral_value(hash::text_hash(s), 16) == hash::djb2(vstd::utf8::encode_utf8(s)),
{
    let bytes = vstd::utf8::encode_utf8(s);
    assert(numerals::hex_range(16) == 0x1_0000_0000_0000_0000) by {
        reveal_with_fuel(numerals::hex_range, 17);
    }
    assert(hash::djb2(bytes) < 0x1_0000_0000_0000_0000);
    lemma_hex_value(hash::djb2(bytes), 16);
}

/// Each further byte multiplies the hash by 33 and is added, modulo two to the power of
/// sixty-four; the hash of nothing is 5381.
pub proof fn law_djb2_step(bytes: Seq<u8>, byte: u8)
    ensures
        hash::djb2(Seq::empty()) == 5381,
        hash::djb2(bytes.push(byte)) == (33 * hash::djb2(bytes) + byte)
            % 0x1_0000_0000_0000_0000,
{
    assert(bytes.push(byte).drop_last() =~= bytes);
}

} // verus!
