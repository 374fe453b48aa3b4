//! What the lines of the template give, stated by how a line is put together.

use crate::laws::labels;
use crate::laws::statements;
use crate::laws::texts;
use crate::lines;
use crate::node;
use crate::template;
use crate::text;
use crate::text::CharClass;
use vstd::prelude::*;

verus! {

/// What stands between runs of one character starts and ends outside another class with the whole.
proof fn lemma_between(
    before: Seq<char>,
    inner: Seq<char>,
    after: Seq<char>,
    c: char,
    other: CharClass,
)
    requires
        texts::is_all(before, CharClass::Is(c)),
        texts::is_all(after, CharClass::Is(c)),
        texts::is_bare(inner, other),
        !other.has(c),
    ensures
        texts::is_bare(before + inner + after, other),
{
    let whole = before + inner + after;
    if whole.len() > 0 {
        if before.len() > 0 {
            assert(whole[0] == before[0]);
        } else if inner.len() > 0 {
            assert(whole[0] == inner[0]);
        } else {
            assert(whole[0] == after[0]);
        }
        if after.len() > 0 {
            assert(whole.last() == after[after.len() - 1]);
        } else if inner.len() > 0 {
            assert(whole.last() == inner.last());
        } else {
            assert(whole.last() == before[before.len() - 1]);
        }
    }
}

/// A text without white space at either end is what trimming leaves of it.
proof fn lemma_trimmed_bare(s: Seq<char>)
    requires
        texts::is_bare(s, CharClass::White),
    ensures
        text::trimmed(s) == s,
{
    let none = Seq::<char>::empty();
    assert(none + s + none =~= s);
    texts::law_strip(none, s, none, CharClass::White);
}

/// Whether a text is not empty and holds neither white space nor `=`.
pub open spec fn is_attribute_name(name: Seq<char>) -> bool {
    name.len() > 0 && labels::holds_none(name, CharClass::White) && !name.contains('=')
}

/// Whether a text neither starts nor ends with a quote or a brace.
pub open spec fn is_unwrapped(value: Seq<char>) -> bool {
    &&& texts::is_bare(value, CharClass::Is('"'))
    &&& texts::is_bare(value, CharClass::Is('\''))
    &&& texts::is_bare(value, CharClass::Is('{'))
    &&& texts::is_bare(value, CharClass::Is('}'))
}

/// Whether slashes and then closing brackets, as at the end of a tag, can be told from `core`
/// before them.
pub open spec fn ends_before_tag_end(core: Seq<char>, slashes: Seq<char>) -> bool {
    core.len() > 0 && core.last() != '/' && (slashes.len() == 0 ==> core.last() != '>')
}

/// The slashes and brackets at the end of a word are left out of account.
proof fn lemma_tag_end(core: Seq<char>, slashes: Seq<char>, brackets: Seq<char>)
    requires
        texts::is_bare(core, CharClass::White),
        ends_before_tag_end(core, slashes),
        texts::is_all(slashes, CharClass::Is('/')),
        texts::is_all(brackets, CharClass::Is('>')),
    ensures
        ({
            let open_end = text::trimmed_end(
                text::trimmed(core + slashes + brackets),
                CharClass::Is('>'),
            );
            text::trimmed(text::trimmed_end(open_end, CharClass::Is('/'))) == core
        }),
{
    let word = core + slashes + brackets;
    assert(word[0] == core[0]);
    if brackets.len() > 0 {
        assert(word.last() == brackets[brackets.len() - 1]);
    } else if slashes.len() > 0 {
        assert(word.last() == slashes[slashes.len() - 1]);
    } else {
        assert(word.last() == core.last());
    }
    lemma_trimmed_bare(word);
    let ended = core + slashes;
    if slashes.len() > 0 {
        assert(ended.last() == slashes[slashes.len() - 1]);
    } else {
        assert(ended.last() == core.last());
    }
    texts::law_strip_end(ended, brackets, CharClass::Is('>'));
    texts::law_strip_end(core, slashes, CharClass::Is('/'));
    lemma_trimmed_bare(core);
}

/// The label of an attribute with a value is the name, `=` and the value, character for character;
/// only the quotes and braces around the value are left out, and the end of the tag behind it.
/// Double quotes stand outside single quotes, these outside opening braces, and those outside
/// closing braces.
pub proof fn law_attribute_with_value(
    name: Seq<char>,
    doubles: (Seq<char>, Seq<char>),
    singles: (Seq<char>, Seq<char>),
    openings: (Seq<char>, Seq<char>),
    closings: (Seq<char>, Seq<char>),
    value: Seq<char>,
    slashes: Seq<char>,
    brackets: Seq<char>,
)
    requires
        is_attribute_name(name),
        texts::is_all(doubles.0, CharClass::Is('"')) && texts::is_all(
            doubles.1,
            CharClass::Is('"'),
        ),
        texts::is_all(singles.0, CharClass::Is('\'')) && texts::is_all(
            singles.1,
            CharClass::Is('\''),
        ),
        texts::is_all(openings.0, CharClass::Is('{')) && texts::is_all(
            openings.1,
            CharClass::Is('{'),
        ),
        texts::is_all(closings.0, CharClass::Is('}')) && texts::is_all(
            closings.1,
            CharClass::Is('}'),
        ),
        texts::is_all(slashes, CharClass::Is('/')),
        texts::is_all(brackets, CharClass::Is('>')),
        is_unwrapped(value),
        texts::is_bare(value, CharClass::White),
        ends_before_tag_end(
            doubles.0 + (singles.0 + (openings.0 + (closings.0 + value + closings.1) + openings.1)
                + singles.1) + doubles.1,
            slashes,
        ),
    ensures
        ({
            let wrapped = doubles.0 + (singles.0 + (openings.0 + (closings.0 + value + closings.1)
                + openings.1) + singles.1) + doubles.1;
            template::attr_label(name + "="@ + wrapped + slashes + brackets) == Some(
                name + "="@ + value,
            )
        }),
{
    reveal_strlit("=");
    let white = CharClass::White;
    let double = CharClass::Is('"');
    let single = CharClass::Is('\'');
    let opening = CharClass::Is('{');
    let closing = CharClass::Is('}');
    let braced = closings.0 + value + closings.1;
    lemma_between(closings.0, value, closings.1, '}', white);
    lemma_between(closings.0, value, closings.1, '}', double);
    lemma_between(closings.0, value, closings.1, '}', single);
    lemma_between(closings.0, value, closings.1, '}', opening);
    let opened = openings.0 + braced + openings.1;
    lemma_between(openings.0, braced, openings.1, '{', white);
    lemma_between(openings.0, braced, openings.1, '{', double);
    lemma_between(openings.0, braced, openings.1, '{', single);
    let quoted = singles.0 + opened + singles.1;
    lemma_between(singles.0, opened, singles.1, '\'', white);
    lemma_between(singles.0, opened, singles.1, '\'', double);
    let wrapped = doubles.0 + quoted + doubles.1;
    lemma_between(doubles.0, quoted, doubles.1, '"', white);
    let core = name + "="@ + wrapped;
    assert(core[0] == name[0]);
    assert(core.last() == wrapped.last());
    lemma_tag_end(core, slashes, brackets);
    let equals = CharClass::Is('=');
    assert forall|i: int| 0 <= i < name.len() implies !equals.has(#[trigger] core[i]) by {
        assert(core[i] == name[i]);
        assert(name.contains(name[i]));
    }
    assert(core[name.len() as int] == '=');
    text::lemma_first_index_unique(core, equals, name.len() as int);
    assert(core.take(name.len() as int) =~= name);
    assert(core.skip(name.len() as int + 1) =~= wrapped);
    lemma_trimmed_bare(name);
    lemma_trimmed_bare(wrapped);
    texts::law_strip(doubles.0, quoted, doubles.1, double);
    texts::law_strip(singles.0, opened, singles.1, single);
    texts::law_strip(openings.0, braced, openings.1, opening);
    texts::law_strip(closings.0, value, closings.1, closing);
}

/// The label of an attribute whose value stands in double quotes, in single quotes or in braces is
/// the name, `=` and the value, character for character.
pub proof fn law_wrapped_attribute(name: Seq<char>, value: Seq<char>)
    requires
        is_attribute_name(name),
        labels::holds_none(value, CharClass::White),
        is_unwrapped(value),
    ensures
        template::attr_label(name + "=\""@ + value + "\""@) == Some(name + "="@ + value),
        template::attr_label(name + "='"@ + value + "'"@) == Some(name + "="@ + value),
        template::attr_label(name + "={"@ + value + "}"@) == Some(name + "="@ + value),
{
    reveal_strlit("=");
    reveal_strlit("=\"");
    reveal_strlit("='");
    reveal_strlit("={");
    reveal_strlit("\"");
    reveal_strlit("'");
    reveal_strlit("}");
    let n = Seq::<char>::empty();
    let doubles = (seq!['"'], seq!['"']);
    let singles = (seq!['\''], seq!['\'']);
    let openings = (seq!['{'], n);
    let closings = (n, seq!['}']);
    let none = (n, n);
    let in_doubles = seq!['"'] + (n + (n + (n + value + n) + n) + n) + seq!['"'];
    assert(name + "=\""@ + value + "\""@ =~= name + "="@ + in_doubles + n + n);
    assert(in_doubles.last() == '"');
    law_attribute_with_value(name, doubles, none, none, none, value, n, n);
    let in_singles = n + (seq!['\''] + (n + (n + value + n) + n) + seq!['\'']) + n;
    assert(name + "='"@ + value + "'"@ =~= name + "="@ + in_singles + n + n);
    assert(in_singles.last() == '\'');
    law_attribute_with_value(name, none, singles, none, none, value, n, n);
    let in_braces = n + (n + (seq!['{'] + (n + value + seq!['}']) + n) + n) + n;
    assert(name + "={"@ + value + "}"@ =~= name + "="@ + in_braces + n + n);
    assert(in_braces.last() == '}');
    law_attribute_with_value(name, none, none, openings, closings, value, n, n);
}

/// The label of an attribute without a value is its name, whole, whether or not `=` follows it.
pub proof fn law_attribute_without_value(name: Seq<char>, slashes: Seq<char>, brackets: Seq<char>)
    requires
        is_attribute_name(name),
        texts::is_all(slashes, CharClass::Is('/')),
        texts::is_all(brackets, CharClass::Is('>')),
    ensures
        ends_before_tag_end(name, slashes) ==> template::attr_label(name + slashes + brackets)
            == Some(name),
        template::attr_label(name + "="@ + slashes + brackets) == Some(name),
{
    reveal_strlit("=");
    let equals = CharClass::Is('=');
    let assigned = name + "="@;
    assert forall|i: int| 0 <= i < name.len() implies !equals.has(#[trigger] assigned[i])
        && !equals.has(name[i]) by {
        assert(assigned[i] == name[i]);
        assert(name.contains(name[i]));
    }
    assert(assigned[name.len() as int] == '=');
    assert(assigned[0] == name[0]);
    lemma_trimmed_bare(name);
    text::lemma_first_index_unique(assigned, equals, name.len() as int);
    assert(assigned.take(name.len() as int) =~= name);
    lemma_tag_end(assigned, slashes, brackets);
    if ends_before_tag_end(name, slashes) {
        assert forall|i: int| 0 <= i < name.len() implies !equals.has(#[trigger] name[i]) by {
            assert(name.contains(name[i]));
        }
        text::lemma_first_index_unique(name, equals, name.len() as int);
        assert(name.take(name.len() as int) =~= name);
        lemma_tag_end(name, slashes, brackets);
    }
}

/// A word that starts with `=`, or that is the end of a tag alone, writes no attribute.
pub proof fn law_word_without_name(value: Seq<char>, slashes: Seq<char>, brackets: Seq<char>)
    requires
        labels::holds_none(value, CharClass::White),
        texts::is_all(slashes, CharClass::Is('/')),
        texts::is_all(brackets, CharClass::Is('>')),
    ensures
        template::attr_label("="@ + value) is None,
        template::attr_label(slashes + brackets) is None,
{
    reveal_strlit("=");
    let white = CharClass::White;
    let none = Seq::<char>::empty();
    let word = "="@ + value;
    let tag_end = slashes + brackets;
    lemma_trimmed_bare(none);
    // The end of a tag.
    if tag_end.len() > 0 {
        if slashes.len() > 0 {
            assert(tag_end[0] == slashes[0]);
        } else {
            assert(tag_end[0] == brackets[0]);
        }
        if brackets.len() > 0 {
            assert(tag_end.last() == brackets[brackets.len() - 1]);
        } else {
            assert(tag_end.last() == slashes[slashes.len() - 1]);
        }
    }
    lemma_trimmed_bare(tag_end);
    if slashes.len() > 0 {
        assert(slashes.last() == slashes[slashes.len() - 1]);
    }
    texts::law_strip_end(slashes, brackets, CharClass::Is('>'));
    assert(none + slashes =~= slashes);
    texts::law_strip_end(none, slashes, CharClass::Is('/'));
    assert(none.take(text::first_index(none, CharClass::Is('=')) as int) =~= none);
    // A word that starts with `=`.
    if value.len() > 0 {
        assert(word.last() == value.last());
    }
    lemma_trimmed_bare(word);
    text::lemma_trimmed_end(word, CharClass::Is('>'));
    let open_end = text::trimmed_end(word, CharClass::Is('>'));
    text::lemma_trimmed_end(open_end, CharClass::Is('/'));
    let closed = text::trimmed_end(open_end, CharClass::Is('/'));
    text::lemma_trimmed_matches(closed, white);
    let clean = text::trimmed(closed);
    if clean.len() > 0 {
        assert(closed.len() > 0);
        assert(open_end[0] == word[0]);
        assert(closed[0] == open_end[0]);
        assert(!white.has(closed.last())) by {
            let k = closed.len() - 1;
            assert(closed[k] == word[k]);
            if k > 0 {
                assert(word[k] == value[k - 1]);
            }
        }
        lemma_trimmed_bare(closed);
        text::lemma_first_index_unique(clean, CharClass::Is('='), 0);
    } else {
        text::lemma_first_index(clean, CharClass::Is('='));
    }
    assert(clean.take(text::first_index(clean, CharClass::Is('=')) as int) =~= none);
}

/// The labels of two groups of words are those of the one and then those of the other.
proof fn lemma_attr_labels_concat(a: Seq<Seq<char>>, b: Seq<Seq<char>>)
    ensures
        template::attr_labels_of(a + b) == template::attr_labels_of(a) + template::attr_labels_of(
            b,
        ),
    decreases b.len(),
{
    if b.len() > 0 {
        assert((a + b).drop_last() =~= a + b.drop_last());
        assert((a + b).last() == b.last());
        lemma_attr_labels_concat(a, b.drop_last());
        assert(template::attr_labels_of(a + b) =~= template::attr_labels_of(a)
            + template::attr_labels_of(b));
    } else {
        assert(a + b =~= a);
        assert(template::attr_labels_of(a) + template::attr_labels_of(b)
            =~= template::attr_labels_of(a));
    }
}

/// Each word of the attributes gives its label, if it has one, in the order of the words; the
/// white space between them gives nothing.
pub proof fn law_attributes_word_by_word(word: Seq<char>, space: char, rest: Seq<char>)
    requires
        word.len() > 0,
        labels::holds_none(word, CharClass::White),
        text::is_white(space),
    ensures
        template::attr_labels(Seq::empty()).len() == 0,
        template::attr_labels(seq![space] + rest) == template::attr_labels(rest),
        template::attr_label(word) matches Some(label) ==> template::attr_labels(
            word.push(space) + rest,
        ) == seq![label] + template::attr_labels(rest) && template::attr_labels(word)
            == seq![label],
        template::attr_label(word) is None ==> template::attr_labels(word.push(space) + rest)
            == template::attr_labels(rest) && template::attr_labels(word).len() == 0,
{
    assert forall|i: int| 0 <= i < word.len() implies !text::is_white(#[trigger] word[i]) by {
        assert(!CharClass::White.has(word[i]));
    }
    texts::law_space_ends_word(word, space, rest);
    lemma_attr_labels_concat(seq![word], lines::words(rest));
    assert(seq![word].drop_last() =~= Seq::empty());
    assert(seq![word].last() == word);
    reveal_with_fuel(template::attr_labels_of, 2);
    let first = template::attr_labels_of(seq![word]);
    match template::attr_label(word) {
        Some(label) => {
            assert(first =~= seq![label]);
        },
        None => {
            assert(first =~= Seq::empty());
            assert(first + template::attr_labels(rest) =~= template::attr_labels(rest));
        },
    }
}

/// Whether a text can be the name of a tag: it is not empty, holds no white space, `>` or `/`, and
/// does not start with `!`.
pub open spec fn is_tag_name(name: Seq<char>) -> bool {
    &&& name.len() > 0
    &&& labels::holds_none(name, CharClass::White)
    &&& !name.contains('>')
    &&& !name.contains('/')
    &&& name[0] != '!'
}

/// The text between the brackets of a tag opens an element with that name, in lower case, and with
/// the attributes behind it, whole: only the white space around both and the slashes at the end of
/// the tag are left out.
pub proof fn law_opened_tag(
    before: Seq<char>,
    name: Seq<char>,
    space: Seq<char>,
    attrs: Seq<char>,
    gap: Seq<char>,
    slashes: Seq<char>,
    after: Seq<char>,
)
    requires
        texts::is_all(before, CharClass::White),
        is_tag_name(name),
        texts::is_all(space, CharClass::White),
        texts::is_bare(attrs, CharClass::White),
        attrs.len() > 0 ==> space.len() > 0 || attrs[0] == '/' || attrs[0] == '>',
        attrs.len() > 0 && attrs.last() == '/' ==> gap.len() > 0,
        texts::is_all(gap, CharClass::White),
        attrs.len() == 0 || slashes.len() == 0 ==> gap.len() == 0,
        texts::is_all(slashes, CharClass::Is('/')),
        texts::is_all(after, CharClass::White),
    ensures
        template::opened_tag(before + (name + space + attrs + gap + slashes) + after) == Some(
            (text::lowercase(name), attrs),
        ),
{
    let white = CharClass::White;
    let none = Seq::<char>::empty();
    let segment = before + (name + space + attrs + gap + slashes) + after;
    let tail = attrs + gap + slashes;
    let inner = text::trimmed(segment);
    if tail.len() > 0 {
        let whole = name + space + tail;
        assert(whole[0] == name[0]);
        if slashes.len() > 0 {
            assert(whole.last() == slashes[slashes.len() - 1]);
            assert(tail.last() == slashes[slashes.len() - 1]);
        } else {
            assert(whole.last() == attrs.last());
            assert(tail.last() == attrs.last());
        }
        assert(segment =~= before + whole + after);
        texts::law_strip(before, whole, after, white);
        assert(inner == whole);
        assert forall|i: int| 0 <= i < name.len() implies !CharClass::TagBreak.has(
            #[trigger] whole[i],
        ) by {
            assert(whole[i] == name[i]);
            assert(name.contains(name[i]));
            assert(!white.has(name[i]));
        }
        if attrs.len() > 0 {
            assert(tail[0] == attrs[0]);
        } else {
            assert(tail[0] == slashes[0]);
        }
        if space.len() > 0 {
            assert(whole[name.len() as int] == space[0]);
        } else {
            assert(whole[name.len() as int] == tail[0]);
        }
        text::lemma_first_index_unique(whole, CharClass::TagBreak, name.len() as int);
        assert(whole.take(name.len() as int) =~= name);
        assert(whole.skip(name.len() as int) =~= space + tail + none);
        texts::law_strip(space, tail, none, white);
        let open = attrs + gap;
        if open.len() > 0 {
            if gap.len() > 0 {
                assert(open.last() == gap[gap.len() - 1]);
            } else {
                assert(open.last() == attrs.last());
            }
        }
        texts::law_strip_end(open, slashes, CharClass::Is('/'));
        assert(none + attrs + gap =~= open);
        texts::law_strip(none, attrs, gap, white);
    } else {
        let end = space + after;
        assert forall|i: int| 0 <= i < end.len() implies white.has(#[trigger] end[i]) by {
            if i < space.len() {
                assert(end[i] == space[i]);
            } else {
                assert(end[i] == after[i - space.len()]);
            }
        }
        assert(segment =~= before + name + end);
        texts::law_strip(before, name, end, white);
        assert(inner == name);
        assert forall|i: int| 0 <= i < name.len() implies !CharClass::TagBreak.has(
            #[trigger] name[i],
        ) by {
            assert(name.contains(name[i]));
            assert(!white.has(name[i]));
        }
        text::lemma_first_index_unique(name, CharClass::TagBreak, name.len() as int);
        assert(name.take(name.len() as int) =~= name);
        assert(name.skip(name.len() as int) =~= none);
        assert(none + none =~= none);
        lemma_trimmed_bare(none);
        texts::law_strip_end(none, none, CharClass::Is('/'));
        assert(attrs =~= none);
    }
    assert(name.contains(name[0]));
    lemma_trimmed_bare(name);
}

/// Whether the text between the brackets of a tag, without the white space around it, opens an
/// element: it is not empty, and neither a closing tag nor a comment or a declaration.
pub open spec fn opens_element(inner: Seq<char>) -> bool {
    inner.len() > 0 && inner[0] != '/' && inner[0] != '!' && inner[0] != '>'
}

/// The text between the brackets of a tag opens an element unless, without the white space around
/// it, it is empty or starts with `/`, `!` or `>`.
pub proof fn law_which_tags_open(before: Seq<char>, inner: Seq<char>, after: Seq<char>)
    requires
        texts::is_all(before, CharClass::White),
        texts::is_bare(inner, CharClass::White),
        texts::is_all(after, CharClass::White),
    ensures
        template::opened_tag(before + inner + after) is Some == opens_element(inner),
{
    texts::law_strip(before, inner, after, CharClass::White);
    text::lemma_first_index(inner, CharClass::TagBreak);
    let end = text::first_index(inner, CharClass::TagBreak) as int;
    let name = inner.take(end);
    text::lemma_trimmed_matches(name, CharClass::White);
    if inner.len() > 0 && (inner[0] == '>' || inner[0] == '/') {
        text::lemma_first_index_unique(inner, CharClass::TagBreak, 0);
        assert(name =~= Seq::empty());
        lemma_trimmed_bare(name);
    }
    if opens_element(inner) {
        assert(end > 0);
        assert forall|i: int| 0 <= i < name.len() implies !CharClass::White.has(
            #[trigger] name[i],
        ) by {
            assert(!CharClass::TagBreak.has(inner[i]));
        }
        lemma_trimmed_bare(name);
    }
}

/// What a line holds up to its first tag, the tag and the rest are told apart.
proof fn lemma_first_tag(start: Seq<char>, segment: Seq<char>, rest: Seq<char>)
    requires
        !start.contains('<'),
        !segment.contains('>'),
    ensures
        ({
            let line = start + "<"@ + segment + ">"@ + rest;
            let after = line.skip(start.len() as int + 1);
            &&& text::first_index(line, CharClass::Is('<')) == start.len() < line.len()
            &&& text::first_index(after, CharClass::Is('>')) == segment.len() < after.len()
            &&& after.take(segment.len() as int) == segment
            &&& after.skip(segment.len() as int + 1) == rest
        }),
{
    reveal_strlit("<");
    reveal_strlit(">");
    let line = start + "<"@ + segment + ">"@ + rest;
    let after = line.skip(start.len() as int + 1);
    assert forall|i: int| 0 <= i < start.len() implies !CharClass::Is('<').has(
        #[trigger] line[i],
    ) by {
        assert(line[i] == start[i]);
        assert(start.contains(start[i]));
    }
    assert(line[start.len() as int] == '<');
    text::lemma_first_index_unique(line, CharClass::Is('<'), start.len() as int);
    assert(after =~= segment + ">"@ + rest);
    assert forall|i: int| 0 <= i < segment.len() implies !CharClass::Is('>').has(
        #[trigger] after[i],
    ) by {
        assert(after[i] == segment[i]);
        assert(segment.contains(segment[i]));
    }
    assert(after[segment.len() as int] == '>');
    text::lemma_first_index_unique(after, CharClass::Is('>'), segment.len() as int);
    assert(after.take(segment.len() as int) =~= segment);
    assert(after.skip(segment.len() as int + 1) =~= rest);
}

/// Every tag of a line counts: the nodes of a line are the node of its first tag, if that opens an
/// element, and then those of what follows the tag, numbered from the next index or else from the
/// same one.
pub proof fn law_tag_then_rest(
    start: Seq<char>,
    segment: Seq<char>,
    rest: Seq<char>,
    parent: Seq<char>,
    index: nat,
    at: u32,
)
    requires
        !start.contains('<'),
        !segment.contains('>'),
    ensures
        ({
            let line = start + "<"@ + segment + ">"@ + rest;
            let nodes = template::elements(line, parent, index, at);
            match template::opened_tag(segment) {
                Some((tag, attrs)) => nodes == seq![
                    template::element(tag, attrs, node::child_id(parent, index), at),
                ] + template::elements(rest, parent, index + 1, at),
                None => nodes == template::elements(rest, parent, index, at),
            }
        }),
{
    lemma_first_tag(start, segment, rest);
}

/// A tag that opens nothing, such as a closing tag or a comment, has no node: the nodes of the line
/// are those of what follows it, numbered from the same index.
pub proof fn law_skipped_tag(
    start: Seq<char>,
    before: Seq<char>,
    inner: Seq<char>,
    after: Seq<char>,
    rest: Seq<char>,
    parent: Seq<char>,
    index: nat,
    at: u32,
)
    requires
        !start.contains('<'),
        texts::is_all(before, CharClass::White),
        texts::is_bare(inner, CharClass::White),
        !inner.contains('>'),
        !opens_element(inner),
        texts::is_all(after, CharClass::White),
    ensures
        template::elements(
            start + "<"@ + (before + inner + after) + ">"@ + rest,
            parent,
            index,
            at,
        ) == template::elements(rest, parent, index, at),
{
    let segment = before + inner + after;
    lemma_not_within(before, inner, after, '>');
    lemma_first_tag(start, segment, rest);
    law_which_tags_open(before, inner, after);
}

/// White space around a text adds no character that is not white space.
proof fn lemma_not_within(before: Seq<char>, inner: Seq<char>, after: Seq<char>, c: char)
    requires
        texts::is_all(before, CharClass::White),
        texts::is_all(after, CharClass::White),
        !inner.contains(c),
        !text::is_white(c),
    ensures
        !(before + inner + after).contains(c),
{
    let whole = before + inner + after;
    if whole.contains(c) {
        let i = choose|i: int| 0 <= i < whole.len() && whole[i] == c;
        if i < before.len() {
            assert(CharClass::White.has(before[i]));
        } else if i < before.len() + inner.len() {
            assert(inner[i - before.len()] == c);
        } else {
            assert(CharClass::White.has(after[i - before.len() - inner.len()]));
        }
    }
}

/// Whether the nodes are leaves of the given type with the given labels, in order, all on line
/// `at`; the first is the child of `parent` at `index`.
pub open spec fn are_leaves(
    nodes: Seq<node::Node>,
    node_type: Seq<char>,
    labels: Seq<Seq<char>>,
    parent: Seq<char>,
    index: nat,
    at: u32,
) -> bool {
    &&& nodes.len() == labels.len()
    &&& forall|i: int|
        #![trigger nodes[i]]
        0 <= i < nodes.len() ==> nodes[i].children.len() == 0 && statements::is_line_node(
            nodes[i],
            node::child_id(parent, (index + i) as nat),
            node_type,
            labels[i],
            at,
        )
}

/// A tag that opens an element has a node, labelled with its name in lower case, whose children are
/// its attributes in order; behind it come the nodes of the rest of the line, numbered from the
/// next index.
pub proof fn law_opening_tag(
    start: Seq<char>,
    before: Seq<char>,
    name: Seq<char>,
    space: Seq<char>,
    attrs: Seq<char>,
    gap: Seq<char>,
    slashes: Seq<char>,
    after: Seq<char>,
    rest: Seq<char>,
    parent: Seq<char>,
    index: nat,
    at: u32,
)
    requires
        !start.contains('<'),
        texts::is_all(before, CharClass::White),
        is_tag_name(name),
        texts::is_all(space, CharClass::White),
        texts::is_bare(attrs, CharClass::White),
        !attrs.contains('>'),
        attrs.len() > 0 ==> space.len() > 0 || attrs[0] == '/',
        attrs.len() > 0 && attrs.last() == '/' ==> gap.len() > 0,
        texts::is_all(gap, CharClass::White),
        attrs.len() == 0 || slashes.len() == 0 ==> gap.len() == 0,
        texts::is_all(slashes, CharClass::Is('/')),
        texts::is_all(after, CharClass::White),
    ensures
        ({
            let segment = before + (name + space + attrs + gap + slashes) + after;
            let nodes = template::elements(
                start + "<"@ + segment + ">"@ + rest,
                parent,
                index,
                at,
            );
            let id = node::child_id(parent, index);
            &&& nodes.len() > 0
            &&& statements::is_line_node(nodes[0], id, "element"@, text::lowercase(name), at)
            &&& are_leaves(
                nodes[0].children,
                "attribute"@,
                template::attr_labels(attrs),
                id,
                0,
                at,
            )
            &&& nodes.drop_first() == template::elements(rest, parent, index + 1, at)
        }),
{
    reveal_strlit("");
    let middle = name + space + attrs + gap + slashes;
    let segment = before + middle + after;
    if middle.contains('>') {
        let i = choose|i: int| 0 <= i < middle.len() && middle[i] == '>';
        let a = name.len() as int;
        let b = a + space.len();
        let c = b + attrs.len();
        let d = c + gap.len();
        if i < a {
            assert(name[i] == '>');
        } else if i < b {
            assert(CharClass::White.has(space[i - a]));
        } else if i < c {
            assert(attrs[i - b] == '>');
        } else if i < d {
            assert(CharClass::White.has(gap[i - c]));
        } else {
            assert(CharClass::Is('/').has(slashes[i - d]));
        }
    }
    lemma_not_within(before, middle, after, '>');
    lemma_first_tag(start, segment, rest);
    law_opened_tag(before, name, space, attrs, gap, slashes, after);
    let line = start + "<"@ + segment + ">"@ + rest;
    let nodes = template::elements(line, parent, index, at);
    let others = template::elements(rest, parent, index + 1, at);
    let id = node::child_id(parent, index);
    let first = template::element(text::lowercase(name), attrs, id, at);
    assert(nodes == seq![first] + others);
    assert(nodes.drop_first() =~= others);
}

/// A line without `<`, or with no `>` behind the first one, has no elements.
pub proof fn law_line_without_tags(
    start: Seq<char>,
    rest: Seq<char>,
    parent: Seq<char>,
    index: nat,
    at: u32,
)
    requires
        !start.contains('<'),
        !rest.contains('>'),
    ensures
        template::elements(start, parent, index, at).len() == 0,
        template::elements(start + "<"@ + rest, parent, index, at).len() == 0,
{
    reveal_strlit("<");
    let line = start + "<"@ + rest;
    assert forall|i: int| 0 <= i < start.len() implies !CharClass::Is('<').has(#[trigger] line[i])
        && !CharClass::Is('<').has(start[i]) by {
        assert(line[i] == start[i]);
        assert(start.contains(start[i]));
    }
    assert forall|i: int| 0 <= i < start.len() implies !CharClass::Is('<').has(
        #[trigger] start[i],
    ) by {
        assert(start.contains(start[i]));
    }
    text::lemma_first_index_unique(start, CharClass::Is('<'), start.len() as int);
    assert(line[start.len() as int] == '<');
    text::lemma_first_index_unique(line, CharClass::Is('<'), start.len() as int);
    let after = line.skip(start.len() as int + 1);
    assert(after =~= rest);
    assert forall|i: int| 0 <= i < rest.len() implies !CharClass::Is('>').has(
        #[trigger] rest[i],
    ) by {
        assert(rest.contains(rest[i]));
    }
    text::lemma_first_index_unique(rest, CharClass::Is('>'), rest.len() as int);
}

/// A part of a line: a text without `<`, and a tag behind it.
pub struct Part {
    pub start: Seq<char>,
    pub before: Seq<char>,
    pub inner: Seq<char>,
    pub after: Seq<char>,
}

/// Whether the tag of a part has its inner text between white space, and no bracket within.
pub open spec fn is_part(p: Part) -> bool {
    &&& !p.start.contains('<')
    &&& texts::is_all(p.before, CharClass::White)
    &&& texts::is_bare(p.inner, CharClass::White)
    &&& !p.inner.contains('>')
    &&& texts::is_all(p.after, CharClass::White)
}

/// The line made of the parts, in order, and `end`.
pub open spec fn line_of(parts: Seq<Part>, end: Seq<char>) -> Seq<char>
    decreases parts.len(),
{
    if parts.len() == 0 {
        end
    } else {
        let p = parts[0];
        p.start + "<"@ + (p.before + p.inner + p.after) + ">"@ + line_of(parts.drop_first(), end)
    }
}

/// A line has as many elements as it has tags that are neither empty nor start with `/` or `!`,
/// wherever they stand among other tags.
pub proof fn law_element_count(
    parts: Seq<Part>,
    end: Seq<char>,
    parent: Seq<char>,
    index: nat,
    at: u32,
)
    requires
        forall|i: int| 0 <= i < parts.len() ==> is_part(#[trigger] parts[i]),
        !end.contains('<') || !end.contains('>'),
    ensures
        template::elements(line_of(parts, end), parent, index, at).len() == parts.filter(
            |p: Part| p.inner.len() > 0 && p.inner[0] != '/' && p.inner[0] != '!',
        ).len(),
    decreases parts.len(),
{
    let opens = |p: Part| p.inner.len() > 0 && p.inner[0] != '/' && p.inner[0] != '!';
    reveal(Seq::filter);
    if parts.len() == 0 {
        if end.contains('<') {
            let k = text::first_index(end, CharClass::Is('<')) as int;
            text::lemma_first_index(end, CharClass::Is('<'));
            let at_open = choose|i: int| 0 <= i < end.len() && end[i] == '<';
            assert(CharClass::Is('<').has(end[at_open]));
            reveal_strlit("<");
            let start = end.take(k);
            let rest = end.skip(k + 1);
            assert(end =~= start + "<"@ + rest);
            assert(!start.contains('<')) by {
                if start.contains('<') {
                    let i = choose|i: int| 0 <= i < start.len() && start[i] == '<';
                    assert(CharClass::Is('<').has(end[i]));
                }
            }
            assert(!rest.contains('>')) by {
                if rest.contains('>') {
                    let i = choose|i: int| 0 <= i < rest.len() && rest[i] == '>';
                    assert(end[i + k + 1] == '>');
                }
            }
            law_line_without_tags(start, rest, parent, index, at);
        } else {
            law_line_without_tags(end, Seq::empty(), parent, index, at);
        }
    } else {
        let p = parts[0];
        let others = parts.drop_first();
        assert(is_part(p));
        let rest = line_of(others, end);
        assert forall|i: int| 0 <= i < others.len() implies is_part(#[trigger] others[i]) by {
            assert(others[i] == parts[i + 1]);
        }
        let segment = p.before + p.inner + p.after;
        lemma_not_within(p.before, p.inner, p.after, '>');
        lemma_first_tag(p.start, segment, rest);
        law_which_tags_open(p.before, p.inner, p.after);
        if p.inner.len() > 0 {
            assert(p.inner.contains(p.inner[0]));
        }
        assert(opens_element(p.inner) == opens(p));
        law_element_count(others, end, parent, index, at);
        law_element_count(others, end, parent, index + 1, at);
        lemma_filter_first(parts, opens);
    }
}

/// What a filter keeps of a sequence is what it keeps of the first item and of the others.
proof fn lemma_filter_first(parts: Seq<Part>, keep: spec_fn(Part) -> bool)
    requires
        parts.len() > 0,
    ensures
        parts.filter(keep).len() == parts.drop_first().filter(keep).len() + if keep(parts[0]) {
            1int
        } else {
            0int
        },
    decreases parts.len(),
{
    reveal(Seq::filter);
    reveal_with_fuel(Seq::filter, 2);
    if parts.len() > 1 {
        lemma_filter_first(parts.drop_last(), keep);
        assert(parts.drop_first().drop_last() =~= parts.drop_last().drop_first());
        assert(parts.drop_first().last() == parts.last());
    } else {
        assert(parts.drop_last() =~= Seq::empty());
        assert(parts.drop_first() =~= Seq::empty());
    }
}

/// A line up to its first brace, the text in the braces and the rest are told apart.
proof fn lemma_first_braces(start: Seq<char>, segment: Seq<char>, rest: Seq<char>)
    requires
        !start.contains('{'),
        !segment.contains('}'),
        segment.len() > 0 ==> segment[0] != '{',
    ensures
        ({
            let line = start + "{"@ + segment + "}"@ + rest;
            let label = text::trimmed(segment);
            template::brace_labels(line) == (if template::is_brace_label(label) {
                seq![label] + template::brace_labels(rest)
            } else {
                template::brace_labels(rest)
            })
        }),
{
    reveal_strlit("{");
    reveal_strlit("}");
    let line = start + "{"@ + segment + "}"@ + rest;
    let k = start.len() as int;
    assert forall|i: int| 0 <= i < k implies !CharClass::Is('{').has(#[trigger] line[i]) by {
        assert(line[i] == start[i]);
        assert(start.contains(start[i]));
    }
    assert(line[k] == '{');
    text::lemma_first_index_unique(line, CharClass::Is('{'), k);
    if segment.len() > 0 {
        assert(line[k + 1] == segment[0]);
    } else {
        assert(line[k + 1] == '}');
    }
    let after = line.skip(k + 1);
    assert(after =~= segment + "}"@ + rest);
    assert forall|i: int| 0 <= i < segment.len() implies !CharClass::Is('}').has(
        #[trigger] after[i],
    ) by {
        assert(after[i] == segment[i]);
        assert(segment.contains(segment[i]));
    }
    assert(after[segment.len() as int] == '}');
    text::lemma_first_index_unique(after, CharClass::Is('}'), segment.len() as int);
    assert(after.take(segment.len() as int) =~= segment);
    assert(after.skip(segment.len() as int + 1) =~= rest);
}

/// Whether braces around white space, `inner` and white space again stand alone: no second opening
/// brace follows the first at once, and none closes within.
pub open spec fn fits_in_braces(before: Seq<char>, inner: Seq<char>, after: Seq<char>) -> bool {
    &&& texts::is_all(before, CharClass::White)
    &&& texts::is_bare(inner, CharClass::White)
    &&& !inner.contains('}')
    &&& inner.len() > 0 && inner[0] == '{' ==> before.len() > 0
    &&& texts::is_all(after, CharClass::White)
}

/// What stands in braces is the label of an interpolation, whole, but for the white space around
/// it; behind it come the labels of the rest of the line.
pub proof fn law_interpolation(
    start: Seq<char>,
    before: Seq<char>,
    label: Seq<char>,
    after: Seq<char>,
    rest: Seq<char>,
)
    requires
        !start.contains('{'),
        fits_in_braces(before, label, after),
        label.len() > 0,
        label[0] != '#' && label[0] != '/',
    ensures
        template::brace_labels(start + "{"@ + (before + label + after) + "}"@ + rest)
            == seq![label] + template::brace_labels(rest),
{
    lemma_brace_segment(before, label, after);
    lemma_first_braces(start, before + label + after, rest);
    texts::law_strip(before, label, after, CharClass::White);
}

/// Braces with nothing but white space in them, or that open or close a block with `#` or `/`, have
/// no label: the labels of the line are those of the rest.
pub proof fn law_skipped_braces(
    start: Seq<char>,
    before: Seq<char>,
    inner: Seq<char>,
    after: Seq<char>,
    rest: Seq<char>,
)
    requires
        !start.contains('{'),
        fits_in_braces(before, inner, after),
        inner.len() == 0 || inner[0] == '#' || inner[0] == '/',
    ensures
        template::brace_labels(start + "{"@ + (before + inner + after) + "}"@ + rest)
            == template::brace_labels(rest),
{
    lemma_brace_segment(before, inner, after);
    lemma_first_braces(start, before + inner + after, rest);
    texts::law_strip(before, inner, after, CharClass::White);
}

proof fn lemma_brace_segment(before: Seq<char>, inner: Seq<char>, after: Seq<char>)
    requires
        fits_in_braces(before, inner, after),
    ensures
        ({
            let segment = before + inner + after;
            !segment.contains('}') && (segment.len() > 0 ==> segment[0] != '{')
        }),
{
    let segment = before + inner + after;
    lemma_not_within(before, inner, after, '}');
    if before.len() > 0 {
        assert(CharClass::White.has(before[0]));
        assert(segment[0] == before[0]);
    } else if inner.len() > 0 {
        assert(segment[0] == inner[0]);
    } else if after.len() > 0 {
        assert(CharClass::White.has(after[0]));
        assert(segment[0] == after[0]);
    }
}

/// Two opening braces in a row open nothing: the labels of the line are those of what follows them.
pub proof fn law_double_braces(start: Seq<char>, rest: Seq<char>)
    requires
        !start.contains('{'),
    ensures
        template::brace_labels(start + "{{"@ + rest) == template::brace_labels(rest),
{
    reveal_strlit("{{");
    let line = start + "{{"@ + rest;
    let k = start.len() as int;
    assert forall|i: int| 0 <= i < k implies !CharClass::Is('{').has(#[trigger] line[i]) by {
        assert(line[i] == start[i]);
        assert(start.contains(start[i]));
    }
    assert(line[k] == '{' && line[k + 1] == '{');
    text::lemma_first_index_unique(line, CharClass::Is('{'), k);
    assert(line.skip(k + 2) =~= rest);
}

/// A line without an opening brace, or with no closing one behind the first, has no labels.
pub proof fn law_line_without_braces(start: Seq<char>, rest: Seq<char>)
    requires
        !start.contains('{'),
        !rest.contains('}'),
        rest.len() > 0 ==> rest[0] != '{',
    ensures
        template::brace_labels(start).len() == 0,
        template::brace_labels(start + "{"@ + rest).len() == 0,
{
    reveal_strlit("{");
    let line = start + "{"@ + rest;
    let k = start.len() as int;
    assert forall|i: int| 0 <= i < k implies !CharClass::Is('{').has(#[trigger] line[i]) by {
        assert(line[i] == start[i]);
        assert(start.contains(start[i]));
    }
    assert forall|i: int| 0 <= i < k implies !CharClass::Is('{').has(#[trigger] start[i]) by {
        assert(start.contains(start[i]));
    }
    text::lemma_first_index_unique(start, CharClass::Is('{'), k);
    assert(line[k] == '{');
    text::lemma_first_index_unique(line, CharClass::Is('{'), k);
    if rest.len() > 0 {
        assert(line[k + 1] == rest[0]);
    }
    assert(line.skip(k + 1) =~= rest);
    assert forall|i: int| 0 <= i < rest.len() implies !CharClass::Is('}').has(
        #[trigger] rest[i],
    ) by {
        assert(rest.contains(rest[i]));
    }
    text::lemma_first_index_unique(rest, CharClass::Is('}'), rest.len() as int);
}

/// Each further line adds its elements, and then its interpolations, behind the nodes of the lines
/// before it. They are numbered on from how many there are already, and all stand on that line.
pub proof fn law_template_line_by_line(
    all: Seq<Seq<char>>,
    line: Seq<char>,
    start_line: u32,
    parent: Seq<char>,
)
    requires
        start_line + all.len() <= u32::MAX,
    ensures
        template::template_nodes(Seq::empty(), start_line, parent).len() == 0,
        ({
            let before = template::template_nodes(all, start_line, parent);
            let nodes = template::template_nodes(all.push(line), start_line, parent);
            let at = (start_line + all.len()) as u32;
            let opened = template::elements(line, parent, before.len(), at);
            let count = before.len() + opened.len();
            &&& nodes.len() >= count
            &&& nodes.take(count as int) == before + opened
            &&& are_leaves(
                nodes.skip(count as int),
                "interpolation"@,
                template::brace_labels(line),
                parent,
                count,
                at,
            )
        }),
{
    reveal_strlit("");
    assert(all.push(line).drop_last() =~= all);
    let at = (start_line + all.len()) as u32;
    assert(lines::line_number(start_line, all.len()) == at);
    let before = template::template_nodes(all, start_line, parent);
    let nodes = template::template_nodes(all.push(line), start_line, parent);
    let opened = template::elements(line, parent, before.len(), at);
    let count = before.len() + opened.len();
    let shown = template::leaves(
        template::brace_labels(line),
        "interpolation"@,
        parent,
        count,
        at,
    );
    assert(nodes =~= before + opened + shown);
    assert(nodes.take(count as int) =~= before + opened);
    assert(nodes.skip(count as int) =~= shown);
}

/// The nodes of each line stand together among those of the whole, numbered on from how many the
/// lines before it have.
pub proof fn law_every_line_has_nodes(
    all: Seq<Seq<char>>,
    i: int,
    start_line: u32,
    parent: Seq<char>,
)
    requires
        0 <= i < all.len(),
        start_line + all.len() <= u32::MAX,
    ensures
        ({
            let nodes = template::template_nodes(all, start_line, parent);
            let k = template::template_nodes(all.take(i), start_line, parent).len();
            let at = (start_line + i) as u32;
            let opened = template::elements(all[i], parent, k, at);
            let labels = template::brace_labels(all[i]);
            let middle = k + opened.len();
            &&& middle + labels.len() <= nodes.len()
            &&& nodes.subrange(k as int, middle as int) == opened
            &&& are_leaves(
                nodes.subrange(middle as int, (middle + labels.len()) as int),
                "interpolation"@,
                labels,
                parent,
                middle,
                at,
            )
        }),
    decreases all.len(),
{
    let last = all.len() - 1;
    let before = all.drop_last();
    let nodes = template::template_nodes(all, start_line, parent);
    let earlier = template::template_nodes(before, start_line, parent);
    let k = template::template_nodes(all.take(i), start_line, parent).len();
    let at = (start_line + i) as u32;
    let opened = template::elements(all[i], parent, k, at);
    let labels = template::brace_labels(all[i]);
    let middle = k + opened.len();
    assert(all =~= before.push(all.last()));
    law_template_line_by_line(before, all.last(), start_line, parent);
    if i < last {
        law_every_line_has_nodes(before, i, start_line, parent);
        assert(before.take(i) =~= all.take(i));
        assert(before[i] == all[i]);
        let count = (earlier.len() + template::elements(
            all.last(),
            parent,
            earlier.len(),
            (start_line + before.len()) as u32,
        ).len()) as int;
        assert forall|j: int| 0 <= j < earlier.len() implies nodes[j] == #[trigger] earlier[j] by {
            assert(nodes.take(count)[j] == nodes[j]);
        }
        assert(nodes.subrange(k as int, middle as int) =~= earlier.subrange(
            k as int,
            middle as int,
        ));
        let end = (middle + labels.len()) as int;
        assert(nodes.subrange(middle as int, end) =~= earlier.subrange(middle as int, end));
    } else {
        assert(all.take(i) =~= before);
        assert forall|j: int| k <= j < middle implies nodes[j] == #[trigger] opened[j - k] by {
            assert(nodes.take(middle as int)[j] == nodes[j]);
        }
        assert(nodes.subrange(k as int, middle as int) =~= opened);
        let end = (middle + labels.len()) as int;
        assert(nodes.subrange(middle as int, end) =~= nodes.skip(middle as int));
    }
}

} // verus!
