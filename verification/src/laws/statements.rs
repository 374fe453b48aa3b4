//! What the lines of the frontmatter give, stated by how a line is put together.

use crate::frontmatter;
use crate::laws::labels;
use crate::laws::texts;
use crate::lines;
use crate::node;
use crate::node::Node;
use crate::text;
use crate::text::CharClass;
use vstd::prelude::*;

verus! {

/// Whether `c` is an ASCII letter, `_` or `$`.
pub open spec fn is_name_start(c: char) -> bool {
    'a' <= c <= 'z' || 'A' <= c <= 'Z' || c == '_' || c == '$'
}

/// An identifier is one character that may start it, or an identifier with one more character
/// that may also be a digit or `-`.
pub proof fn law_identifier(s: Seq<char>, c: char)
    ensures
        !frontmatter::is_identifier(Seq::empty()),
        frontmatter::is_identifier(seq![c]) == is_name_start(c),
        s.len() > 0 ==> frontmatter::is_identifier(s.push(c)) == (frontmatter::is_identifier(s)
            && (is_name_start(c) || '0' <= c <= '9' || c == '-')),
{
    let longer = s.push(c);
    if s.len() > 0 {
        assert(longer[0] == s[0]);
        assert(longer[s.len() as int] == c);
        if frontmatter::is_identifier(longer) {
            assert forall|i: int| 1 <= i < s.len() implies frontmatter::continues_identifier(
                #[trigger] s[i],
            ) by {
                assert(longer[i] == s[i]);
            }
        }
    }
}

/// Normalizing a statement takes off the white space around it and the semicolons and commas at
/// its end, and nothing else. The semicolons come before the commas; what is left may end in one
/// of the two only where something else was taken off behind it first.
pub proof fn law_normalized(
    before: Seq<char>,
    inner: Seq<char>,
    gap: Seq<char>,
    semicolons: Seq<char>,
    commas: Seq<char>,
    after: Seq<char>,
)
    requires
        texts::is_all(before, CharClass::White),
        texts::is_all(gap, CharClass::White),
        texts::is_all(semicolons, CharClass::Is(';')),
        texts::is_all(commas, CharClass::Is(',')),
        texts::is_all(after, CharClass::White),
        texts::is_bare(inner, CharClass::White),
        inner.len() == 0 ==> gap.len() == 0,
        inner.len() > 0 && inner.last() == ',' ==> semicolons.len() > 0 || (gap.len() > 0
            && commas.len() > 0),
        inner.len() > 0 && inner.last() == ';' ==> gap.len() > 0 && (semicolons.len() > 0
            || commas.len() > 0),
    ensures
        frontmatter::normalized(before + inner + gap + semicolons + commas + after) == inner,
{
    let line = before + inner + gap + semicolons + commas + after;
    let white = CharClass::White;
    let none = Seq::<char>::empty();
    let ended = inner + gap + semicolons;
    let whole = ended + commas;
    let bare = text::trimmed(line);
    if semicolons.len() + commas.len() > 0 {
        if commas.len() > 0 {
            assert(whole.last() == commas[commas.len() - 1]);
        } else {
            assert(whole.last() == semicolons[semicolons.len() - 1]);
        }
        if inner.len() > 0 {
            assert(whole[0] == inner[0]);
        } else if semicolons.len() > 0 {
            assert(whole[0] == semicolons[0]);
        } else {
            assert(whole[0] == commas[0]);
        }
        assert(line =~= before + whole + after);
        texts::law_strip(before, whole, after, white);
        assert(bare == whole);
        if ended.len() > 0 {
            if semicolons.len() > 0 {
                assert(ended.last() == semicolons[semicolons.len() - 1]);
            } else if gap.len() > 0 {
                assert(ended.last() == gap[gap.len() - 1]);
            } else {
                assert(ended.last() == inner.last());
            }
        }
        texts::law_strip_end(ended, commas, CharClass::Is(','));
        let open = inner + gap;
        if open.len() > 0 {
            if gap.len() > 0 {
                assert(open.last() == gap[gap.len() - 1]);
            } else {
                assert(open.last() == inner.last());
            }
        }
        texts::law_strip_end(open, semicolons, CharClass::Is(';'));
        assert(none + inner + gap =~= open);
        texts::law_strip(none, inner, gap, white);
    } else {
        let end = gap + after;
        assert forall|i: int| 0 <= i < end.len() implies white.has(#[trigger] end[i]) by {
            if i < gap.len() {
                assert(end[i] == gap[i]);
            } else {
                assert(end[i] == after[i - gap.len()]);
            }
        }
        assert(line =~= before + inner + end);
        texts::law_strip(before, inner, end, white);
        assert(inner + none =~= inner);
        texts::law_strip_end(inner, none, CharClass::Is(','));
        texts::law_strip_end(inner, none, CharClass::Is(';'));
        assert(none + inner + none =~= inner);
        texts::law_strip(none, inner, none, white);
    }
}

/// Whether `keyword` is one that declares a variable, with the space after it.
pub open spec fn is_keyword(keyword: Seq<char>) -> bool {
    keyword == "const "@ || keyword == "let "@ || keyword == "var "@
}

/// Whether a name ends where `rest` follows it: at the end of the line, or before white space,
/// `=`, `:` or `;`.
pub open spec fn ends_name(rest: Seq<char>) -> bool {
    rest.len() > 0 ==> text::is_white(rest[0]) || rest[0] == '=' || rest[0] == ':' || rest[0] == ';'
}

/// The name and what follows it, behind a keyword, are told apart.
proof fn lemma_name_after(keyword: Seq<char>, name: Seq<char>, rest: Seq<char>)
    requires
        frontmatter::is_identifier(name),
        ends_name(rest),
    ensures
        frontmatter::name_after(keyword + name + rest, keyword) == Some(name),
{
    let line = keyword + name + rest;
    let behind = line.skip(keyword.len() as int);
    assert(behind =~= name + rest);
    assert forall|i: int| 0 <= i < name.len() implies !CharClass::NameBreak.has(
        #[trigger] behind[i],
    ) by {
        assert(behind[i] == name[i]);
        assert(i > 0 ==> frontmatter::continues_identifier(name[i]));
    }
    if rest.len() > 0 {
        assert(behind[name.len() as int] == rest[0]);
    }
    text::lemma_first_index_unique(behind, CharClass::NameBreak, name.len() as int);
    assert(behind.take(name.len() as int) =~= name);
    assert(line.take(keyword.len() as int) =~= keyword);
}

/// A keyword, an identifier and the end of the identifier declare that identifier, whole.
pub proof fn law_declared_name(keyword: Seq<char>, name: Seq<char>, rest: Seq<char>)
    requires
        is_keyword(keyword),
        frontmatter::is_identifier(name),
        ends_name(rest),
    ensures
        frontmatter::declared_name(keyword + name + rest) == Some(name),
{
    let line = keyword + name + rest;
    lemma_name_after(keyword, name, rest);
    lemma_keywords_differ(line, keyword);
}

/// A text begins with one of the keywords at most.
proof fn lemma_keywords_differ(line: Seq<char>, keyword: Seq<char>)
    requires
        is_keyword(keyword),
        text::begins_with(line, keyword),
    ensures
        keyword != "const "@ ==> !text::begins_with(line, "const "@),
        keyword != "let "@ ==> !text::begins_with(line, "let "@),
        keyword != "var "@ ==> !text::begins_with(line, "var "@),
        !text::begins_with(line, "import "@),
        line.len() > 0,
        !text::is_white(line[0]),
        line[0] == keyword[0],
{
    reveal_strlit("const ");
    reveal_strlit("let ");
    reveal_strlit("var ");
    reveal_strlit("import ");
    assert(line.take(keyword.len() as int)[0] == line[0]);
    if text::begins_with(line, "const "@) {
        assert(line.take(6)[0] == line[0]);
    }
    if text::begins_with(line, "let "@) {
        assert(line.take(4)[0] == line[0]);
    }
    if text::begins_with(line, "var "@) {
        assert(line.take(4)[0] == line[0]);
    }
    if text::begins_with(line, "import "@) {
        assert(line.take(7)[0] == line[0]);
    }
}

/// A line declares a name only where a keyword stands at its start, the name, an identifier, right
/// behind it, and the name ends there.
pub proof fn law_declared_name_stands_behind_keyword(line: Seq<char>)
    ensures
        frontmatter::declared_name(line) matches Some(name) ==> {
            &&& frontmatter::is_identifier(name)
            &&& exists|keyword: Seq<char>, rest: Seq<char>|
                is_keyword(keyword) && ends_name(rest) && line == #[trigger] (keyword + name + rest)
        },
{
    if let Some(name) = frontmatter::declared_name(line) {
        let keyword = if frontmatter::name_after(line, "const "@) is Some {
            "const "@
        } else if frontmatter::name_after(line, "let "@) is Some {
            "let "@
        } else {
            "var "@
        };
        let behind = line.skip(keyword.len() as int);
        text::lemma_first_index(behind, CharClass::NameBreak);
        let end = text::first_index(behind, CharClass::NameBreak) as int;
        let rest = behind.skip(end);
        assert(name == behind.take(end));
        assert(line.take(keyword.len() as int) == keyword);
        assert(line =~= keyword + name + rest);
        if rest.len() > 0 {
            assert(rest[0] == behind[end]);
        }
        assert(is_keyword(keyword) && ends_name(rest));
    }
}

/// What a declaration assigns is the text behind the first `=`, whole, but for the white space
/// around it and the semicolons at its end.
pub proof fn law_assigned_value(
    target: Seq<char>,
    before: Seq<char>,
    value: Seq<char>,
    gap: Seq<char>,
    semicolons: Seq<char>,
    after: Seq<char>,
)
    requires
        !target.contains('='),
        texts::is_all(before, CharClass::White),
        texts::is_all(gap, CharClass::White),
        texts::is_all(semicolons, CharClass::Is(';')),
        texts::is_all(after, CharClass::White),
        texts::is_bare(value, CharClass::White),
        value.len() == 0 ==> gap.len() == 0,
        value.len() > 0 && value.last() == ';' ==> gap.len() > 0 && semicolons.len() > 0,
    ensures
        frontmatter::assigned_value(
            target + "="@ + before + value + gap + semicolons + after,
        ) == value,
        frontmatter::assigned_value(target).len() == 0,
{
    reveal_strlit("=");
    let eq_class = CharClass::Is('=');
    let line = target + "="@ + before + value + gap + semicolons + after;
    let white = CharClass::White;
    let none = Seq::<char>::empty();
    assert forall|i: int| 0 <= i < target.len() implies !eq_class.has(#[trigger] target[i]) by {
        assert(target.contains(target[i]));
    }
    text::lemma_first_index_unique(target, eq_class, target.len() as int);
    assert forall|i: int| 0 <= i < target.len() implies !eq_class.has(#[trigger] line[i]) by {
        assert(line[i] == target[i]);
    }
    assert(line[target.len() as int] == '=');
    text::lemma_first_index_unique(line, eq_class, target.len() as int);
    let behind = line.skip(target.len() as int + 1);
    let open = value + gap;
    let whole = open + semicolons;
    if semicolons.len() > 0 {
        assert(whole.last() == semicolons[semicolons.len() - 1]);
        if value.len() > 0 {
            assert(whole[0] == value[0]);
        } else {
            assert(whole[0] == semicolons[0]);
        }
        assert(behind =~= before + whole + after);
        texts::law_strip(before, whole, after, white);
        if open.len() > 0 {
            if gap.len() > 0 {
                assert(open.last() == gap[gap.len() - 1]);
            } else {
                assert(open.last() == value.last());
            }
        }
        texts::law_strip_end(open, semicolons, CharClass::Is(';'));
        assert(none + value + gap =~= open);
        texts::law_strip(none, value, gap, white);
    } else {
        let end = gap + after;
        assert forall|i: int| 0 <= i < end.len() implies white.has(#[trigger] end[i]) by {
            if i < gap.len() {
                assert(end[i] == gap[i]);
            } else {
                assert(end[i] == after[i - gap.len()]);
            }
        }
        assert(behind =~= before + value + end);
        texts::law_strip(before, value, end, white);
        assert(value + none =~= value);
        texts::law_strip_end(value, none, CharClass::Is(';'));
        assert(none + value + none =~= value);
        texts::law_strip(none, value, none, white);
    }
}

/// Whether `n` is a node of the given type and label on line `at` alone, at column zero, with no
/// hash of its own.
pub open spec fn is_line_node(
    n: Node,
    id: Seq<char>,
    node_type: Seq<char>,
    label: Seq<char>,
    at: u32,
) -> bool {
    &&& n.id == id
    &&& n.node_type == node_type
    &&& n.label == label
    &&& n.start_line == at
    &&& n.end_line == at
    &&& n.start_col == 0
    &&& n.end_col == 0
    &&& n.content_hash.len() == 0
}

/// Whether a text can be the end of a statement: it does not end in white space, `,` or `;`.
pub open spec fn ends_statement(s: Seq<char>) -> bool {
    s.len() > 0 && !text::is_white(s.last()) && s.last() != ',' && s.last() != ';'
}

/// A line that declares a name and assigns a value has a node labelled with the name, with exactly
/// one child, labelled with the value, whole. White space around the statement and around the `=`,
/// anything without an `=` between the name and it, and semicolons and commas at the end of the
/// line change nothing.
pub proof fn law_declaration_with_value(
    before: Seq<char>,
    keyword: Seq<char>,
    name: Seq<char>,
    annotation: Seq<char>,
    space: Seq<char>,
    value: Seq<char>,
    gap: Seq<char>,
    semicolons: Seq<char>,
    commas: Seq<char>,
    after: Seq<char>,
    id: Seq<char>,
    at: u32,
)
    requires
        texts::is_all(before, CharClass::White),
        is_keyword(keyword),
        frontmatter::is_identifier(name),
        ends_name(annotation),
        !annotation.contains('='),
        texts::is_all(space, CharClass::White),
        value.len() > 0,
        !text::is_white(value[0]),
        ends_statement(value),
        texts::is_all(gap, CharClass::White),
        texts::is_all(semicolons, CharClass::Is(';')),
        texts::is_all(commas, CharClass::Is(',')),
        texts::is_all(after, CharClass::White),
    ensures
        ({
            let line = before + (keyword + name + annotation + "="@ + space + value) + gap
                + semicolons + commas + after;
            let n = frontmatter::statement(frontmatter::normalized(line), id, at);
            &&& n is Some
            &&& is_line_node(n->0, id, "variable_declaration"@, name, at)
            &&& n->0.children.len() == 1
            &&& is_line_node(
                n->0.children[0],
                node::child_id(id, 0),
                "declaration_value"@,
                value,
                at,
            )
            &&& n->0.children[0].children.len() == 0
        }),
{
    reveal_strlit("=");
    reveal_strlit("");
    reveal_strlit("const ");
    reveal_strlit("let ");
    reveal_strlit("var ");
    let none = Seq::<char>::empty();
    let target = keyword + name + annotation;
    let inner = target + "="@ + space + value;
    assert(inner.take(keyword.len() as int) =~= keyword);
    lemma_keywords_differ(inner, keyword);
    assert(inner.last() == value.last());
    law_normalized(before, inner, gap, semicolons, commas, after);
    let rest = annotation + "="@ + space + value;
    if annotation.len() > 0 {
        assert(rest[0] == annotation[0]);
    } else {
        assert(rest[0] == '=');
    }
    assert(inner =~= keyword + name + rest);
    law_declared_name(keyword, name, rest);
    assert(!target.contains('=')) by {
        if target.contains('=') {
            let i = choose|i: int| 0 <= i < target.len() && target[i] == '=';
            if i < keyword.len() {
                assert(keyword[i] == '=');
            } else if i < keyword.len() + name.len() {
                let j = i - keyword.len();
                assert(name[j] == '=');
                assert(j > 0 ==> frontmatter::continues_identifier(name[j]));
            } else {
                assert(annotation[i - keyword.len() - name.len()] == '=');
            }
        }
    }
    assert(inner =~= target + "="@ + space + value + none + none + none);
    law_assigned_value(target, space, value, none, none, none);
}

/// A line that declares a name and assigns nothing has a node labelled with the name, without
/// children.
pub proof fn law_declaration_without_value(
    before: Seq<char>,
    keyword: Seq<char>,
    name: Seq<char>,
    annotation: Seq<char>,
    gap: Seq<char>,
    semicolons: Seq<char>,
    commas: Seq<char>,
    after: Seq<char>,
    id: Seq<char>,
    at: u32,
)
    requires
        texts::is_all(before, CharClass::White),
        is_keyword(keyword),
        frontmatter::is_identifier(name),
        ends_name(annotation),
        !annotation.contains('='),
        annotation.len() > 0 ==> ends_statement(annotation),
        texts::is_all(gap, CharClass::White),
        texts::is_all(semicolons, CharClass::Is(';')),
        texts::is_all(commas, CharClass::Is(',')),
        texts::is_all(after, CharClass::White),
    ensures
        ({
            let line = before + (keyword + name + annotation) + gap + semicolons + commas + after;
            let n = frontmatter::statement(frontmatter::normalized(line), id, at);
            &&& n is Some
            &&& is_line_node(n->0, id, "variable_declaration"@, name, at)
            &&& n->0.children.len() == 0
        }),
{
    reveal_strlit("");
    reveal_strlit("=");
    reveal_strlit("const ");
    reveal_strlit("let ");
    reveal_strlit("var ");
    let none = Seq::<char>::empty();
    let target = keyword + name + annotation;
    assert(target.take(keyword.len() as int) =~= keyword);
    lemma_keywords_differ(target, keyword);
    if annotation.len() > 0 {
        assert(target.last() == annotation.last());
    } else {
        assert(target.last() == name.last());
        let k = name.len() - 1;
        assert(k > 0 ==> frontmatter::continues_identifier(name[k]));
    }
    law_normalized(before, target, gap, semicolons, commas, after);
    law_declared_name(keyword, name, annotation);
    assert(!target.contains('=')) by {
        if target.contains('=') {
            let i = choose|i: int| 0 <= i < target.len() && target[i] == '=';
            if i < keyword.len() {
                assert(keyword[i] == '=');
            } else if i < keyword.len() + name.len() {
                let j = i - keyword.len();
                assert(name[j] == '=');
                assert(j > 0 ==> frontmatter::continues_identifier(name[j]));
            } else {
                assert(annotation[i - keyword.len() - name.len()] == '=');
            }
        }
    }
    law_assigned_value(target, none, none, none, none, none);
}

/// A line that starts with `import` and a space has a node labelled with the statement, whole, but
/// for the white space around it and the semicolons and commas at its end.
pub proof fn law_import(
    before: Seq<char>,
    what: Seq<char>,
    gap: Seq<char>,
    semicolons: Seq<char>,
    commas: Seq<char>,
    after: Seq<char>,
    id: Seq<char>,
    at: u32,
)
    requires
        texts::is_all(before, CharClass::White),
        ends_statement(what),
        texts::is_all(gap, CharClass::White),
        texts::is_all(semicolons, CharClass::Is(';')),
        texts::is_all(commas, CharClass::Is(',')),
        texts::is_all(after, CharClass::White),
    ensures
        ({
            let line = before + ("import "@ + what) + gap + semicolons + commas + after;
            let n = frontmatter::statement(frontmatter::normalized(line), id, at);
            &&& n is Some
            &&& is_line_node(n->0, id, "import_statement"@, "import "@ + what, at)
            &&& n->0.children.len() == 0
        }),
{
    reveal_strlit("");
    reveal_strlit("import ");
    let inner = "import "@ + what;
    assert(inner[0] == 'i');
    assert(inner.last() == what.last());
    assert(inner.take(7) =~= "import "@);
    law_normalized(before, inner, gap, semicolons, commas, after);
}

/// A line that starts neither with `import` nor with a keyword has no node, nor has one whose
/// keyword no identifier follows.
pub proof fn law_other_lines(line: Seq<char>, id: Seq<char>, at: u32)
    requires
        !text::begins_with(frontmatter::normalized(line), "import "@),
        forall|keyword: Seq<char>, name: Seq<char>, rest: Seq<char>|
            is_keyword(keyword) && frontmatter::is_identifier(name) && ends_name(rest)
                ==> frontmatter::normalized(line) != #[trigger] (keyword + name + rest),
    ensures
        frontmatter::statement(frontmatter::normalized(line), id, at) is None,
{
    law_declared_name_stands_behind_keyword(frontmatter::normalized(line));
}

/// Each further line adds its node, if it has one, behind those of the lines before it; the node
/// is numbered by how many there are already, and stands on the line of its statement.
pub proof fn law_statements_line_by_line(
    all: Seq<Seq<char>>,
    line: Seq<char>,
    start_line: u32,
    parent: Seq<char>,
)
    requires
        start_line + all.len() <= u32::MAX,
    ensures
        frontmatter::statements(Seq::empty(), start_line, parent).len() == 0,
        ({
            let before = frontmatter::statements(all, start_line, parent);
            let n = frontmatter::statement(
                frontmatter::normalized(line),
                node::child_id(parent, before.len()),
                (start_line + all.len()) as u32,
            );
            frontmatter::statements(all.push(line), start_line, parent) == (if n is Some {
                before.push(n->0)
            } else {
                before
            })
        }),
{
    assert(all.push(line).drop_last() =~= all);
    assert(lines::line_number(start_line, all.len()) == (start_line + all.len()) as u32);
}

/// Two declarations of the same name that assign different texts have different nodes.
pub proof fn law_value_text_edit_surfaces(
    keyword: Seq<char>,
    name: Seq<char>,
    old_value: Seq<char>,
    new_value: Seq<char>,
    semicolons: Seq<char>,
    id: Seq<char>,
    at: u32,
)
    requires
        is_keyword(keyword),
        frontmatter::is_identifier(name),
        labels::is_clean(old_value) && ends_statement(old_value),
        labels::is_clean(new_value) && ends_statement(new_value),
        texts::is_all(semicolons, CharClass::Is(';')),
        old_value != new_value,
    ensures
        ({
            let old_line = keyword + name + " = "@ + old_value + semicolons;
            let new_line = keyword + name + " = "@ + new_value + semicolons;
            frontmatter::statement(frontmatter::normalized(old_line), id, at)
                != frontmatter::statement(frontmatter::normalized(new_line), id, at)
        }),
{
    reveal_strlit(" = ");
    reveal_strlit("=");
    let none = Seq::<char>::empty();
    let space = seq![' '];
    let old_line = keyword + name + " = "@ + old_value + semicolons;
    let new_line = keyword + name + " = "@ + new_value + semicolons;
    assert(old_line =~= none + (keyword + name + space + "="@ + space + old_value) + none
        + semicolons + none + none);
    assert(new_line =~= none + (keyword + name + space + "="@ + space + new_value) + none
        + semicolons + none + none);
    law_declaration_with_value(
        none, keyword, name, space, space, old_value, none, semicolons, none, none, id, at,
    );
    law_declaration_with_value(
        none, keyword, name, space, space, new_value, none, semicolons, none, none, id, at,
    );
}

/// Each line with a statement has its node among those of the whole, numbered by how many the lines
/// before it have, and there are no other nodes.
pub proof fn law_every_statement_has_node(
    all: Seq<Seq<char>>,
    i: int,
    start_line: u32,
    parent: Seq<char>,
)
    requires
        0 <= i < all.len(),
        start_line + all.len() <= u32::MAX,
    ensures
        ({
            let nodes = frontmatter::statements(all, start_line, parent);
            let k = frontmatter::statements(all.take(i), start_line, parent).len();
            let n = frontmatter::statement(
                frontmatter::normalized(all[i]),
                node::child_id(parent, k),
                (start_line + i) as u32,
            );
            &&& n is Some ==> k < nodes.len() && nodes[k as int] == n->0
            &&& nodes.len() == all.filter(
                |line: Seq<char>|
                    frontmatter::statement(frontmatter::normalized(line), parent, 0) is Some,
            ).len()
        }),
    decreases all.len(),
{
    let last = all.len() - 1;
    let before = all.drop_last();
    assert(all =~= before.push(all.last()));
    law_statements_line_by_line(before, all.last(), start_line, parent);
    lemma_statement_count(all, start_line, parent);
    if i < last {
        law_every_statement_has_node(before, i, start_line, parent);
        assert(before.take(i) =~= all.take(i));
    } else {
        assert(all.take(i) =~= before);
    }
}

proof fn lemma_statement_count(all: Seq<Seq<char>>, start_line: u32, parent: Seq<char>)
    ensures
        frontmatter::statements(all, start_line, parent).len() == all.filter(
            |line: Seq<char>|
                frontmatter::statement(frontmatter::normalized(line), parent, 0) is Some,
        ).len(),
    decreases all.len(),
{
    reveal(Seq::filter);
    if all.len() > 0 {
        lemma_statement_count(all.drop_last(), start_line, parent);
    }
}

} // verus!
