//! What holds of the labels in every tree, of its JSON value, and of the language of a file.

use crate::component;
use crate::document;
use crate::frontmatter;
use crate::json;
use crate::json::Json;
use crate::lines;
use crate::node;
use crate::node::Node;
use crate::plugin;
use crate::plugin::{LanguageInfo, LanguageInfoRecord};
use crate::template;
use crate::text;
use crate::text::CharClass;
use vstd::prelude::*;

verus! {

/// Whether a text is not empty and has no white space at either end.
pub open spec fn is_clean(s: Seq<char>) -> bool {
    s.len() > 0 && !text::is_white(s[0]) && !text::is_white(s.last())
}

/// Whether a text holds no character of the class.
pub open spec fn holds_none(s: Seq<char>, class: CharClass) -> bool {
    forall|i: int| 0 <= i < s.len() ==> !class.has(#[trigger] s[i])
}

/// Whether `label` can be the label of an interpolation: not empty, without white space at either
/// end, starting neither with `#` nor with `/`, and without a closing brace.
pub open spec fn is_interpolation_label(label: Seq<char>) -> bool {
    is_clean(label) && label[0] != '#' && label[0] != '/' && holds_none(label, CharClass::Is('}'))
}

/// Whether all of them can be labels of interpolations.
pub open spec fn are_interpolation_labels(labels: Seq<Seq<char>>) -> bool {
    forall|i: int| 0 <= i < labels.len() ==> is_interpolation_label(#[trigger] labels[i])
}

/// The label of an interpolation is not empty, has no white space at either end, starts neither
/// with `#` nor with `/`, and holds no closing brace.
pub proof fn law_interpolation_labels(line: Seq<char>)
    ensures
        are_interpolation_labels(template::brace_labels(line)),
    decreases line.len(),
{
    let open = text::first_index(line, CharClass::Is('{'));
    if open >= line.len() {
    } else if open + 1 < line.len() && line[open as int + 1] == '{' {
        law_interpolation_labels(line.skip(open as int + 2));
    } else {
        let close_class = CharClass::Is('}');
        let after = line.skip(open as int + 1);
        let close = text::first_index(after, close_class);
        if close < after.len() {
            let inner = after.take(close as int);
            let label = text::trimmed(inner);
            let rest = template::brace_labels(after.skip(close as int + 1));
            law_interpolation_labels(after.skip(close as int + 1));
            text::lemma_first_index(after, close_class);
            text::lemma_trimmed_matches(inner, CharClass::White);
            assert forall|i: int| 0 <= i < label.len() implies !close_class.has(
                #[trigger] label[i],
            ) by {
                assert(inner.contains(label[i]));
                let j = choose|j: int| 0 <= j < inner.len() && inner[j] == label[i];
                assert(after[j] == label[i]);
            }
            if template::is_brace_label(label) {
                let all = seq![label] + rest;
                assert forall|i: int| 0 <= i < all.len() implies is_interpolation_label(
                    #[trigger] all[i],
                ) by {
                    if i > 0 {
                        assert(all[i] == rest[i - 1]);
                    } else {
                        assert(all[i] == label);
                    }
                }
                assert(template::brace_labels(line) == all);
            } else {
                assert(template::brace_labels(line) == rest);
            }
        }
    }
}

/// Stripping characters from a text without white space leaves a text without white space.
proof fn lemma_stripped(s: Seq<char>, class: CharClass)
    requires
        holds_none(s, CharClass::White),
    ensures
        holds_none(text::trimmed_end(s, class), CharClass::White),
        holds_none(text::trimmed_matches(s, class), CharClass::White),
{
    text::lemma_trimmed_end(s, class);
    text::lemma_trimmed_matches(s, class);
    let t = text::trimmed_matches(s, class);
    assert forall|i: int| 0 <= i < t.len() implies !CharClass::White.has(#[trigger] t[i]) by {
        assert(s.contains(t[i]));
    }
}

/// Whether all of the texts are free of white space.
spec fn hold_no_white(texts: Seq<Seq<char>>) -> bool {
    forall|i: int| 0 <= i < texts.len() ==> holds_none(#[trigger] texts[i], CharClass::White)
}

/// No word holds white space.
proof fn lemma_words(s: Seq<char>)
    ensures
        hold_no_white(lines::words(s)),
    decreases s.len(),
{
    if s.len() == 0 {
    } else if text::is_white(s[0]) {
        lemma_words(s.drop_first());
    } else {
        let end = text::first_index(s, CharClass::White);
        text::lemma_first_index(s, CharClass::White);
        lemma_words(s.skip(end as int));
        let rest = lines::words(s.skip(end as int));
        let all = seq![s.take(end as int)] + rest;
        assert forall|i: int| 0 <= i < all.len() implies holds_none(
            #[trigger] all[i],
            CharClass::White,
        ) by {
            if i > 0 {
                assert(all[i] == rest[i - 1]);
            } else {
                assert(all[i] == s.take(end as int));
            }
        }
        assert(lines::words(s) == all);
    }
}

/// Whether `label` can be the label of an attribute: it starts with a name, and holds no white
/// space.
pub open spec fn is_attr_label(label: Seq<char>) -> bool {
    label.len() > 0 && label[0] != '=' && holds_none(label, CharClass::White)
}

/// Whether all of them can be labels of attributes.
pub open spec fn are_attr_labels(labels: Seq<Seq<char>>) -> bool {
    forall|i: int| 0 <= i < labels.len() ==> is_attr_label(#[trigger] labels[i])
}

proof fn lemma_attr_label(word: Seq<char>)
    requires
        holds_none(word, CharClass::White),
    ensures
        template::attr_label(word) matches Some(label) ==> is_attr_label(label),
{
    reveal_strlit("=");
    let bare = text::trimmed(word);
    let open_end = text::trimmed_end(bare, CharClass::Is('>'));
    let unslashed = text::trimmed_end(open_end, CharClass::Is('/'));
    let clean = text::trimmed(unslashed);
    lemma_stripped(word, CharClass::White);
    lemma_stripped(bare, CharClass::Is('>'));
    lemma_stripped(open_end, CharClass::Is('/'));
    lemma_stripped(unslashed, CharClass::White);
    let eq_class = CharClass::Is('=');
    let eq = text::first_index(clean, eq_class);
    text::lemma_first_index(clean, eq_class);
    let before = clean.take(eq as int);
    let name = text::trimmed(before);
    lemma_stripped(before, CharClass::White);
    text::lemma_trimmed_matches(before, CharClass::White);
    if name.len() > 0 {
        assert(name[0] != '=') by {
            assert(before.contains(name[0]));
            let j = choose|j: int| 0 <= j < before.len() && before[j] == name[0];
            assert(!eq_class.has(clean[j]));
        }
        if eq + 1 < clean.len() {
            let value = clean.skip(eq as int + 1);
            assert(holds_none(value, CharClass::White));
            let a = text::trimmed(value);
            let b = text::trimmed_matches(a, CharClass::Is('"'));
            let c = text::trimmed_matches(b, CharClass::Is('\''));
            let d = text::trimmed_matches(c, CharClass::Is('{'));
            lemma_stripped(value, CharClass::White);
            lemma_stripped(a, CharClass::Is('"'));
            lemma_stripped(b, CharClass::Is('\''));
            lemma_stripped(c, CharClass::Is('{'));
            lemma_stripped(d, CharClass::Is('}'));
            let label = name + "="@ + template::bare_value(value);
            assert forall|i: int| 0 <= i < label.len() implies !CharClass::White.has(
                #[trigger] label[i],
            ) by {
                if i < name.len() {
                    assert(label[i] == name[i]);
                } else if i == name.len() {
                    assert(label[i] == '=');
                } else {
                    assert(label[i] == template::bare_value(value)[i - name.len() - 1]);
                }
            }
        }
    }
}

proof fn lemma_attr_labels(words: Seq<Seq<char>>)
    requires
        hold_no_white(words),
    ensures
        are_attr_labels(template::attr_labels_of(words)),
    decreases words.len(),
{
    if words.len() > 0 {
        lemma_attr_labels(words.drop_last());
        lemma_attr_label(words.last());
    }
}

/// The label of an attribute starts with a name and holds no white space.
pub proof fn law_attribute_labels(attrs: Seq<char>)
    ensures
        are_attr_labels(template::attr_labels(attrs)),
{
    lemma_words(attrs);
    lemma_attr_labels(lines::words(attrs));
}

proof fn lemma_declaration_is_no_import(line: Seq<char>)
    requires
        frontmatter::declared_name(line) is Some,
    ensures
        !text::begins_with(line, "import "@),
{
    reveal_strlit("import ");
    reveal_strlit("const ");
    reveal_strlit("let ");
    reveal_strlit("var ");
    if text::begins_with(line, "import "@) {
        assert(line.take(7)[0] == 'i');
        if text::begins_with(line, "const "@) {
            assert(line.take(6)[0] == 'c');
        }
        if text::begins_with(line, "let "@) {
            assert(line.take(4)[0] == 'l');
        }
        if text::begins_with(line, "var "@) {
            assert(line.take(4)[0] == 'v');
        }
    }
}

/// A change of the value that a declaration assigns surfaces in its node, even where the declared
/// name stays.
pub proof fn law_value_edit_surfaces(before: Seq<char>, after: Seq<char>, id: Seq<char>, at: u32)
    requires
        frontmatter::declared_name(before) is Some,
        frontmatter::declared_name(after) == frontmatter::declared_name(before),
        frontmatter::assigned_value(before) != frontmatter::assigned_value(after),
    ensures
        frontmatter::statement(before, id, at) is Some,
        frontmatter::statement(after, id, at) is Some,
        frontmatter::statement(before, id, at) != frontmatter::statement(after, id, at),
{
    lemma_declaration_is_no_import(before);
    lemma_declaration_is_no_import(after);
    let name = frontmatter::declared_name(before)->0;
    let old_value = frontmatter::assigned_value(before);
    let new_value = frontmatter::assigned_value(after);
    let a = frontmatter::declaration(name, old_value, id, at);
    let b = frontmatter::declaration(name, new_value, id, at);
    assert(frontmatter::statement(before, id, at) == Some(a));
    assert(frontmatter::statement(after, id, at) == Some(b));
    if old_value.len() > 0 && new_value.len() > 0 {
        assert(a.children[0].label == old_value);
        assert(b.children[0].label == new_value);
    } else if old_value.len() == 0 && new_value.len() == 0 {
        assert(old_value =~= new_value);
    } else {
        assert(a.children.len() != b.children.len());
    }
}

/// The entry of each key in an object is its value.
proof fn lemma_object_entry(pairs: Seq<(Seq<char>, Json)>, i: int)
    requires
        json::has_distinct_keys(pairs),
        0 <= i < pairs.len(),
    ensures
        json::object_of(pairs)[pairs[i].0] == pairs[i].1,
    decreases pairs.len(),
{
    if i < pairs.len() - 1 {
        lemma_object_entry(pairs.drop_last(), i);
        assert(pairs[i].0 != pairs[pairs.len() - 1].0);
    }
}

/// Objects with the same keys in the same order are equal only where all their values are.
proof fn lemma_same_objects(a: Seq<(Seq<char>, Json)>, b: Seq<(Seq<char>, Json)>, i: int)
    requires
        json::has_distinct_keys(a),
        json::has_distinct_keys(b),
        json::object_of(a) == json::object_of(b),
        0 <= i < a.len(),
        i < b.len(),
        a[i].0 == b[i].0,
    ensures
        a[i].1 == b[i].1,
{
    lemma_object_entry(a, i);
    lemma_object_entry(b, i);
}

/// Trees with the same JSON value are the same.
pub proof fn law_json_tells_trees_apart(a: Node, b: Node)
    requires
        json::node_json(a) == json::node_json(b),
    ensures
        a == b,
    decreases a,
{
    let a_children = json::node_jsons(a.children);
    let b_children = json::node_jsons(b.children);
    let x = json::fields(a, a_children);
    let y = json::fields(b, b_children);
    json::lemma_fields_are_distinct(a, a_children);
    json::lemma_fields_are_distinct(b, b_children);
    assert(json::object_of(x) == json::object_of(y));
    lemma_same_objects(x, y, 0);
    lemma_same_objects(x, y, 1);
    lemma_same_objects(x, y, 2);
    lemma_same_objects(x, y, 3);
    lemma_same_objects(x, y, 4);
    lemma_same_objects(x, y, 5);
    lemma_same_objects(x, y, 6);
    lemma_same_objects(x, y, 7);
    lemma_same_objects(x, y, 8);
    assert(a_children == b_children);
    assert(a_children.len() == a.children.len());
    assert forall|i: int| 0 <= i < a.children.len() implies a.children[i] == b.children[i] by {
        assert(a_children[i] == json::node_json(a.children[i]));
        assert(b_children[i] == json::node_json(b.children[i]));
        law_json_tells_trees_apart(a.children[i], b.children[i]);
    }
    assert(a.children =~= b.children);
}

/// The nodes of the first lines are the first nodes.
proof fn lemma_statements_prefix(
    all: Seq<Seq<char>>,
    start_line: u32,
    parent: Seq<char>,
    k: int,
)
    requires
        0 <= k <= all.len(),
    ensures
        ({
            let some = frontmatter::statements(all.take(k), start_line, parent);
            let nodes = frontmatter::statements(all, start_line, parent);
            some.len() <= nodes.len() && nodes.take(some.len() as int) == some
        }),
    decreases all.len(),
{
    let some = frontmatter::statements(all.take(k), start_line, parent);
    let nodes = frontmatter::statements(all, start_line, parent);
    if k < all.len() {
        lemma_statements_prefix(all.drop_last(), start_line, parent, k);
        assert(all.drop_last().take(k) =~= all.take(k));
    } else {
        assert(all.take(k) =~= all);
    }
    assert(nodes.take(some.len() as int) =~= some);
}

/// Where the value of one declaration in the frontmatter is edited, the tree and its JSON value
/// change, even though the declared name stays.
pub proof fn law_value_edit_changes_tree(
    before: Seq<char>,
    after: Seq<char>,
    filename: Seq<char>,
    k: int,
)
    requires
        ({
            let old_block = document::document(before).frontmatter;
            let new_block = document::document(after).frontmatter;
            let old_lines = lines::lines(old_block->0.content);
            let new_lines = lines::lines(new_block->0.content);
            let old_line = frontmatter::normalized(old_lines[k]);
            let new_line = frontmatter::normalized(new_lines[k]);
            &&& old_block is Some && new_block is Some
            &&& old_block->0.content_start_line == new_block->0.content_start_line
            &&& 0 <= k < old_lines.len() && k < new_lines.len()
            &&& new_lines.take(k) == old_lines.take(k)
            &&& frontmatter::declared_name(old_line) is Some
            &&& frontmatter::declared_name(new_line) == frontmatter::declared_name(old_line)
            &&& frontmatter::assigned_value(new_line) != frontmatter::assigned_value(old_line)
        }),
    ensures
        component::tree(before, filename) != component::tree(after, filename),
        json::node_json(component::tree(before, filename)) != json::node_json(
            component::tree(after, filename),
        ),
{
    let old_block = document::document(before).frontmatter->0;
    let new_block = document::document(after).frontmatter->0;
    let old_lines = lines::lines(old_block.content);
    let new_lines = lines::lines(new_block.content);
    let start = old_block.content_start_line;
    let parent = node::child_id(component::root_id(), 0);
    let earlier = frontmatter::statements(old_lines.take(k), start, parent);
    let id = node::child_id(parent, earlier.len());
    let at = lines::line_number(start, k as nat);
    lemma_statements_prefix(old_lines, start, parent, k + 1);
    lemma_statements_prefix(new_lines, start, parent, k + 1);
    assert(old_lines.take(k + 1).drop_last() =~= old_lines.take(k));
    assert(new_lines.take(k + 1).drop_last() =~= new_lines.take(k));
    law_value_edit_surfaces(
        frontmatter::normalized(old_lines[k]),
        frontmatter::normalized(new_lines[k]),
        id,
        at,
    );
    let old_some = frontmatter::statements(old_lines.take(k + 1), start, parent);
    let new_some = frontmatter::statements(new_lines.take(k + 1), start, parent);
    let old_nodes = frontmatter::statements(old_lines, start, parent);
    let new_nodes = frontmatter::statements(new_lines, start, parent);
    let n = earlier.len() as int;
    assert(old_some[n] == frontmatter::statement(
        frontmatter::normalized(old_lines[k]),
        id,
        at,
    )->0);
    assert(new_some[n] == frontmatter::statement(
        frontmatter::normalized(new_lines[k]),
        id,
        at,
    )->0);
    assert(old_nodes.take(old_some.len() as int)[n] == old_nodes[n]);
    assert(new_nodes.take(new_some.len() as int)[n] == new_nodes[n]);
    assert(component::tree(before, filename).children[0].children == old_nodes);
    assert(component::tree(after, filename).children[0].children == new_nodes);
    if json::node_json(component::tree(before, filename)) == json::node_json(
        component::tree(after, filename),
    ) {
        law_json_tells_trees_apart(
            component::tree(before, filename),
            component::tree(after, filename),
        );
    }
}

/// The label of a component is its file name without the extension, whatever directory the file
/// is in and whatever dots stand before the last one.
pub proof fn law_component_label(directory: Seq<char>, base: Seq<char>, extension: Seq<char>)
    requires
        !base.contains('/') && !base.contains('\\'),
        !extension.contains('/') && !extension.contains('\\') && !extension.contains('.'),
    ensures
        component::stem(base + "."@ + extension) == base,
        component::stem(directory + "/"@ + base + "."@ + extension) == base,
        component::stem(directory + "\\"@ + base + "."@ + extension) == base,
{
    reveal_strlit(".");
    reveal_strlit("/");
    reveal_strlit("\\");
    let name = base + "."@ + extension;
    assert forall|i: int| 0 <= i < name.len() implies !CharClass::PathBreak.has(
        #[trigger] name[i],
    ) by {
        if i < base.len() {
            assert(name[i] == base[i]);
        } else if i > base.len() {
            assert(name[i] == extension[i - base.len() - 1]);
        }
    }
    assert(name =~= base.push('.') + extension);
    text::lemma_after_last(base, '.', extension, CharClass::Is('.'));
    assert(name.take(name.len() - extension.len() - 1) =~= base);
    text::lemma_after_none(name, CharClass::PathBreak);
    text::lemma_after_last(directory, '/', name, CharClass::PathBreak);
    text::lemma_after_last(directory, '\\', name, CharClass::PathBreak);
    assert(directory + "/"@ + base + "."@ + extension =~= directory.push('/') + name);
    assert(directory + "\\"@ + base + "."@ + extension =~= directory.push('\\') + name);
}

/// The label of a component whose file name has no extension is that name, whatever directory the
/// file is in.
pub proof fn law_component_label_without_extension(directory: Seq<char>, name: Seq<char>)
    requires
        name.len() > 0,
        !name.contains('/') && !name.contains('\\') && !name.contains('.'),
    ensures
        component::stem(name) == name,
        component::stem(directory + "/"@ + name) == name,
        component::stem(directory + "\\"@ + name) == name,
{
    reveal_strlit("/");
    reveal_strlit("\\");
    text::lemma_after_none(name, CharClass::Is('.'));
    text::lemma_after_none(name, CharClass::PathBreak);
    text::lemma_after_last(directory, '/', name, CharClass::PathBreak);
    text::lemma_after_last(directory, '\\', name, CharClass::PathBreak);
    assert(directory + "/"@ + name =~= directory.push('/') + name);
    assert(directory + "\\"@ + name =~= directory.push('\\') + name);
}

/// A name that ends in `.astro`, in either case of letters, is that of a component, whatever stands
/// before; and a name that ends in any other ASCII text of that length is not.
pub proof fn law_extension_tells_language(head: Seq<char>, extension: Seq<char>)
    requires
        vstd::utf8::is_ascii_chars(extension),
        extension.len() == ".astro"@.len(),
    ensures
        plugin::language_of(head + extension) == (if text::ascii_lower(extension) == ".astro"@ {
            plugin::grammar()
        } else {
            Seq::empty()
        }),
{
    let filename = head + extension;
    let tail = text::after_last(filename, CharClass::NonAscii);
    text::lemma_after_last_suffix(filename, CharClass::NonAscii);
    assert(tail.len() >= extension.len()) by {
        if tail.len() < extension.len() {
            let i = filename.len() - tail.len() - 1;
            assert(CharClass::NonAscii.has(filename[i]));
            assert(filename[i] == extension[i - head.len()]);
        }
    }
    let end = plugin::lower_end(filename);
    assert(tail.skip(tail.len() - extension.len()) =~= extension);
    assert(end.skip(end.len() - extension.len()) =~= text::ascii_lower(extension));
}

/// The language of a file whose name the ASCII end tells, such as every ASCII name and every name
/// with an ASCII extension, does not depend on the case of the letters in that end.
pub proof fn law_language_ignores_case(head: Seq<char>, end: Seq<char>)
    requires
        vstd::utf8::is_ascii_chars(end),
        head.len() > 0 ==> CharClass::NonAscii.has(head.last()),
        plugin::end_tells_language(head + end),
    ensures
        plugin::language_of(head + text::ascii_lower(end)) == plugin::language_of(head + end),
{
    let lower = text::ascii_lower(end);
    assert(vstd::utf8::is_ascii_chars(lower));
    assert(text::ascii_lower(lower) =~= lower);
    lemma_ascii_end(head, end);
    lemma_ascii_end(head, lower);
}

/// The ASCII end of a text is what follows its last other character.
proof fn lemma_ascii_end(head: Seq<char>, end: Seq<char>)
    requires
        vstd::utf8::is_ascii_chars(end),
        head.len() > 0 ==> CharClass::NonAscii.has(head.last()),
    ensures
        text::after_last(head + end, CharClass::NonAscii) == end,
{
    assert forall|i: int| 0 <= i < end.len() implies !CharClass::NonAscii.has(#[trigger] end[i]) by {}
    if head.len() > 0 {
        text::lemma_after_last(head.drop_last(), head.last(), end, CharClass::NonAscii);
        assert(head.drop_last().push(head.last()) =~= head);
    } else {
        text::lemma_after_none(end, CharClass::NonAscii);
        assert(head + end =~= end);
    }
}

/// The grammar is one of the languages that the plugin offers, and so is every language that it
/// detects.
pub proof fn law_languages_are_offered(filename: Seq<char>)
    ensures
        plugin::languages().contains(plugin::grammar()),
        plugin::language_of(filename).len() > 0 ==> plugin::languages().contains(
            plugin::language_of(filename),
        ),
{
    assert(plugin::languages()[0] == plugin::grammar());
}

/// An ASCII name shorter than `.astro` has no language.
pub proof fn law_short_name_has_no_language(filename: Seq<char>)
    requires
        vstd::utf8::is_ascii_chars(filename),
        filename.len() < ".astro"@.len(),
    ensures
        plugin::language_of(filename).len() == 0,
{
    text::lemma_after_none(filename, CharClass::NonAscii);
}

/// A path that ends in a separator, and an empty one, have no name: the label is `component`.
pub proof fn law_component_label_without_name(directory: Seq<char>)
    ensures
        component::stem(Seq::empty()) == "component"@,
        component::stem(directory + "/"@) == "component"@,
        component::stem(directory + "\\"@) == "component"@,
{
    reveal_strlit("/");
    reveal_strlit("\\");
    let none = Seq::<char>::empty();
    text::lemma_after_none(none, CharClass::PathBreak);
    text::lemma_after_last(directory, '/', none, CharClass::PathBreak);
    text::lemma_after_last(directory, '\\', none, CharClass::PathBreak);
    assert(directory + "/"@ =~= directory.push('/') + none);
    assert(directory + "\\"@ =~= directory.push('\\') + none);
}

/// The JSON object of a node holds each of its fields under the field's own name, and nothing else;
/// its children are the objects of the node's children, in order.
pub proof fn law_json_object(n: Node)
    ensures
        json::node_json(n) matches Json::Object(object) && {
            &&& object["id"@] == Json::Text(n.id)
            &&& object["node_type"@] == Json::Text(n.node_type)
            &&& object["label"@] == Json::Text(n.label)
            &&& object["start_line"@] == Json::Number(n.start_line as nat)
            &&& object["start_col"@] == Json::Number(n.start_col as nat)
            &&& object["end_line"@] == Json::Number(n.end_line as nat)
            &&& object["end_col"@] == Json::Number(n.end_col as nat)
            &&& object["content_hash"@] == Json::Text(n.content_hash)
            &&& object["children"@] == Json::List(
                n.children.map_values(|child: Node| json::node_json(child)),
            )
            &&& object.dom() == set![
                "id"@,
                "node_type"@,
                "label"@,
                "start_line"@,
                "start_col"@,
                "end_line"@,
                "end_col"@,
                "content_hash"@,
                "children"@,
            ]
        },
{
    let children = json::node_jsons(n.children);
    let f = json::fields(n, children);
    json::lemma_fields_are_distinct(n, children);
    reveal_with_fuel(json::object_of, 10);
    reveal_with_fuel(json::node_jsons, 2);
    assert(children =~= n.children.map_values(|child: Node| json::node_json(child)));
    assert(f[0].0 == "id"@ && f[1].0 == "node_type"@ && f[2].0 == "label"@);
    assert(f[3].0 == "start_line"@ && f[4].0 == "start_col"@ && f[5].0 == "end_line"@);
    assert(f[6].0 == "end_col"@ && f[7].0 == "content_hash"@ && f[8].0 == "children"@);
    let object = json::object_of(f);
    let names = set![
        "id"@,
        "node_type"@,
        "label"@,
        "start_line"@,
        "start_col"@,
        "end_line"@,
        "end_col"@,
        "content_hash"@,
        "children"@,
    ];
    assert(object.dom() =~= names);
}

/// Text that was written is put out as it is; the message of an error is put out whole, within a
/// JSON object.
pub proof fn law_output(s: Seq<char>)
    ensures
        json::output(Ok(s)) == s,
        json::output(Err(s)) == "{\"error\":\"Serialisation error: "@ + s + "\"}"@,
{
}

/// A name whose end beyond its last character outside ASCII is shorter than `.astro`, and could not
/// be the end of that in either case of letters, has no language.
pub proof fn law_other_end_has_no_language(head: Seq<char>, end: Seq<char>)
    requires
        head.len() > 0 && head.last() > '\u{7f}',
        vstd::utf8::is_ascii_chars(end),
        end.len() < ".astro"@.len(),
        forall|start: Seq<char>| ".astro"@ != #[trigger] (start + text::ascii_lower(end)),
    ensures
        plugin::language_of(head + end).len() == 0,
{
    lemma_ascii_end(head, end);
    let extension = ".astro"@;
    let lower = text::ascii_lower(end);
    if text::finishes_with(extension, lower) {
        assert(extension =~= extension.take(extension.len() - lower.len()) + lower);
    }
}

/// A record that announces a language has everything the metadata says of it, each under its own
/// name, and the author, version and date in their own places.
pub proof fn law_announcement(
    record: LanguageInfoRecord,
    info: LanguageInfo,
    author: Seq<char>,
    plugin_version: Seq<char>,
    last_updated: Seq<char>,
)
    requires
        plugin::announces(record, info, author, plugin_version, last_updated),
    ensures
        record.language_id@ == info.language_id@,
        record.language_name@ == info.language_name@,
        record.language_short_name@ == info.language_short_name@,
        record.monaco_language@ == info.monaco_language@,
        record.default_filename@ == info.default_filename@,
        record.language_file_extensions@ == info.language_file_extensions@,
        record.author@ == author,
        record.plugin_version@ == plugin_version,
        record.last_updated@ == last_updated,
{
}

} // verus!
