//! The elements and interpolations of the template.

use crate::lines;
use crate::node;
use crate::node::{Node, SemanticNode};
use crate::text;
use crate::text::CharClass;
use vstd::prelude::*;

verus! {

/// The label of the attribute that `word` writes, if it has a name: the name alone, or the name,
/// `=` and the value without the quotes and braces around it.
pub open spec fn attr_label(word: Seq<char>) -> Option<Seq<char>> {
    let open_end = text::trimmed_end(text::trimmed(word), CharClass::Is('>'));
    let clean = text::trimmed(text::trimmed_end(open_end, CharClass::Is('/')));
    let eq = text::first_index(clean, CharClass::Is('='));
    let name = text::trimmed(clean.take(eq as int));
    if name.len() == 0 {
        None
    } else if eq + 1 < clean.len() {
        Some(name + "="@ + bare_value(clean.skip(eq as int + 1)))
    } else {
        Some(name)
    }
}

/// The value of an attribute without the white space, double quotes, single quotes, opening
/// braces and closing braces around it, stripped in this order.
pub open spec fn bare_value(value: Seq<char>) -> Seq<char> {
    let unquoted = text::trimmed_matches(
        text::trimmed_matches(text::trimmed(value), CharClass::Is('"')),
        CharClass::Is('\''),
    );
    text::trimmed_matches(
        text::trimmed_matches(unquoted, CharClass::Is('{')),
        CharClass::Is('}'),
    )
}

/// The labels of the attributes that the given words write, in order.
pub open spec fn attr_labels_of(words: Seq<Seq<char>>) -> Seq<Seq<char>>
    decreases words.len(),
{
    if words.len() == 0 {
        Seq::empty()
    } else {
        let before = attr_labels_of(words.drop_last());
        match attr_label(words.last()) {
            Some(label) => before.push(label),
            None => before,
        }
    }
}

/// The labels of the attributes in the text `attrs`, in order.
pub open spec fn attr_labels(attrs: Seq<char>) -> Seq<Seq<char>> {
    attr_labels_of(lines::words(attrs))
}

/// The name, in lower case, and the attributes of the tag that `segment`, the text between `<`
/// and `>`, opens. Closing tags, comments and declarations open none.
pub open spec fn opened_tag(segment: Seq<char>) -> Option<(Seq<char>, Seq<char>)> {
    let inner = text::trimmed(segment);
    let end = text::first_index(inner, CharClass::TagBreak);
    let name = text::trimmed(inner.take(end as int));
    if inner.len() == 0 || inner[0] == '/' || inner[0] == '!' || name.len() == 0 {
        None
    } else {
        let rest = text::trimmed(inner.skip(end as int));
        let attrs = text::trimmed(text::trimmed_end(rest, CharClass::Is('/')));
        Some((text::lowercase(name), attrs))
    }
}

/// Whether the text between two braces is a label: not empty, and not the start or the end of a
/// block.
pub open spec fn is_brace_label(label: Seq<char>) -> bool {
    label.len() > 0 && label[0] != '#' && label[0] != '/'
}

/// The labels between braces in `line`, in order. Two opening braces in a row open nothing.
pub open spec fn brace_labels(line: Seq<char>) -> Seq<Seq<char>>
    decreases line.len(),
{
    let open = text::first_index(line, CharClass::Is('{'));
    if open >= line.len() {
        Seq::empty()
    } else if open + 1 < line.len() && line[open as int + 1] == '{' {
        brace_labels(line.skip(open as int + 2))
    } else {
        let after = line.skip(open as int + 1);
        let close = text::first_index(after, CharClass::Is('}'));
        if close >= after.len() {
            Seq::empty()
        } else {
            let label = text::trimmed(after.take(close as int));
            let rest = brace_labels(after.skip(close as int + 1));
            if is_brace_label(label) {
                seq![label] + rest
            } else {
                rest
            }
        }
    }
}

/// The leaves with the given labels, the first of which is the child at `index`.
pub open spec fn leaves(
    labels: Seq<Seq<char>>,
    node_type: Seq<char>,
    parent: Seq<char>,
    index: nat,
    at: u32,
) -> Seq<Node> {
    Seq::new(
        labels.len(),
        |i: int|
            node::leaf(node::child_id(parent, (index + i) as nat), node_type, labels[i], at),
    )
}

/// The node of an element; its attributes are its children.
pub open spec fn element(tag: Seq<char>, attrs: Seq<char>, id: Seq<char>, at: u32) -> Node {
    node::node(
        id,
        "element"@,
        tag,
        at,
        at,
        ""@,
        leaves(attr_labels(attrs), "attribute"@, id, 0, at),
    )
}

/// The nodes of the elements that `line` opens, in order; the first is the child at `index`.
pub open spec fn elements(line: Seq<char>, parent: Seq<char>, index: nat, at: u32) -> Seq<Node>
    decreases line.len(),
{
    let open = text::first_index(line, CharClass::Is('<'));
    let after = line.skip(open as int + 1);
    let close = text::first_index(after, CharClass::Is('>'));
    if open >= line.len() || close >= after.len() {
        Seq::empty()
    } else {
        let rest = after.skip(close as int + 1);
        match opened_tag(after.take(close as int)) {
            Some((tag, attrs)) => {
                let n = element(tag, attrs, node::child_id(parent, index), at);
                seq![n] + elements(rest, parent, index + 1, at)
            },
            None => elements(rest, parent, index, at),
        }
    }
}

/// The nodes of one line: its elements, then its interpolations.
pub open spec fn line_nodes(line: Seq<char>, parent: Seq<char>, index: nat, at: u32) -> Seq<Node> {
    let opened = elements(line, parent, index, at);
    opened + leaves(brace_labels(line), "interpolation"@, parent, index + opened.len(), at)
}

/// The nodes of the given lines, the first of which is line `start_line`.
pub open spec fn template_nodes(
    all: Seq<Seq<char>>,
    start_line: u32,
    parent: Seq<char>,
) -> Seq<Node>
    decreases all.len(),
{
    if all.len() == 0 {
        Seq::empty()
    } else {
        let before = template_nodes(all.drop_last(), start_line, parent);
        let at = lines::line_number(start_line, (all.len() - 1) as nat);
        before + line_nodes(all.last(), parent, before.len(), at)
    }
}

/// Whether the number of every line fits in thirty-two bits.
pub open spec fn template_lines_fit(content: Seq<char>, start_line: u32) -> bool {
    forall|i: int|
        0 <= i < lines::lines(content).len() ==> start_line + (#[trigger] (i as u32)) <= u32::MAX
}

/// Whether the number of every line fits in thirty-two bits.
pub fn check_template_lines(content: &str, start_line: u32) -> (fit: bool)
    ensures
        fit == template_lines_fit(content@, start_line),
{
    let all = lines::split_lines(content);
    let ghost texts = lines::lines(content@);
    let mut i: usize = 0;
    while i < all.len()
        invariant
            i <= all@.len(),
            all@.len() == texts.len(),
            texts == lines::lines(content@),
            forall|j: int| 0 <= j < i ==> start_line + (#[trigger] (j as u32)) <= u32::MAX,
        decreases all@.len() - i,
    {
        if start_line.checked_add(#[verifier::truncate] (i as u32)).is_none() {
            assert(start_line + ((i as int) as u32) > u32::MAX);
            return false;
        }
        i += 1;
    }
    true
}

/// The label of the attribute that `word` writes, if it has a name.
fn find_attr_label(word: &[char]) -> (label: Option<String>)
    ensures
        label is Some == attr_label(word@) is Some,
        label matches Some(l) ==> attr_label(word@) == Some(l@),
{
    let open_end = text::trim_end_matches(text::trim(word), CharClass::Is('>'));
    let clean = text::trim(text::trim_end_matches(open_end, CharClass::Is('/')));
    let eq = text::find(clean, CharClass::Is('='));
    let name = text::trim(text::take(clean, eq));
    if name.len() == 0 {
        return None;
    }
    let mut label = text::string_of(name);
    if eq < clean.len() && eq + 1 < clean.len() {
        let value = text::trim(text::skip(clean, eq + 1));
        let value = text::trim_matches(value, CharClass::Is('"'));
        let value = text::trim_matches(value, CharClass::Is('\''));
        let value = text::trim_matches(value, CharClass::Is('{'));
        let value = text::trim_matches(value, CharClass::Is('}'));
        label.append("=");
        let value = text::string_of(value);
        label.append(value.as_str());
    }
    Some(label)
}

/// The labels of the attributes in the text `attrs`, in order: the name alone, or the name, `=`
/// and the value without the quotes and braces around it.
pub fn parse_attr_labels(attrs: &str) -> (labels: Vec<String>)
    ensures
        text::views(labels@) == attr_labels(attrs@),
{
    let chars = text::chars_of(attrs);
    let all = lines::split_words(chars.as_slice());
    let ghost texts = lines::words(attrs@);
    let mut labels: Vec<String> = Vec::new();
    let mut i: usize = 0;
    assert(text::views(labels@) =~= attr_labels_of(texts.take(0)));
    while i < all.len()
        invariant
            i <= all@.len(),
            texts == all@.map_values(|word: &[char]| word@),
            text::views(labels@) == attr_labels_of(texts.take(i as int)),
        decreases all@.len() - i,
    {
        assert(texts.take(i + 1).drop_last() =~= texts.take(i as int));
        assert(texts[i as int] == all@[i as int]@);
        let ghost done = labels@;
        if let Some(label) = find_attr_label(all[i]) {
            labels.push(label);
            proof {
                text::lemma_views_push(done, label);
            }
        }
        i += 1;
    }
    assert(texts.take(i as int) =~= texts);
    labels
}

/// The name, in lower case, and the attributes of the tag that `segment`, the text between `<`
/// and `>`, opens, if it opens one.
pub fn parse_tag_segment(segment: &str) -> (tag: Option<(String, String)>)
    ensures
        tag is Some == opened_tag(segment@) is Some,
        tag matches Some((name, attrs)) ==> opened_tag(segment@) == Some((name@, attrs@)),
{
    let chars = text::chars_of(segment);
    let inner = text::trim(chars.as_slice());
    if inner.len() == 0 || inner[0] == '/' || inner[0] == '!' {
        return None;
    }
    let end = text::find(inner, CharClass::TagBreak);
    let name = text::trim(text::take(inner, end));
    if name.len() == 0 {
        return None;
    }
    let rest = text::trim(text::skip(inner, end));
    let attrs = text::trim(text::trim_end_matches(rest, CharClass::Is('/')));
    let name = text::string_of(name);
    Some((name.as_str().to_lowercase(), text::string_of(attrs)))
}

/// The labels between braces in `line`, in order. Empty ones, and those that start with `#` or
/// `/`, are left out; two opening braces in a row open nothing.
pub fn extract_brace_labels(line: &str) -> (labels: Vec<String>)
    ensures
        text::views(labels@) == brace_labels(line@),
{
    let chars = text::chars_of(line);
    let mut rest = chars.as_slice();
    let mut labels: Vec<String> = Vec::new();
    assert(text::views(labels@) + brace_labels(rest@) =~= brace_labels(line@));
    loop
        invariant
            text::views(labels@) + brace_labels(rest@) == brace_labels(line@),
        decreases rest@.len(),
    {
        let open = text::find(rest, CharClass::Is('{'));
        if open >= rest.len() {
            assert(text::views(labels@) + brace_labels(rest@) =~= text::views(labels@));
            return labels;
        }
        if open + 1 < rest.len() && rest[open + 1] == '{' {
            rest = text::skip(rest, open + 2);
            continue;
        }
        let after = text::skip(rest, open + 1);
        let close = text::find(after, CharClass::Is('}'));
        if close >= after.len() {
            assert(text::views(labels@) + brace_labels(rest@) =~= text::views(labels@));
            return labels;
        }
        let label = text::trim(text::take(after, close));
        let ghost done = labels@;
        let ghost old_rest = rest@;
        rest = text::skip(after, close + 1);
        if label.len() > 0 && label[0] != '#' && label[0] != '/' {
            labels.push(text::string_of(label));
            proof {
                text::lemma_views_push(done, labels@.last());
            }
        }
        assert(text::views(labels@) + brace_labels(rest@) =~= text::views(done) + brace_labels(
            old_rest,
        ));
    }
}

/// Appends a leaf for each label.
fn push_leaves(
    children: &mut Vec<SemanticNode>,
    labels: Vec<String>,
    node_type: &str,
    parent: &str,
    at: u32,
)
    ensures
        node::views(final(children)@) == node::views(old(children)@) + leaves(
            text::views(labels@),
            node_type@,
            parent@,
            old(children)@.len(),
            at,
        ),
{
    let ghost start = children@;
    let ghost all = leaves(text::views(labels@), node_type@, parent@, start.len(), at);
    let mut i: usize = 0;
    assert(node::views(children@) =~= node::views(start) + all.take(0));
    while i < labels.len()
        invariant
            i <= labels@.len(),
            children@.len() == start.len() + i,
            all == leaves(text::views(labels@), node_type@, parent@, start.len(), at),
            node::views(children@) == node::views(start) + all.take(i as int),
        decreases labels@.len() - i,
    {
        let ghost done = children@;
        let id = node::make_child_id(parent, children.len());
        children.push(node::make_leaf(id.as_str(), node_type, labels[i].clone(), at));
        proof {
            node::lemma_views_push(done, children@.last());
            assert(children@.last()@ == all[i as int]);
            assert(node::views(children@) =~= node::views(start) + all.take(i + 1));
        }
        i += 1;
    }
    assert(all.take(i as int) =~= all);
}

/// Builds the node of an element.
fn make_element(tag: String, attrs: &str, id: &str, at: u32) -> (n: SemanticNode)
    ensures
        n@ == element(tag@, attrs@, id@, at),
{
    let mut children: Vec<SemanticNode> = Vec::new();
    push_leaves(&mut children, parse_attr_labels(attrs), "attribute", id, at);
    assert(node::views(children@) =~= leaves(attr_labels(attrs@), "attribute"@, id@, 0, at));
    node::make_node(id, "element", tag, at, at, "", children)
}

/// Appends the nodes of the elements that `line` opens.
fn push_elements(children: &mut Vec<SemanticNode>, line: &str, parent: &str, at: u32)
    ensures
        node::views(final(children)@) == node::views(old(children)@) + elements(
            line@,
            parent@,
            old(children)@.len(),
            at,
        ),
{
    let chars = text::chars_of(line);
    let mut rest = chars.as_slice();
    let ghost goal = node::views(children@) + elements(line@, parent@, children@.len(), at);
    loop
        invariant
            node::views(children@) + elements(rest@, parent@, children@.len(), at) == goal,
        ensures
            node::views(children@) == goal,
        decreases rest@.len(),
    {
        let open = text::find(rest, CharClass::Is('<'));
        let ghost done = children@;
        let ghost old_rest = rest@;
        if open >= rest.len() {
            assert(node::views(done) + elements(old_rest, parent@, done.len(), at) =~= node::views(
                done,
            ));
            break;
        }
        let after = text::skip(rest, open + 1);
        let close = text::find(after, CharClass::Is('>'));
        if close >= after.len() {
            assert(node::views(done) + elements(old_rest, parent@, done.len(), at) =~= node::views(
                done,
            ));
            break;
        }
        let segment = text::string_of(text::take(after, close));
        rest = text::skip(after, close + 1);
        if let Some((tag, attrs)) = parse_tag_segment(segment.as_str()) {
            let id = node::make_child_id(parent, children.len());
            children.push(make_element(tag, attrs.as_str(), id.as_str(), at));
            proof {
                node::lemma_views_push(done, children@.last());
            }
        }
        assert(node::views(children@) + elements(rest@, parent@, children@.len(), at)
            =~= node::views(done) + elements(old_rest, parent@, done.len(), at));
    }
}

/// The nodes of the elements and interpolations in the template, line by line. `start_line` is
/// the number of the first line of `content`, and `id_prefix` the identifier of the parent.
pub fn extract_template_children(content: &str, start_line: u32, id_prefix: &str) -> (children:
    Vec<SemanticNode>)
    requires
        template_lines_fit(content@, start_line),
    ensures
        node::views(children@) == template_nodes(lines::lines(content@), start_line, id_prefix@),
{
    let all = lines::split_lines(content);
    let ghost texts = lines::lines(content@);
    let mut children: Vec<SemanticNode> = Vec::new();
    let mut i: usize = 0;
    assert(node::views(children@) =~= template_nodes(texts.take(0), start_line, id_prefix@));
    while i < all.len()
        invariant
            i <= all@.len(),
            template_lines_fit(content@, start_line),
            texts == lines::lines(content@),
            texts == text::views(all@),
            node::views(children@) == template_nodes(texts.take(i as int), start_line, id_prefix@),
        decreases all@.len() - i,
    {
        assert(texts.take(i + 1).drop_last() =~= texts.take(i as int));
        assert(texts[i as int] == all@[i as int]@);
        let ghost before = node::views(children@);
        let absolute_line = start_line + #[verifier::truncate] (i as u32);
        push_elements(&mut children, all[i].as_str(), id_prefix, absolute_line);
        let labels = extract_brace_labels(all[i].as_str());
        push_leaves(&mut children, labels, "interpolation", id_prefix, absolute_line);
        assert(node::views(children@) =~= before + line_nodes(
            texts[i as int],
            id_prefix@,
            before.len(),
            absolute_line,
        ));
        i += 1;
    }
    assert(texts.take(i as int) =~= texts);
    children
}

} // verus!
