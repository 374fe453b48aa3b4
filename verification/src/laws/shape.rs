//! What holds of the nodes in every tree: their types, their order and their lines.

use crate::component;
use crate::document;
use crate::frontmatter;
use crate::laws::labels;
use crate::lines;
use crate::node;
use crate::node::Node;
use crate::template;
use crate::text;
use crate::text::CharClass;
use vstd::prelude::*;

verus! {

/// Whether `n` is a node of the given type on line `at` alone, with neither hash nor children.
pub open spec fn is_leaf(n: Node, node_type: Seq<char>, at: u32) -> bool {
    n == node::leaf(n.id, node_type, n.label, at)
}

/// Whether `n` is an import, or a declaration with what it assigns, if anything, as its child.
pub open spec fn is_statement_node(n: Node) -> bool {
    ||| {
        &&& is_leaf(n, "import_statement"@, n.start_line)
        &&& text::begins_with(n.label, "import "@)
        &&& labels::is_clean(n.label)
    }
    ||| {
        &&& n.node_type == "variable_declaration"@
        &&& frontmatter::is_identifier(n.label)
        &&& n.end_line == n.start_line
        &&& n.children.len() <= 1
        &&& forall|i: int|
            0 <= i < n.children.len() ==> is_leaf(
                #[trigger] n.children[i],
                "declaration_value"@,
                n.start_line,
            ) && labels::is_clean(n.children[i].label)
    }
}

/// Whether `n` is an element with its attributes as children, or an interpolation.
pub open spec fn is_markup_node(n: Node) -> bool {
    ||| {
        &&& is_leaf(n, "interpolation"@, n.start_line)
        &&& labels::is_interpolation_label(n.label)
    }
    ||| {
        &&& n.node_type == "element"@
        &&& n.end_line == n.start_line
        &&& forall|i: int|
            0 <= i < n.children.len() ==> is_leaf(
                #[trigger] n.children[i],
                "attribute"@,
                n.start_line,
            ) && labels::is_attr_label(n.children[i].label)
    }
}

/// Whether a line of the frontmatter is an import or a declaration.
pub open spec fn holds_statement(line: Seq<char>) -> bool {
    ||| text::begins_with(frontmatter::normalized(line), "import "@)
    ||| frontmatter::declared_name(frontmatter::normalized(line)) is Some
}

/// Whether the nodes stand in the order of their lines.
pub open spec fn in_line_order(nodes: Seq<Node>) -> bool {
    forall|i: int, j: int|
        0 <= i <= j < nodes.len() ==> (#[trigger] nodes[i]).start_line <= (
        #[trigger] nodes[j]).start_line
}

/// Whether every node stands on one of the lines from `first` up to `end`.
pub open spec fn within_lines(nodes: Seq<Node>, first: int, end: int) -> bool {
    forall|i: int|
        0 <= i < nodes.len() ==> first <= (#[trigger] nodes[i]).start_line < end
            && nodes[i].end_line == nodes[i].start_line
}

/// A normalized statement has no white space at either end.
proof fn lemma_normalized_is_clean(line: Seq<char>)
    ensures
        frontmatter::normalized(line).len() > 0 ==> labels::is_clean(frontmatter::normalized(line)),
{
    let bare = text::trimmed(line);
    let uncomma = text::trimmed_end(bare, CharClass::Is(','));
    text::lemma_trimmed_matches(
        text::trimmed_end(uncomma, CharClass::Is(';')),
        CharClass::White,
    );
}

/// What a declaration assigns has no white space at either end.
proof fn lemma_value_is_clean(line: Seq<char>)
    ensures
        frontmatter::assigned_value(line).len() > 0 ==> labels::is_clean(
            frontmatter::assigned_value(line),
        ),
{
    let eq = text::first_index(line, CharClass::Is('='));
    let value = text::trimmed(line.skip(eq as int + 1));
    text::lemma_trimmed_matches(text::trimmed_end(value, CharClass::Is(';')), CharClass::White);
}

proof fn lemma_statement_types(all: Seq<Seq<char>>, start_line: u32, parent: Seq<char>)
    ensures
        forall|i: int|
            0 <= i < frontmatter::statements(all, start_line, parent).len() ==> is_statement_node(
                #[trigger] frontmatter::statements(all, start_line, parent)[i],
            ),
    decreases all.len(),
{
    if all.len() > 0 {
        lemma_statement_types(all.drop_last(), start_line, parent);
        let line = frontmatter::normalized(all.last());
        let before = frontmatter::statements(all.drop_last(), start_line, parent);
        let id = node::child_id(parent, before.len());
        let at = lines::line_number(start_line, (all.len() - 1) as nat);
        if let Some(n) = frontmatter::statement(line, id, at) {
            if text::begins_with(line, "import "@) {
                reveal_strlit("import ");
                lemma_normalized_is_clean(all.last());
                assert(is_leaf(n, "import_statement"@, n.start_line));
            } else {
                lemma_value_is_clean(line);
                assert(frontmatter::is_identifier(n.label));
                assert forall|i: int| 0 <= i < n.children.len() implies is_leaf(
                    #[trigger] n.children[i],
                    "declaration_value"@,
                    n.start_line,
                ) && labels::is_clean(n.children[i].label) by {}
            }
            assert(is_statement_node(n));
        }
    }
}

proof fn lemma_statement_lines(
    all: Seq<Seq<char>>,
    start_line: u32,
    parent: Seq<char>,
    end: int,
)
    requires
        end <= 0x1_0000_0000,
        forall|k: int|
            0 <= k < all.len() && holds_statement(#[trigger] all[k]) ==> start_line + k < end,
    ensures
        within_lines(frontmatter::statements(all, start_line, parent), start_line as int, end),
        within_lines(
            frontmatter::statements(all, start_line, parent),
            start_line as int,
            start_line + all.len(),
        ),
        in_line_order(frontmatter::statements(all, start_line, parent)),
    decreases all.len(),
{
    if all.len() > 0 {
        let earlier = all.drop_last();
        assert forall|k: int|
            0 <= k < earlier.len() && holds_statement(#[trigger] earlier[k]) implies start_line + k
            < end by {
            assert(earlier[k] == all[k]);
        }
        lemma_statement_lines(earlier, start_line, parent, end);
        let at = lines::line_number(start_line, (all.len() - 1) as nat);
        if holds_statement(all.last()) {
            assert(at == start_line + all.len() - 1);
        }
    }
}

proof fn lemma_element_types(line: Seq<char>, parent: Seq<char>, index: nat, at: u32)
    ensures
        forall|i: int|
            0 <= i < template::elements(line, parent, index, at).len() ==> {
                &&& is_markup_node(#[trigger] template::elements(line, parent, index, at)[i])
                &&& template::elements(line, parent, index, at)[i].start_line == at
                &&& template::elements(line, parent, index, at)[i].end_line == at
            },
    decreases line.len(),
{
    let open = text::first_index(line, CharClass::Is('<'));
    let after = line.skip(open as int + 1);
    let close = text::first_index(after, CharClass::Is('>'));
    if open < line.len() && close < after.len() {
        let rest = after.skip(close as int + 1);
        lemma_element_types(rest, parent, index + 1, at);
        lemma_element_types(rest, parent, index, at);
        if let Some((tag, attrs)) = template::opened_tag(after.take(close as int)) {
            let n = template::element(tag, attrs, node::child_id(parent, index), at);
            labels::law_attribute_labels(attrs);
            assert forall|i: int| 0 <= i < n.children.len() implies is_leaf(
                #[trigger] n.children[i],
                "attribute"@,
                n.start_line,
            ) && labels::is_attr_label(n.children[i].label) by {}
            assert(is_markup_node(n));
            let more = template::elements(rest, parent, index + 1, at);
            let nodes = template::elements(line, parent, index, at);
            assert(nodes =~= seq![n] + more);
            assert forall|i: int| 0 <= i < nodes.len() implies is_markup_node(#[trigger] nodes[i])
                && nodes[i].start_line == at && nodes[i].end_line == at by {
                if i > 0 {
                    assert(nodes[i] == more[i - 1]);
                } else {
                    assert(nodes[i] == n);
                }
            }
        } else {
            assert(template::elements(line, parent, index, at) == template::elements(
                rest,
                parent,
                index,
                at,
            ));
        }
    }
}

proof fn lemma_line_types(line: Seq<char>, parent: Seq<char>, index: nat, at: u32)
    ensures
        forall|i: int|
            0 <= i < template::line_nodes(line, parent, index, at).len() ==> {
                &&& is_markup_node(#[trigger] template::line_nodes(line, parent, index, at)[i])
                &&& template::line_nodes(line, parent, index, at)[i].start_line == at
                &&& template::line_nodes(line, parent, index, at)[i].end_line == at
            },
{
    let opened = template::elements(line, parent, index, at);
    lemma_element_types(line, parent, index, at);
    labels::law_interpolation_labels(line);
    let nodes = template::line_nodes(line, parent, index, at);
    assert forall|i: int| 0 <= i < nodes.len() implies is_markup_node(#[trigger] nodes[i])
        && nodes[i].start_line == at && nodes[i].end_line == at by {
        if i < opened.len() {
            assert(nodes[i] == opened[i]);
        } else {
            assert(is_leaf(nodes[i], "interpolation"@, at));
            assert(nodes[i].label == template::brace_labels(line)[i - opened.len()]);
        }
    }
}

proof fn lemma_template_types(all: Seq<Seq<char>>, start_line: u32, parent: Seq<char>)
    ensures
        forall|i: int|
            0 <= i < template::template_nodes(all, start_line, parent).len() ==> is_markup_node(
                #[trigger] template::template_nodes(all, start_line, parent)[i],
            ),
    decreases all.len(),
{
    if all.len() > 0 {
        lemma_template_types(all.drop_last(), start_line, parent);
        let before = template::template_nodes(all.drop_last(), start_line, parent);
        let at = lines::line_number(start_line, (all.len() - 1) as nat);
        lemma_line_types(all.last(), parent, before.len(), at);
    }
}

proof fn lemma_template_lines(all: Seq<Seq<char>>, start_line: u32, parent: Seq<char>)
    requires
        start_line + all.len() <= 0x1_0000_0000,
    ensures
        within_lines(
            template::template_nodes(all, start_line, parent),
            start_line as int,
            start_line + all.len(),
        ),
        in_line_order(template::template_nodes(all, start_line, parent)),
    decreases all.len(),
{
    if all.len() > 0 {
        lemma_template_lines(all.drop_last(), start_line, parent);
        let before = template::template_nodes(all.drop_last(), start_line, parent);
        let at = lines::line_number(start_line, (all.len() - 1) as nat);
        assert(at == start_line + all.len() - 1);
        lemma_line_types(all.last(), parent, before.len(), at);
    }
}

/// The root holds the frontmatter, then the template, each at most once; the frontmatter holds
/// imports and declarations, and the template elements and interpolations.
pub proof fn law_node_types(source: Seq<char>, filename: Seq<char>)
    ensures
        ({
            let root = component::tree(source, filename);
            let d = document::document(source);
            let shift: int = if d.frontmatter is Some {
                1
            } else {
                0
            };
            &&& root.node_type == "astro_component"@
            &&& root.children.len() == shift + (if d.template is Some {
                1int
            } else {
                0
            })
            &&& d.frontmatter is Some ==> {
                &&& root.children[0].node_type == "frontmatter_block"@
                &&& forall|i: int|
                    0 <= i < root.children[0].children.len() ==> is_statement_node(
                        #[trigger] root.children[0].children[i],
                    )
            }
            &&& d.template is Some ==> {
                &&& root.children[shift].node_type == "template_body"@
                &&& forall|i: int|
                    0 <= i < root.children[shift].children.len() ==> is_markup_node(
                        #[trigger] root.children[shift].children[i],
                    )
            }
        }),
{
    let root = component::tree(source, filename);
    let d = document::document(source);
    if let Some(b) = d.frontmatter {
        lemma_statement_types(
            lines::lines(b.content),
            b.content_start_line,
            root.children[0].id,
        );
    }
    if let Some(b) = d.template {
        let shift: int = if d.frontmatter is Some {
            1
        } else {
            0
        };
        lemma_template_types(
            lines::lines(b.content),
            b.content_start_line,
            root.children[shift].id,
        );
    }
}

/// The content of a block has no more lines than the block spans from the start of its content.
proof fn lemma_block_lines(source: Seq<char>)
    ensures
        ({
            let all = lines::lines(source);
            let open = document::opening_fence(all);
            let close = document::closing_fence(all);
            let total = all.len();
            &&& open < total && close < total ==> {
                &&& open < close
                &&& lines::lines(document::lines_between(all, open + 1, close)).len() <= close - open
                    - 1
                &&& lines::lines(document::lines_between(all, close + 1, total)).len() <= total
                    - close - 1
            }
        }),
{
    let all = lines::lines(source);
    let open = document::opening_fence(all);
    let close = document::closing_fence(all);
    lines::lemma_lines_hold_no_newline(source);
    document::lemma_next_nonblank(document::unmarked(all), 0);
    if open < all.len() && close < all.len() {
        document::lemma_next_fence(all, open + 1);
        lines::lemma_joined_lines_len(all.subrange(open as int + 1, close as int));
        lines::lemma_joined_lines_len(all.subrange(close as int + 1, all.len() as int));
    }
}

/// The nodes of a block stand in the order of their lines, each on a line that the block spans.
/// In a frontmatter that is never closed the lines are counted from the opening fence on as if
/// that were the first line of the source, so there the last statements must leave room for it.
pub proof fn law_nodes_within_blocks(source: Seq<char>, filename: Seq<char>)
    requires
        lines::lines(source).len() <= 0x1_0000_0000,
        ({
            let all = lines::lines(source);
            let open = document::opening_fence(all);
            open < all.len() && document::closing_fence(all) >= all.len() ==> forall|k: int|
                0 <= k < all.len() && holds_statement(#[trigger] all[k]) ==> open + k < all.len()
        }),
    ensures
        forall|k: int|
            #![trigger component::tree(source, filename).children[k]]
            0 <= k < component::tree(source, filename).children.len() ==> {
                let b = component::tree(source, filename).children[k];
                within_lines(b.children, b.start_line as int, b.end_line + 1) && in_line_order(
                    b.children,
                )
            },
{
    let root = component::tree(source, filename);
    let all = lines::lines(source);
    let d = document::document(source);
    lemma_block_lines(source);
    document::lemma_next_nonblank(document::unmarked(all), 0);
    if document::opening_fence(all) < all.len() {
        document::lemma_next_fence(all, document::opening_fence(all) + 1);
    }
    if let Some(b) = d.frontmatter {
        lemma_statement_lines(
            lines::lines(b.content),
            b.content_start_line,
            root.children[0].id,
            b.end_line + 1,
        );
    }
    if let Some(b) = d.template {
        let shift: int = if d.frontmatter is Some {
            1
        } else {
            0
        };
        lemma_template_lines(
            lines::lines(b.content),
            b.content_start_line,
            root.children[shift].id,
        );
    }
}

/// The line numbers of a component of up to two to the power of thirty-one lines fit.
pub proof fn law_ordinary_sources_fit(source: Seq<char>)
    requires
        lines::lines(source).len() <= 0x8000_0000,
    ensures
        component::line_numbers_fit(source),
{
    let all = lines::lines(source);
    lemma_block_lines(source);
    document::lemma_next_nonblank(document::unmarked(all), 0);
    if document::opening_fence(all) < all.len() {
        document::lemma_next_fence(all, document::opening_fence(all) + 1);
    }
}

} // verus!
