//! The tree of a whole component.

use crate::document;
use crate::document::{Block, ParsedBlock};
use crate::frontmatter;
use crate::hash;
use crate::json;
use crate::lines;
use crate::node;
use crate::node::{Node, SemanticNode};
use crate::template;
use crate::text;
use crate::text::CharClass;
use vstd::prelude::*;

verus! {

/// The label of a component: the stem of its file name, which is the last part of the path without
/// the last dot and what follows it. A name without a dot is its own stem, and a name whose only
/// dot stands at its start has an empty one. A path without a name gives `component`.
pub open spec fn stem(filename: Seq<char>) -> Seq<char> {
    let name = text::after_last(filename, CharClass::PathBreak);
    let extension = text::after_last(name, CharClass::Is('.'));
    if name.len() == 0 {
        "component"@
    } else if extension.len() < name.len() {
        name.take(name.len() - extension.len() - 1)
    } else {
        name
    }
}

/// The identifier of the root.
pub open spec fn root_id() -> Seq<char> {
    "0"@
}

/// The node of the frontmatter.
pub open spec fn frontmatter_node(b: Block, index: nat) -> Node {
    let id = node::child_id(root_id(), index);
    node::node(
        id,
        "frontmatter_block"@,
        "frontmatter"@,
        b.start_line,
        b.end_line,
        b.hash,
        frontmatter::statements(lines::lines(b.content), b.content_start_line, id),
    )
}

/// The node of the template.
pub open spec fn template_node(b: Block, index: nat) -> Node {
    let id = node::child_id(root_id(), index);
    node::node(
        id,
        "template_body"@,
        "template"@,
        b.start_line,
        b.end_line,
        b.hash,
        template::template_nodes(lines::lines(b.content), b.content_start_line, id),
    )
}

/// The nodes of the blocks: the frontmatter, then the template.
pub open spec fn block_nodes(d: document::Document) -> Seq<Node> {
    let first = match d.frontmatter {
        Some(b) => seq![frontmatter_node(b, 0)],
        None => Seq::empty(),
    };
    match d.template {
        Some(b) => first.push(template_node(b, first.len())),
        None => first,
    }
}

/// The hashes of the blocks: the frontmatter's, then the template's.
pub open spec fn block_hashes(d: document::Document) -> Seq<Seq<char>> {
    let first = match d.frontmatter {
        Some(b) => seq![b.hash],
        None => Seq::empty(),
    };
    match d.template {
        Some(b) => first.push(b.hash),
        None => first,
    }
}

/// The number of the last line of a text; zero for an empty text.
pub open spec fn last_line(source: Seq<char>) -> u32 {
    let total = lines::lines(source).len();
    if total > 0 {
        (total - 1) as u32
    } else {
        0
    }
}

/// The tree of a component: a root over the blocks, whose hash covers those of the blocks.
pub open spec fn tree(source: Seq<char>, filename: Seq<char>) -> Node {
    let d = document::document(source);
    node::node(
        root_id(),
        "astro_component"@,
        stem(filename),
        0,
        last_line(source),
        hash::text_hash(lines::joined(block_hashes(d), "|"@)),
        block_nodes(d),
    )
}

/// Whether the number of every line that gets nodes fits in thirty-two bits.
pub open spec fn line_numbers_fit(source: Seq<char>) -> bool {
    let d = document::document(source);
    &&& d.frontmatter matches Some(b) ==> frontmatter::statement_lines_fit(
        b.content,
        b.content_start_line,
    )
    &&& d.template matches Some(b) ==> template::template_lines_fit(
        b.content,
        b.content_start_line,
    )
}

/// Whether the number of every line that gets nodes fits in thirty-two bits, as it does in every
/// component of ordinary length.
pub fn check_line_numbers(source: &str) -> (fit: bool)
    ensures
        fit == line_numbers_fit(source@),
{
    let parsed = document::parse_astro(source);
    let frontmatter_fits = match &parsed.frontmatter {
        Some(b) => frontmatter::check_statement_lines(b.content.as_str(), b.content_start_line),
        None => true,
    };
    let template_fits = match &parsed.template {
        Some(b) => template::check_template_lines(b.content.as_str(), b.content_start_line),
        None => true,
    };
    frontmatter_fits && template_fits
}

/// The label of a component with the given file name.
fn find_stem(filename: &str) -> (label: String)
    ensures
        label@ == stem(filename@),
{
    let chars = text::chars_of(filename);
    let name = text::skip_past_last(chars.as_slice(), CharClass::PathBreak);
    let extension = text::skip_past_last(name, CharClass::Is('.'));
    if name.len() == 0 {
        "component".to_owned()
    } else if extension.len() < name.len() {
        text::string_of(text::take(name, name.len() - extension.len() - 1))
    } else {
        text::string_of(name)
    }
}

/// Builds the node of the frontmatter.
fn make_frontmatter(b: &ParsedBlock, index: usize) -> (n: SemanticNode)
    requires
        frontmatter::statement_lines_fit(b.content@, b.content_start_line),
    ensures
        n@ == frontmatter_node(b@, index as nat),
{
    let id = node::make_child_id("0", index);
    let children = frontmatter::extract_frontmatter_children(
        b.content.as_str(),
        b.content_start_line,
        id.as_str(),
    );
    node::make_node(
        id.as_str(),
        "frontmatter_block",
        "frontmatter".to_owned(),
        b.start_line,
        b.end_line,
        b.hash.as_str(),
        children,
    )
}

/// Builds the node of the template.
fn make_template(b: &ParsedBlock, index: usize) -> (n: SemanticNode)
    requires
        template::template_lines_fit(b.content@, b.content_start_line),
    ensures
        n@ == template_node(b@, index as nat),
{
    let id = node::make_child_id("0", index);
    let children = template::extract_template_children(
        b.content.as_str(),
        b.content_start_line,
        id.as_str(),
    );
    node::make_node(
        id.as_str(),
        "template_body",
        "template".to_owned(),
        b.start_line,
        b.end_line,
        b.hash.as_str(),
        children,
    )
}

/// Builds the tree of a component.
pub fn parse_component(source: &str, filename: &str) -> (root: SemanticNode)
    requires
        line_numbers_fit(source@),
    ensures
        root@ == tree(source@, filename@),
{
    let parsed = document::parse_astro(source);
    let ghost d = document::document(source@);
    let line_count = lines::split_lines(source).len();
    let end_line: u32 = if line_count > 0 {
        #[verifier::truncate] ((line_count - 1) as u32)
    } else {
        0
    };
    let mut children: Vec<SemanticNode> = Vec::new();
    let mut hashes: Vec<String> = Vec::new();
    assert(node::views(children@) =~= Seq::empty());
    assert(text::views(hashes@) =~= Seq::empty());
    if let Some(b) = &parsed.frontmatter {
        hashes.push(b.hash.clone());
        children.push(make_frontmatter(b, children.len()));
        assert(node::views(children@) =~= seq![frontmatter_node(b@, 0)]);
        assert(text::views(hashes@) =~= seq![b@.hash]);
    }
    if let Some(b) = &parsed.template {
        let ghost done = children@;
        let ghost done_hashes = hashes@;
        hashes.push(b.hash.clone());
        children.push(make_template(b, children.len()));
        proof {
            node::lemma_views_push(done, children@.last());
            text::lemma_views_push(done_hashes, hashes@.last());
        }
    }
    assert(text::views(hashes@).subrange(0, hashes@.len() as int) =~= block_hashes(d));
    let joined = lines::join(&hashes, 0, hashes.len(), "|");
    let root_hash = hash::content_hash(joined.as_str());
    node::make_node(
        "0",
        "astro_component",
        find_stem(filename),
        0,
        end_line,
        root_hash.as_str(),
        children,
    )
}

/// The tree of a component as JSON text.
pub fn process_impl(source: &str, filename: &str) -> (out: String)
    requires
        line_numbers_fit(source@),
    ensures
        out@ == json::json_text(json::node_json(tree(source@, filename@))),
{
    let root = parse_component(source, filename);
    json::to_json(&root)
}

} // verus!
