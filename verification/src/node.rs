//! The semantic tree of a component.

use crate::numerals;
use vstd::prelude::*;

verus! {

/// What a node of the tree is. Lines and columns are counted from zero.
#[verifier::ext_equal]
pub struct Node {
    pub id: Seq<char>,
    pub node_type: Seq<char>,
    pub label: Seq<char>,
    pub start_line: u32,
    pub start_col: u32,
    pub end_line: u32,
    pub end_col: u32,
    pub content_hash: Seq<char>,
    pub children: Seq<Node>,
}

/// A node of the tree. Lines and columns are counted from zero.
pub struct SemanticNode {
    pub id: String,
    pub node_type: String,
    pub label: String,
    pub start_line: u32,
    pub start_col: u32,
    pub end_line: u32,
    pub end_col: u32,
    pub content_hash: String,
    pub children: Vec<SemanticNode>,
}

impl View for SemanticNode {
    type V = Node;

    open spec fn view(&self) -> Node
        decreases self,
    {
        Node {
            id: self.id@,
            node_type: self.node_type@,
            label: self.label@,
            start_line: self.start_line,
            start_col: self.start_col,
            end_line: self.end_line,
            end_col: self.end_col,
            content_hash: self.content_hash@,
            children: Seq::new(
                self.children@.len(),
                |i: int|
                    if 0 <= i < self.children@.len() {
                        self.children@[i]@
                    } else {
                        arbitrary()
                    },
            ),
        }
    }
}

/// The views of a sequence of nodes.
pub open spec fn views(nodes: Seq<SemanticNode>) -> Seq<Node> {
    nodes.map_values(|n: SemanticNode| n@)
}

/// The identifier of the child at `index` below the node `parent`.
pub open spec fn child_id(parent: Seq<char>, index: nat) -> Seq<char> {
    parent + "."@ + numerals::decimal(index)
}

/// A node that starts and ends at column zero.
pub open spec fn node(
    id: Seq<char>,
    node_type: Seq<char>,
    label: Seq<char>,
    start_line: u32,
    end_line: u32,
    content_hash: Seq<char>,
    children: Seq<Node>,
) -> Node {
    Node {
        id,
        node_type,
        label,
        start_line,
        start_col: 0,
        end_line,
        end_col: 0,
        content_hash,
        children,
    }
}

/// A node on one line, without children and without a hash of its own.
pub open spec fn leaf(id: Seq<char>, node_type: Seq<char>, label: Seq<char>, line: u32) -> Node {
    node(id, node_type, label, line, line, ""@, Seq::empty())
}

/// The children of a node's view are the views of its children.
pub proof fn lemma_view_children(n: SemanticNode)
    ensures
        n@.children == views(n.children@),
{
    reveal_with_fuel(<SemanticNode as View>::view, 2);
    assert(n@.children =~= views(n.children@));
}

/// Appending one node appends its view.
pub proof fn lemma_views_push(nodes: Seq<SemanticNode>, n: SemanticNode)
    ensures
        views(nodes.push(n)) == views(nodes).push(n@),
{
    assert(views(nodes.push(n)) =~= views(nodes).push(n@));
}

/// The identifier of the child at `index` below the node `parent`.
pub fn make_child_id(parent: &str, index: usize) -> (id: String)
    ensures
        id@ == child_id(parent@, index as nat),
{
    let mut id = parent.to_owned();
    id.append(".");
    let number = numerals::to_decimal(index);
    id.append(number.as_str());
    id
}

/// Builds a node that starts and ends at column zero.
pub fn make_node(
    id: &str,
    node_type: &str,
    label: String,
    start_line: u32,
    end_line: u32,
    content_hash: &str,
    children: Vec<SemanticNode>,
) -> (n: SemanticNode)
    ensures
        n@ == node(
            id@,
            node_type@,
            label@,
            start_line,
            end_line,
            content_hash@,
            views(children@),
        ),
{
    let n = SemanticNode {
        id: id.to_owned(),
        node_type: node_type.to_owned(),
        label,
        start_line,
        start_col: 0,
        end_line,
        end_col: 0,
        content_hash: content_hash.to_owned(),
        children,
    };
    proof {
        lemma_view_children(n);
    }
    n
}

/// Builds a node on one line, without children and without a hash of its own.
pub fn make_leaf(id: &str, node_type: &str, label: String, line: u32) -> (n: SemanticNode)
    ensures
        n@ == leaf(id@, node_type@, label@, line),
{
    let children: Vec<SemanticNode> = Vec::new();
    assert(views(children@) =~= Seq::empty());
    make_node(id, node_type, label, line, line, "", children)
}

} // verus!
