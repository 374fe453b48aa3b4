//! What holds of the identifiers in every tree.

use crate::component;
use crate::document;
use crate::frontmatter;
use crate::laws::texts;
use crate::lines;
use crate::node;
use crate::node::Node;
use crate::numerals;
use crate::template;
use crate::text;
use crate::text::CharClass;
use vstd::prelude::*;

verus! {

/// Whether every node below `n` has the identifier of its parent, a dot and its own index.
pub open spec fn numbered(n: Node) -> bool
    decreases n,
{
    forall|i: int|
        0 <= i < n.children.len() ==> (#[trigger] n.children[i]).id == node::child_id(
            n.id,
            i as nat,
        ) && numbered(n.children[i])
}

/// Whether the given nodes are numbered children of `parent`, the first at `index`.
spec fn numbered_from(nodes: Seq<Node>, parent: Seq<char>, index: nat) -> bool {
    forall|i: int|
        0 <= i < nodes.len() ==> (#[trigger] nodes[i]).id == node::child_id(
            parent,
            (index + i) as nat,
        ) && numbered(nodes[i])
}

/// A node with numbered children is numbered.
proof fn lemma_numbered(n: Node)
    requires
        numbered_from(n.children, n.id, 0),
    ensures
        numbered(n),
{
    assert forall|i: int| 0 <= i < n.children.len() implies (#[trigger] n.children[i]).id
        == node::child_id(n.id, i as nat) && numbered(n.children[i]) by {}
}

proof fn lemma_leaves_numbered(
    labels: Seq<Seq<char>>,
    node_type: Seq<char>,
    parent: Seq<char>,
    index: nat,
    at: u32,
)
    ensures
        numbered_from(template::leaves(labels, node_type, parent, index, at), parent, index),
{
}

proof fn lemma_statements_numbered(all: Seq<Seq<char>>, start_line: u32, parent: Seq<char>)
    ensures
        numbered_from(frontmatter::statements(all, start_line, parent), parent, 0),
    decreases all.len(),
{
    if all.len() > 0 {
        lemma_statements_numbered(all.drop_last(), start_line, parent);
        let before = frontmatter::statements(all.drop_last(), start_line, parent);
        let id = node::child_id(parent, before.len());
        let at = lines::line_number(start_line, (all.len() - 1) as nat);
        if let Some(n) = frontmatter::statement(frontmatter::normalized(all.last()), id, at) {
            assert(forall|i: int| 0 <= i < n.children.len() ==> numbered(#[trigger] n.children[i]));
            lemma_numbered(n);
        }
    }
}

proof fn lemma_elements_numbered(line: Seq<char>, parent: Seq<char>, index: nat, at: u32)
    ensures
        numbered_from(template::elements(line, parent, index, at), parent, index),
    decreases line.len(),
{
    let open = text::first_index(line, CharClass::Is('<'));
    let after = line.skip(open as int + 1);
    let close = text::first_index(after, CharClass::Is('>'));
    if open < line.len() && close < after.len() {
        let rest = after.skip(close as int + 1);
        match template::opened_tag(after.take(close as int)) {
            Some((tag, attrs)) => {
                let id = node::child_id(parent, index);
                let n = template::element(tag, attrs, id, at);
                lemma_leaves_numbered(template::attr_labels(attrs), "attribute"@, id, 0, at);
                lemma_numbered(n);
                lemma_elements_numbered(rest, parent, index + 1, at);
                let more = template::elements(rest, parent, index + 1, at);
                let nodes = template::elements(line, parent, index, at);
                assert(nodes =~= seq![n] + more);
                assert forall|i: int| 0 <= i < nodes.len() implies (#[trigger] nodes[i]).id
                    == node::child_id(parent, (index + i) as nat) && numbered(nodes[i]) by {
                    if i > 0 {
                        assert(nodes[i] == more[i - 1]);
                    }
                }
            },
            None => {
                lemma_elements_numbered(rest, parent, index, at);
            },
        }
    }
}

proof fn lemma_template_numbered(all: Seq<Seq<char>>, start_line: u32, parent: Seq<char>)
    ensures
        numbered_from(template::template_nodes(all, start_line, parent), parent, 0),
    decreases all.len(),
{
    if all.len() > 0 {
        lemma_template_numbered(all.drop_last(), start_line, parent);
        let before = template::template_nodes(all.drop_last(), start_line, parent);
        let at = lines::line_number(start_line, (all.len() - 1) as nat);
        let opened = template::elements(all.last(), parent, before.len(), at);
        lemma_elements_numbered(all.last(), parent, before.len(), at);
        lemma_leaves_numbered(
            template::brace_labels(all.last()),
            "interpolation"@,
            parent,
            before.len() + opened.len(),
            at,
        );
        let texts = template::leaves(
            template::brace_labels(all.last()),
            "interpolation"@,
            parent,
            before.len() + opened.len(),
            at,
        );
        let nodes = template::template_nodes(all, start_line, parent);
        assert(nodes =~= before + (opened + texts));
        assert forall|i: int| 0 <= i < nodes.len() implies (#[trigger] nodes[i]).id
            == node::child_id(parent, i as nat) && numbered(nodes[i]) by {
            if i < before.len() {
                assert(nodes[i] == before[i]);
            } else if i < before.len() + opened.len() {
                assert(nodes[i] == opened[i - before.len()]);
            } else {
                assert(nodes[i] == texts[i - before.len() - opened.len()]);
            }
        }
    }
}

/// Every node of a component has the identifier of its parent, a dot and its own index among the
/// children; the root is `0`.
pub proof fn law_tree_is_numbered(source: Seq<char>, filename: Seq<char>)
    ensures
        component::tree(source, filename).id == "0"@,
        numbered(component::tree(source, filename)),
{
    let root = component::tree(source, filename);
    let d = document::document(source);
    assert forall|i: int| 0 <= i < root.children.len() implies (#[trigger] root.children[i]).id
        == node::child_id(root.id, i as nat) && numbered(root.children[i]) by {
        let n = root.children[i];
        let b = if i == 0 && d.frontmatter is Some {
            d.frontmatter->0
        } else {
            d.template->0
        };
        if i == 0 && d.frontmatter is Some {
            lemma_statements_numbered(lines::lines(b.content), b.content_start_line, n.id);
        } else {
            lemma_template_numbered(lines::lines(b.content), b.content_start_line, n.id);
        }
        lemma_numbered(n);
    }
}

/// The node at the end of a path of child indices below `n`.
pub open spec fn at_path(n: Node, path: Seq<nat>) -> Option<Node>
    decreases path.len(),
{
    if path.len() == 0 {
        Some(n)
    } else if path[0] < n.children.len() {
        at_path(n.children[path[0] as int], path.drop_first())
    } else {
        None
    }
}

/// The identifier at the end of a path below the node `id`.
spec fn path_id(id: Seq<char>, path: Seq<nat>) -> Seq<char>
    decreases path.len(),
{
    if path.len() == 0 {
        id
    } else {
        path_id(node::child_id(id, path[0]), path.drop_first())
    }
}

proof fn lemma_path_id(n: Node, path: Seq<nat>)
    requires
        numbered(n),
        at_path(n, path) is Some,
    ensures
        at_path(n, path)->0.id == path_id(n.id, path),
    decreases path.len(),
{
    if path.len() > 0 {
        lemma_path_id(n.children[path[0] as int], path.drop_first());
    }
}

proof fn lemma_path_id_last(id: Seq<char>, path: Seq<nat>)
    requires
        path.len() > 0,
    ensures
        path_id(id, path) == node::child_id(path_id(id, path.drop_last()), path.last()),
    decreases path.len(),
{
    reveal_with_fuel(path_id, 2);
    if path.len() > 1 {
        lemma_path_id_last(node::child_id(id, path[0]), path.drop_first());
        assert(path.drop_first().drop_last() =~= path.drop_last().drop_first());
    }
}

/// An identifier tells its parent and its index.
proof fn lemma_child_id_injective(x: Seq<char>, a: nat, y: Seq<char>, b: nat)
    requires
        node::child_id(x, a) == node::child_id(y, b),
    ensures
        x == y,
        a == b,
{
    reveal_strlit(".");
    let da = numerals::decimal(a);
    let db = numerals::decimal(b);
    let s = node::child_id(x, a);
    numerals::lemma_decimal_digits(a);
    numerals::lemma_decimal_digits(b);
    if da.len() < db.len() {
        assert(s[s.len() - da.len() - 1] == '.');
        assert(s[s.len() - da.len() - 1] == db[db.len() - da.len() - 1]);
    } else if db.len() < da.len() {
        assert(s[s.len() - db.len() - 1] == '.');
        assert(s[s.len() - db.len() - 1] == da[da.len() - db.len() - 1]);
    }
    assert(da =~= s.skip(s.len() - da.len()));
    assert(db =~= s.skip(s.len() - db.len()));
    numerals::lemma_decimal_injective(a, b);
    assert(x =~= s.take(x.len() as int));
    assert(y =~= s.take(y.len() as int));
}

proof fn lemma_path_id_longer(id: Seq<char>, path: Seq<nat>)
    ensures
        path_id(id, path).len() >= id.len() + path.len(),
    decreases path.len(),
{
    if path.len() > 0 {
        reveal_strlit(".");
        lemma_path_id_longer(node::child_id(id, path[0]), path.drop_first());
    }
}

proof fn lemma_path_id_injective(id: Seq<char>, p: Seq<nat>, q: Seq<nat>)
    requires
        path_id(id, p) == path_id(id, q),
    ensures
        p == q,
    decreases p.len(),
{
    lemma_path_id_longer(id, p);
    lemma_path_id_longer(id, q);
    if p.len() > 0 && q.len() > 0 {
        lemma_path_id_last(id, p);
        lemma_path_id_last(id, q);
        lemma_child_id_injective(
            path_id(id, p.drop_last()),
            p.last(),
            path_id(id, q.drop_last()),
            q.last(),
        );
        lemma_path_id_injective(id, p.drop_last(), q.drop_last());
        assert(p =~= p.drop_last().push(p.last()));
        assert(q =~= q.drop_last().push(q.last()));
    } else {
        assert(p =~= q);
    }
}

/// No two nodes of a component share an identifier: nodes with the same identifier are reached by
/// the same path from the root.
pub proof fn law_ids_are_unique(source: Seq<char>, filename: Seq<char>, p: Seq<nat>, q: Seq<nat>)
    requires
        at_path(component::tree(source, filename), p) is Some,
        at_path(component::tree(source, filename), q) is Some,
        at_path(component::tree(source, filename), p)->0.id == at_path(
            component::tree(source, filename),
            q,
        )->0.id,
    ensures
        p == q,
{
    let root = component::tree(source, filename);
    law_tree_is_numbered(source, filename);
    lemma_path_id(root, p);
    lemma_path_id(root, q);
    lemma_path_id_injective(root.id, p, q);
}

/// The identifier of a child is that of its parent, a dot, and a decimal numeral that stands for its
/// index.
pub proof fn law_child_identifier(parent: Seq<char>, index: nat)
    ensures
        ({
            let id = node::child_id(parent, index);
            let numeral = id.skip(parent.len() as int + 1);
            &&& id.len() > parent.len() + 1
            &&& id.take(parent.len() as int) == parent
            &&& id[parent.len() as int] == '.'
            &&& texts::numeral_value(numeral, 10) == index
            &&& forall|i: int| 0 <= i < numeral.len() ==> '0' <= #[trigger] numeral[i] <= '9'
        }),
{
    reveal_strlit(".");
    let id = node::child_id(parent, index);
    texts::law_decimal_reads_back(index);
    numerals::lemma_decimal_digits(index);
    assert(id.skip(parent.len() as int + 1) =~= numerals::decimal(index));
    assert(id.take(parent.len() as int) =~= parent);
}

} // verus!
