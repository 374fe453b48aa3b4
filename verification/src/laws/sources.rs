//! What the blocks and the tree of a component hold, stated by how its source is put together.

use crate::component;
use crate::document;
use crate::document::{Block, Document};
use crate::frontmatter;
use crate::hash;
use crate::laws::hashing;
use crate::laws::statements;
use crate::laws::texts;
use crate::lines;
use crate::node;
use crate::template;
use crate::text;
use crate::text::CharClass;
use vstd::prelude::*;

verus! {

/// The hash of every block of every source is the hash of the whole of its content.
pub proof fn law_block_hashes(source: Seq<char>)
    ensures
        document::document(source).frontmatter matches Some(b) ==> b.hash == hash::text_hash(
            b.content,
        ),
        document::document(source).template matches Some(b) ==> b.hash == hash::text_hash(
            b.content,
        ),
{
}

/// Whether `edited` is `block` with one ASCII character of its content replaced by another.
pub open spec fn is_edited(block: Block, edited: Block, index: int, c: char) -> bool {
    &&& 0 <= index < block.content.len()
    &&& block.content[index] <= '\u{7f}'
    &&& c <= '\u{7f}'
    &&& c != block.content[index]
    &&& edited.content == block.content.update(index, c)
}

/// Replacing one ASCII character by another anywhere in the content of a block changes the hash of
/// that block, whichever sources the two blocks come from.
pub proof fn law_block_edit_changes_hash(
    source: Seq<char>,
    edited: Seq<char>,
    index: int,
    c: char,
)
    ensures
        ({
            let a = document::document(source);
            let b = document::document(edited);
            &&& a.frontmatter is Some && b.frontmatter is Some && is_edited(
                a.frontmatter->0,
                b.frontmatter->0,
                index,
                c,
            ) ==> a.frontmatter->0.hash != b.frontmatter->0.hash
            &&& a.template is Some && b.template is Some && is_edited(
                a.template->0,
                b.template->0,
                index,
                c,
            ) ==> a.template->0.hash != b.template->0.hash
        }),
{
    let a = document::document(source);
    let b = document::document(edited);
    law_block_hashes(source);
    law_block_hashes(edited);
    if a.frontmatter is Some && b.frontmatter is Some && is_edited(
        a.frontmatter->0,
        b.frontmatter->0,
        index,
        c,
    ) {
        hashing::law_edit_changes_hash(a.frontmatter->0.content, index, c);
    }
    if a.template is Some && b.template is Some && is_edited(
        a.template->0,
        b.template->0,
        index,
        c,
    ) {
        hashing::law_edit_changes_hash(a.template->0.content, index, c);
    }
}

/// A line is a fence just where three hyphens stand on it with nothing but white space around them,
/// and it is blank just where it holds nothing but white space.
pub proof fn law_fence_lines(before: Seq<char>, inner: Seq<char>, after: Seq<char>)
    requires
        texts::is_all(before, CharClass::White),
        texts::is_bare(inner, CharClass::White),
        texts::is_all(after, CharClass::White),
    ensures
        document::is_fence(before + inner + after) == (inner == "---"@),
        document::is_blank(before + inner + after) == (inner.len() == 0),
{
    texts::law_strip(before, inner, after, CharClass::White);
}

/// A line of white space is blank.
proof fn lemma_blank(line: Seq<char>)
    requires
        texts::is_all(line, CharClass::White),
    ensures
        document::is_blank(line),
        document::without_mark(line) == line,
{
    let none = Seq::<char>::empty();
    assert(line + none + none =~= line);
    law_fence_lines(line, none, none);
    if line.len() > 0 {
        assert(CharClass::White.has(line[0]));
    }
}

/// The lines of a text of white space are blank.
proof fn lemma_blank_lines(s: Seq<char>)
    requires
        texts::is_all(s, CharClass::White),
    ensures
        are_blank(lines::lines(s)),
    decreases s.len(),
{
    let newline = CharClass::Is('\n');
    let end = text::first_index(s, newline) as int;
    text::lemma_first_index(s, newline);
    let all = lines::lines(s);
    if s.len() == 0 {
    } else if end < s.len() {
        let rest = s.skip(end + 1);
        assert forall|i: int| 0 <= i < rest.len() implies CharClass::White.has(
            #[trigger] rest[i],
        ) by {
            assert(rest[i] == s[i + end + 1]);
        }
        lemma_blank_lines(rest);
        let first = lines::without_return(s.take(end));
        assert forall|i: int| 0 <= i < first.len() implies CharClass::White.has(
            #[trigger] first[i],
        ) by {
            assert(first[i] == s[i]);
        }
        lemma_blank(first);
        assert(all == seq![first] + lines::lines(rest));
        assert forall|i: int| 0 <= i < all.len() implies #[trigger] is_plain_blank(all[i]) by {
            if i > 0 {
                assert(all[i] == lines::lines(rest)[i - 1]);
                assert(is_plain_blank(lines::lines(rest)[i - 1]));
            }
        }
    } else {
        lemma_blank(s);
        assert(all == seq![s]);
        assert(is_plain_blank(all[0]));
    }
}

spec fn is_plain_blank(line: Seq<char>) -> bool {
    document::is_blank(line) && document::without_mark(line) == line
}

spec fn are_blank(all: Seq<Seq<char>>) -> bool {
    forall|i: int| 0 <= i < all.len() ==> #[trigger] is_plain_blank(all[i])
}

/// Whether a text is white space up to the end of a line, or empty.
pub open spec fn is_blank_start(s: Seq<char>) -> bool {
    texts::is_all(s, CharClass::White) && (s.len() > 0 ==> s.last() == '\n')
}

/// Whether a text is one line of three hyphens and white space around them.
pub open spec fn is_fence_text(s: Seq<char>) -> bool {
    !s.contains('\n') && exists|before: Seq<char>, after: Seq<char>|
        texts::is_all(before, CharClass::White) && texts::is_all(after, CharClass::White) && s
            == #[trigger] (before + "---"@ + after)
}

/// Whether no line of a text is a fence.
pub open spec fn holds_no_fence(s: Seq<char>) -> bool {
    forall|i: int|
        0 <= i < lines::lines(s).len() ==> !document::is_fence(#[trigger] lines::lines(s)[i])
}

/// A line of a fence is one, with or without the carriage return at its end.
proof fn lemma_fence_text(s: Seq<char>)
    requires
        is_fence_text(s),
    ensures
        document::is_fence(s),
        s.len() > 0,
        document::is_fence(lines::without_return(s)),
        !document::is_blank(lines::without_return(s)),
        document::without_mark(lines::without_return(s)) == lines::without_return(s),
{
    reveal_strlit("---");
    let (before, after) = choose|before: Seq<char>, after: Seq<char>|
        texts::is_all(before, CharClass::White) && texts::is_all(after, CharClass::White) && s
            == #[trigger] (before + "---"@ + after);
    let line = lines::without_return(s);
    law_fence_lines(before, "---"@, after);
    if s.last() == '\r' {
        if after.len() == 0 {
            assert(s.last() == "---"@[2]);
        }
        assert(line =~= before + "---"@ + after.drop_last());
        law_fence_lines(before, "---"@, after.drop_last());
    } else {
        law_fence_lines(before, "---"@, after);
    }
    if before.len() > 0 {
        assert(CharClass::White.has(before[0]));
        assert(line[0] == before[0]);
    } else {
        assert(line[0] == '-');
    }
}

/// The opening fence is the first line that is not blank.
proof fn lemma_opening_fence(all: Seq<Seq<char>>, k: nat)
    requires
        k < all.len(),
        are_blank(all.take(k as int)),
        document::is_fence(all[k as int]),
        !document::is_blank(all[k as int]),
        document::without_mark(all[k as int]) == all[k as int],
    ensures
        document::opening_fence(all) == k,
{
    let seen = document::unmarked(all);
    assert forall|i: int| 0 <= i < k implies is_plain_blank(#[trigger] all[i]) by {
        assert(is_plain_blank(all.take(k as int)[i]));
    }
    if k > 0 {
        assert(is_plain_blank(all[0]));
    }
    assert(seen =~= all);
    document::lemma_next_nonblank(seen, 0);
    let first = document::next_nonblank(seen, 0);
    if first < k {
        assert(is_plain_blank(all[first as int]));
    }
}

/// A component that opens its frontmatter on the first line that is not blank, and closes it later,
/// has what stands between the two fences as its frontmatter, and what follows the second as its
/// template, each with its own lines: the lines there, with a line feed between each two. Where the
/// lines end in plain line feeds, that is the text as it stands but for the line feed at its end.
pub proof fn law_divided_component(
    blank: Seq<char>,
    opening: Seq<char>,
    body: Seq<char>,
    closing: Seq<char>,
    rest: Seq<char>,
)
    requires
        is_blank_start(blank),
        is_fence_text(opening),
        body.len() > 0 ==> body.last() == '\n',
        holds_no_fence(body),
        is_fence_text(closing),
        lines::lines(blank).len() + lines::lines(body).len() + lines::lines(rest).len() + 2
            <= u32::MAX,
    ensures
        ({
            let d = document::document(
                blank + opening + "\n"@ + body + closing + "\n"@ + rest,
            );
            let open = lines::lines(blank).len();
            let close = open + lines::lines(body).len() + 1;
            &&& d.frontmatter matches Some(f)
            &&& f.content == lines::joined(lines::lines(body), "\n"@)
            &&& lines::has_plain_line_ends(body) ==> f.content == lines::without_final_newline(
                body,
            )
            &&& f.start_line == open
            &&& f.content_start_line == open + 1
            &&& f.end_line == close
            &&& d.template is Some == (rest.len() > 0)
            &&& d.template matches Some(t) ==> {
                &&& t.content == lines::joined(lines::lines(rest), "\n"@)
                &&& lines::has_plain_line_ends(rest) ==> t.content
                    == lines::without_final_newline(rest)
                &&& t.start_line == close + 1
                &&& t.content_start_line == close + 1
                &&& t.end_line == close + lines::lines(rest).len()
            }
        }),
{
    reveal_strlit("\n");
    let source = blank + opening + "\n"@ + body + closing + "\n"@ + rest;
    let last = closing + "\n"@ + rest;
    let inner = opening + "\n"@ + (body + last);
    let a = lines::lines(blank);
    let b = lines::lines(body);
    let c = lines::lines(rest);
    let o = lines::without_return(opening);
    let e = lines::without_return(closing);
    assert(source =~= blank + inner);
    texts::law_lines_concat(blank, inner);
    lines::lemma_lines_of_first(opening, body + last);
    texts::law_lines_concat(body, last);
    lines::lemma_lines_of_first(closing, rest);
    let all = lines::lines(source);
    assert(all =~= a + (seq![o] + (b + (seq![e] + c))));
    lemma_blank_lines(blank);
    lemma_fence_text(opening);
    lemma_fence_text(closing);
    let open = a.len();
    let close = open + b.len() + 1;
    assert(all.take(open as int) =~= a);
    assert(all[open as int] == o);
    lemma_opening_fence(all, open);
    document::lemma_next_fence(all, open + 1);
    assert(all[close as int] == e);
    let found = document::next_fence(all, open + 1);
    assert(found == close) by {
        if found < close {
            let i = found - open - 1;
            assert(all[found as int] == b[i]);
        } else if found > close {
            assert(document::is_fence(all[close as int]));
        }
    }
    assert(all.subrange(open as int + 1, close as int) =~= b);
    assert(all.subrange(close as int + 1, all.len() as int) =~= c);
    if lines::has_plain_line_ends(body) {
        lines::lemma_lines_joined(body);
    }
    if lines::has_plain_line_ends(rest) {
        lines::lemma_lines_joined(rest);
    }
    lines::lemma_lines_len(rest);
}

/// A component that ends with the line of its closing fence has no template.
pub proof fn law_component_without_template(
    blank: Seq<char>,
    opening: Seq<char>,
    body: Seq<char>,
    closing: Seq<char>,
)
    requires
        is_blank_start(blank),
        is_fence_text(opening),
        body.len() > 0 ==> body.last() == '\n',
        holds_no_fence(body),
        is_fence_text(closing),
        lines::lines(blank).len() + lines::lines(body).len() + 2 <= u32::MAX,
    ensures
        ({
            let d = document::document(blank + opening + "\n"@ + body + closing);
            let open = lines::lines(blank).len();
            &&& d.template is None
            &&& d.frontmatter matches Some(f)
            &&& f.content == lines::joined(lines::lines(body), "\n"@)
            &&& f.start_line == open
            &&& f.content_start_line == open + 1
            &&& f.end_line == open + lines::lines(body).len() + 1
        }),
{
    reveal_strlit("\n");
    reveal_strlit("---");
    let source = blank + opening + "\n"@ + body + closing;
    let inner = opening + "\n"@ + (body + closing);
    let a = lines::lines(blank);
    let b = lines::lines(body);
    let o = lines::without_return(opening);
    assert(source =~= blank + inner);
    texts::law_lines_concat(blank, inner);
    lines::lemma_lines_of_first(opening, body + closing);
    texts::law_lines_concat(body, closing);
    texts::law_last_line(closing);
    let all = lines::lines(source);
    lemma_blank_lines(blank);
    lemma_fence_text(opening);
    lemma_fence_text(closing);
    assert(all =~= a + (seq![o] + (b + seq![closing])));
    let open = a.len();
    let close = open + b.len() + 1;
    assert(all.take(open as int) =~= a);
    assert(all[open as int] == o);
    lemma_opening_fence(all, open);
    document::lemma_next_fence(all, open + 1);
    assert(all[close as int] == closing);
    let found = document::next_fence(all, open + 1);
    assert(found == close) by {
        if found < close {
            let i = found - open - 1;
            assert(all[found as int] == b[i]);
        } else if found > close {
            assert(document::is_fence(all[close as int]));
        }
    }
    assert(all.subrange(open as int + 1, close as int) =~= b);
}

/// A component that opens its frontmatter and never closes it is all frontmatter, from the fence to
/// the last line, with the whole source as its content.
pub proof fn law_unclosed_component(blank: Seq<char>, opening: Seq<char>, rest: Seq<char>)
    requires
        is_blank_start(blank),
        is_fence_text(opening),
        holds_no_fence(rest),
        lines::lines(blank).len() + lines::lines(rest).len() + 1 <= u32::MAX,
    ensures
        ({
            let source = blank + opening + "\n"@ + rest;
            let d = document::document(source);
            let open = lines::lines(blank).len();
            &&& d.template is None
            &&& d.frontmatter matches Some(f)
            &&& f.content == source
            &&& f.start_line == open
            &&& f.content_start_line == open
            &&& f.end_line == open + lines::lines(rest).len()
        }),
{
    reveal_strlit("\n");
    let source = blank + opening + "\n"@ + rest;
    let inner = opening + "\n"@ + rest;
    let a = lines::lines(blank);
    let b = lines::lines(rest);
    let o = lines::without_return(opening);
    assert(source =~= blank + inner);
    texts::law_lines_concat(blank, inner);
    lines::lemma_lines_of_first(opening, rest);
    let all = lines::lines(source);
    assert(all =~= a + (seq![o] + b));
    lemma_blank_lines(blank);
    lemma_fence_text(opening);
    let open = a.len();
    assert(all.take(open as int) =~= a);
    assert(all[open as int] == o);
    lemma_opening_fence(all, open);
    document::lemma_next_fence(all, open + 1);
    let found = document::next_fence(all, open + 1);
    assert(found == all.len()) by {
        if found < all.len() {
            let i = found - open - 1;
            assert(all[found as int] == b[i]);
        }
    }
}

/// A component whose first line that is not blank is no fence is all template, from line zero to
/// the last line, with the whole source as its content.
pub proof fn law_component_without_frontmatter(blank: Seq<char>, first: Seq<char>, rest: Seq<char>)
    requires
        is_blank_start(blank),
        !first.contains('\n'),
        first.len() > 0 && first[0] != '\u{feff}',
        !texts::is_all(first, CharClass::White),
        !is_fence_text(first),
        lines::lines(blank).len() + lines::lines(rest).len() + 1 <= u32::MAX,
    ensures
        ({
            let source = blank + first + "\n"@ + rest;
            let d = document::document(source);
            &&& d.frontmatter is None
            &&& d.template matches Some(t)
            &&& t.content == source
            &&& t.start_line == 0
            &&& t.content_start_line == 0
            &&& t.end_line == lines::lines(blank).len() + lines::lines(rest).len()
        }),
{
    reveal_strlit("\n");
    let source = blank + first + "\n"@ + rest;
    let inner = first + "\n"@ + rest;
    let a = lines::lines(blank);
    let b = lines::lines(rest);
    let line = lines::without_return(first);
    assert(source =~= blank + inner);
    texts::law_lines_concat(blank, inner);
    lines::lemma_lines_of_first(first, rest);
    let all = lines::lines(source);
    assert(all =~= a + (seq![line] + b));
    lemma_blank_lines(blank);
    let k = a.len();
    assert(all[k as int] == line);
    lemma_plain_first(first);
    let seen = document::unmarked(all);
    assert forall|i: int| 0 <= i < k implies is_plain_blank(#[trigger] all[i]) by {
        assert(all[i] == a[i]);
    }
    if k > 0 {
        assert(is_plain_blank(all[0]));
    }
    assert(seen =~= all);
    document::lemma_next_nonblank(seen, 0);
    let found = document::next_nonblank(seen, 0);
    assert(found == k) by {
        if found < k {
            assert(is_plain_blank(all[found as int]));
        } else if found > k {
            assert(document::is_blank(seen[k as int]));
        }
    }
}

/// A line that is neither blank nor a fence stays so without the carriage return at its end.
proof fn lemma_plain_first(first: Seq<char>)
    requires
        !first.contains('\n'),
        first.len() > 0 && first[0] != '\u{feff}',
        !texts::is_all(first, CharClass::White),
        !is_fence_text(first),
    ensures
        ({
            let line = lines::without_return(first);
            &&& !document::is_blank(line)
            &&& !document::is_fence(line)
            &&& document::without_mark(line) == line
        }),
{
    let white = CharClass::White;
    let line = lines::without_return(first);
    let tail = if line.len() < first.len() {
        seq!['\r']
    } else {
        Seq::empty()
    };
    assert(first =~= line + tail);
    let start = text::trimmed_start(line, white);
    text::lemma_trimmed_start(line, white);
    let bare = text::trimmed(line);
    text::lemma_trimmed_matches(line, white);
    text::lemma_trimmed_end(start, white);
    let before = line.take(line.len() - start.len());
    let after = start.skip(bare.len() as int);
    assert(line =~= before + bare + after);
    assert(texts::is_all(before, white)) by {
        assert forall|i: int| 0 <= i < before.len() implies white.has(#[trigger] before[i]) by {
            assert(before[i] == line[i]);
        }
    }
    assert(texts::is_all(after, white)) by {
        assert forall|i: int| 0 <= i < after.len() implies white.has(#[trigger] after[i]) by {
            assert(after[i] == start[i + bare.len()]);
        }
    }
    let end = after + tail;
    assert(texts::is_all(end, white)) by {
        assert forall|i: int| 0 <= i < end.len() implies white.has(#[trigger] end[i]) by {
            if i < after.len() {
                assert(end[i] == after[i]);
            }
        }
    }
    assert(first =~= before + bare + end);
    if bare.len() == 0 {
        assert forall|i: int| 0 <= i < first.len() implies white.has(#[trigger] first[i]) by {
            if i < before.len() {
                assert(first[i] == before[i]);
            } else {
                assert(first[i] == end[i - before.len()]);
            }
        }
    }
    if bare == "---"@ {
        assert(first == before + "---"@ + end);
    }
    if line.len() > 0 {
        assert(line[0] == first[0]);
    }
}

/// Whether `n` is the node of a block: it spans the lines of the block, and its hash is the hash of
/// the whole of the block's content.
pub open spec fn is_block_node(
    n: node::Node,
    id: Seq<char>,
    node_type: Seq<char>,
    label: Seq<char>,
    b: Block,
) -> bool {
    &&& n.id == id
    &&& n.node_type == node_type
    &&& n.label == label
    &&& n.start_line == b.start_line
    &&& n.end_line == b.end_line
    &&& n.start_col == 0
    &&& n.end_col == 0
    &&& n.content_hash == hash::text_hash(b.content)
}

/// How many blocks a component has.
pub open spec fn block_count(d: Document) -> nat {
    if d.frontmatter is Some && d.template is Some {
        2
    } else if d.frontmatter is Some || d.template is Some {
        1
    } else {
        0
    }
}

/// The root is labelled with the stem of the file name and spans the source. Its children are the
/// nodes of the blocks, the frontmatter before the template, and
/// the children of these are the nodes of the lines of their content, counted from where the
/// content starts.
pub proof fn law_tree_of_blocks(source: Seq<char>, filename: Seq<char>)
    ensures
        ({
            let d = document::document(source);
            let root = component::tree(source, filename);
            let nodes = root.children;
            &&& root.id == "0"@
            &&& root.node_type == "astro_component"@
            &&& root.label == component::stem(filename)
            &&& root.start_line == 0 && root.start_col == 0 && root.end_col == 0
            &&& 0 < lines::lines(source).len() <= u32::MAX ==> root.end_line == lines::lines(
                source,
            ).len() - 1
            &&& source.len() == 0 ==> root.end_line == 0
            &&& nodes.len() == block_count(d)
            &&& d.frontmatter matches Some(b) ==> {
                let id = node::child_id("0"@, 0);
                &&& is_block_node(nodes[0], id, "frontmatter_block"@, "frontmatter"@, b)
                &&& nodes[0].children == frontmatter::statements(
                    lines::lines(b.content),
                    b.content_start_line,
                    id,
                )
            }
            &&& d.template matches Some(b) ==> {
                let k = nodes.len() - 1;
                let id = node::child_id("0"@, k as nat);
                &&& is_block_node(nodes[k], id, "template_body"@, "template"@, b)
                &&& nodes[k].children == template::template_nodes(
                    lines::lines(b.content),
                    b.content_start_line,
                    id,
                )
            }
        }),
{
    law_block_hashes(source);
}

/// The hash of the root is the hash of its children's hashes with a bar between them: of the one
/// hash where there is one child, and of nothing where there is none.
pub proof fn law_root_hash(source: Seq<char>, filename: Seq<char>)
    ensures
        ({
            let root = component::tree(source, filename);
            let nodes = root.children;
            &&& nodes.len() == 2 ==> root.content_hash == hash::text_hash(
                nodes[0].content_hash + "|"@ + nodes[1].content_hash,
            )
            &&& nodes.len() == 1 ==> root.content_hash == hash::text_hash(nodes[0].content_hash)
            &&& nodes.len() == 0 ==> root.content_hash == hash::text_hash(Seq::empty())
            &&& nodes.len() <= 2
        }),
{
    let d = document::document(source);
    let hashes = component::block_hashes(d);
    let none = Seq::<Seq<char>>::empty();
    if hashes.len() == 2 {
        assert(hashes =~= seq![hashes[0]] + seq![hashes[1]]);
        texts::law_join(hashes[0], seq![hashes[1]], "|"@);
        texts::law_join(hashes[1], none, "|"@);
    } else if hashes.len() == 1 {
        assert(hashes =~= seq![hashes[0]]);
        texts::law_join(hashes[0], none, "|"@);
    } else {
        assert(hashes =~= none);
        texts::law_join(Seq::empty(), none, "|"@);
    }
}

/// A declaration between the fences of a component is in its tree: the node of the frontmatter has a
/// child on the line of the declaration, labelled with the name, and that one has exactly one
/// child, labelled with the value, whole.
pub proof fn law_declaration_in_tree(
    blank: Seq<char>,
    opening: Seq<char>,
    earlier: Seq<char>,
    keyword: Seq<char>,
    name: Seq<char>,
    value: Seq<char>,
    semicolons: Seq<char>,
    later: Seq<char>,
    closing: Seq<char>,
    rest: Seq<char>,
    filename: Seq<char>,
)
    requires
        is_blank_start(blank),
        is_fence_text(opening),
        earlier.len() > 0 ==> earlier.last() == '\n',
        holds_no_fence(earlier),
        lines::has_plain_line_ends(earlier),
        statements::is_keyword(keyword),
        frontmatter::is_identifier(name),
        value.len() > 0 && !text::is_white(value[0]) && statements::ends_statement(value),
        !value.contains('\n') && !value.contains('\r'),
        texts::is_all(semicolons, CharClass::Is(';')),
        later.len() > 0 ==> later.last() == '\n',
        holds_no_fence(later),
        lines::has_plain_line_ends(later),
        is_fence_text(closing),
        lines::lines(blank).len() + lines::lines(earlier).len() + lines::lines(later).len()
            + lines::lines(rest).len() + 3 <= u32::MAX,
    ensures
        ({
            let line = keyword + name + " = "@ + value + semicolons;
            let body = earlier + line + "\n"@ + later;
            let source = blank + opening + "\n"@ + body + closing + "\n"@ + rest;
            let nodes = component::tree(source, filename).children[0].children;
            let at = (lines::lines(blank).len() + 1 + lines::lines(earlier).len()) as u32;
            exists|k: int|
                0 <= k < nodes.len() && #[trigger] is_declaration_of(nodes[k], name, value, at)
        }),
{
    let line = keyword + name + " = "@ + value + semicolons;
    lemma_declaration_line(keyword, name, value, semicolons);
    let body = earlier + line + "\n"@ + later;
    let source = blank + opening + "\n"@ + body + closing + "\n"@ + rest;
    lemma_body_lines(earlier, line, later);
    law_divided_component(blank, opening, body, closing, rest);
    lemma_frontmatter_children(source, filename);
    let start = (lines::lines(blank).len() + 1) as u32;
    let i = lines::lines(earlier).len() as int;
    let kept = lines::lines(lines::without_final_newline(body));
    let id = node::child_id("0"@, 0);
    lemma_declaration_node(kept, i, start, id, keyword, name, value, semicolons);
    let at = (lines::lines(blank).len() + 1 + lines::lines(earlier).len()) as u32;
    assert((start + i) as u32 == at);
    assert(component::tree(source, filename).children[0].children == frontmatter::statements(
        kept,
        start,
        id,
    ));
}

/// The children of the frontmatter's node are the nodes of the lines of its content.
proof fn lemma_frontmatter_children(source: Seq<char>, filename: Seq<char>)
    ensures
        document::document(source).frontmatter matches Some(b) ==> component::tree(
            source,
            filename,
        ).children[0].children == frontmatter::statements(
            lines::lines(b.content),
            b.content_start_line,
            node::child_id("0"@, 0),
        ),
{
    law_tree_of_blocks(source, filename);
}

/// A line with others before and after it is among the lines of the whole, with or without the line
/// feed at the end.
proof fn lemma_body_lines(earlier: Seq<char>, line: Seq<char>, later: Seq<char>)
    requires
        earlier.len() > 0 ==> earlier.last() == '\n',
        holds_no_fence(earlier),
        lines::has_plain_line_ends(earlier),
        !line.contains('\n') && !line.contains('\r'),
        line.len() > 0 && line.last() != '\r',
        !document::is_fence(line),
        later.len() > 0 ==> later.last() == '\n',
        holds_no_fence(later),
        lines::has_plain_line_ends(later),
    ensures
        ({
            let body = earlier + line + "\n"@ + later;
            let kept = lines::lines(lines::without_final_newline(body));
            let i = lines::lines(earlier).len();
            &&& body.len() > 0 && body.last() == '\n'
            &&& holds_no_fence(body)
            &&& lines::has_plain_line_ends(body)
            &&& lines::lines(body).len() == i + 1 + lines::lines(later).len()
            &&& i < kept.len() <= lines::lines(body).len()
            &&& kept[i as int] == line
        }),
{
    let body = earlier + line + "\n"@ + later;
    let a = lines::lines(earlier);
    let b = lines::lines(later);
    lemma_body_ends(earlier, line, later);
    lemma_lines_around(earlier, line, later);
    lemma_content_lines(earlier, line, later);
    let all = lines::lines(body);
    assert forall|i: int| 0 <= i < all.len() implies !document::is_fence(#[trigger] all[i]) by {
        if i < a.len() {
            assert(all[i] == a[i]);
        } else if i > a.len() {
            assert(all[i] == b[i - a.len() - 1]);
        } else {
            assert(all[i] == line);
        }
    }
}

/// The lines of a line with others before and after it.
proof fn lemma_lines_around(earlier: Seq<char>, line: Seq<char>, later: Seq<char>)
    requires
        earlier.len() > 0 ==> earlier.last() == '\n',
        !line.contains('\n'),
        line.len() > 0 && line.last() != '\r',
    ensures
        lines::lines(earlier + line + "\n"@ + later) == lines::lines(earlier) + (seq![line]
            + lines::lines(later)),
{
    assert(earlier + line + "\n"@ + later =~= earlier + (line + "\n"@ + later));
    texts::law_lines_concat(earlier, line + "\n"@ + later);
    texts::law_line_feed_ends_line(line, later);
}

/// The lines of a line with others before and after it, without the line feed at the end.
proof fn lemma_content_lines(earlier: Seq<char>, line: Seq<char>, later: Seq<char>)
    requires
        earlier.len() > 0 ==> earlier.last() == '\n',
        !line.contains('\n'),
        line.len() > 0 && line.last() != '\r',
        later.len() > 0 ==> later.last() == '\n',
    ensures
        ({
            let body = earlier + line + "\n"@ + later;
            let kept = lines::lines(lines::without_final_newline(body));
            let i = lines::lines(earlier).len();
            &&& i < kept.len() <= i + 1 + lines::lines(later).len()
            &&& kept[i as int] == line
        }),
{
    reveal_strlit("\n");
    let content = lines::without_final_newline(earlier + line + "\n"@ + later);
    if later.len() > 0 {
        let shorter = later.drop_last();
        assert(content =~= earlier + line + "\n"@ + shorter);
        lemma_lines_around(earlier, line, shorter);
        lemma_fewer_lines(shorter);
        assert(later =~= shorter + "\n"@);
    } else {
        assert(content =~= earlier + line);
        texts::law_lines_concat(earlier, line);
        texts::law_last_line(line);
    }
}

/// Plain line ends before, in and after a line make plain line ends of the whole.
proof fn lemma_body_ends(earlier: Seq<char>, line: Seq<char>, later: Seq<char>)
    requires
        earlier.len() > 0 ==> earlier.last() == '\n',
        lines::has_plain_line_ends(earlier),
        !line.contains('\r'),
        later.len() > 0 ==> later.last() == '\n',
        lines::has_plain_line_ends(later),
    ensures
        ({
            let body = earlier + line + "\n"@ + later;
            &&& body.len() > 0 && body.last() == '\n'
            &&& lines::has_plain_line_ends(body)
        }),
{
    reveal_strlit("\n");
    let body = earlier + line + "\n"@ + later;
    if later.len() > 0 {
        assert(body.last() == later.last());
    }
    assert forall|i: int| 0 <= i < body.len() - 1 && #[trigger] body[i] == '\r' implies body[i + 1]
        != '\n' by {
        let m = earlier.len() as int;
        let e = m + line.len();
        if i < m - 1 {
            assert(body[i] == earlier[i] && body[i + 1] == earlier[i + 1]);
        } else if i < m {
            assert(body[i] == earlier[i]);
        } else if i < e {
            assert(body[i] == line[i - m]);
            assert(line.contains(line[i - m]));
        } else if i > e {
            assert(body[i] == later[i - e - 1] && body[i + 1] == later[i - e]);
        }
    }
}

/// A declaration among the lines of the frontmatter has its node.
proof fn lemma_declaration_node(
    all: Seq<Seq<char>>,
    i: int,
    start: u32,
    id: Seq<char>,
    keyword: Seq<char>,
    name: Seq<char>,
    value: Seq<char>,
    semicolons: Seq<char>,
)
    requires
        0 <= i < all.len(),
        start + all.len() <= u32::MAX,
        all[i] == keyword + name + " = "@ + value + semicolons,
        statements::is_keyword(keyword),
        frontmatter::is_identifier(name),
        value.len() > 0 && !text::is_white(value[0]) && statements::ends_statement(value),
        texts::is_all(semicolons, CharClass::Is(';')),
    ensures
        ({
            let nodes = frontmatter::statements(all, start, id);
            exists|k: int|
                0 <= k < nodes.len() && #[trigger] is_declaration_of(
                    nodes[k],
                    name,
                    value,
                    (start + i) as u32,
                )
        }),
{
    reveal_strlit(" = ");
    reveal_strlit("=");
    let nodes = frontmatter::statements(all, start, id);
    statements::law_every_statement_has_node(all, i, start, id);
    let k = frontmatter::statements(all.take(i), start, id).len();
    let none = Seq::<char>::empty();
    let space = seq![' '];
    assert(all[i] =~= none + (keyword + name + space + "="@ + space + value) + none + semicolons
        + none + none);
    statements::law_declaration_with_value(
        none,
        keyword,
        name,
        space,
        space,
        value,
        none,
        semicolons,
        none,
        none,
        node::child_id(id, k),
        (start + i) as u32,
    );
    assert(is_declaration_of(nodes[k as int], name, value, (start + i) as u32));
}

/// Whether `n` is the node of a declaration of `name` on line `at` with `value` as its only child.
pub open spec fn is_declaration_of(
    n: node::Node,
    name: Seq<char>,
    value: Seq<char>,
    at: u32,
) -> bool {
    &&& n.node_type == "variable_declaration"@
    &&& n.label == name
    &&& n.start_line == at
    &&& n.children.len() == 1
    &&& n.children[0].node_type == "declaration_value"@
    &&& n.children[0].label == value
}

/// A declaration is one line, and no fence.
proof fn lemma_declaration_line(
    keyword: Seq<char>,
    name: Seq<char>,
    value: Seq<char>,
    semicolons: Seq<char>,
)
    requires
        statements::is_keyword(keyword),
        frontmatter::is_identifier(name),
        statements::ends_statement(value),
        !value.contains('\n') && !value.contains('\r'),
        texts::is_all(semicolons, CharClass::Is(';')),
    ensures
        ({
            let line = keyword + name + " = "@ + value + semicolons;
            &&& !line.contains('\n') && !line.contains('\r')
            &&& line.len() > 0 && line.last() != '\r'
            &&& !document::is_fence(line)
        }),
{
    reveal_strlit(" = ");
    reveal_strlit("---");
    reveal_strlit("const ");
    reveal_strlit("let ");
    reveal_strlit("var ");
    let line = keyword + name + " = "@ + value + semicolons;
    let a = keyword.len() as int;
    let b = a + name.len();
    let c = b + 3;
    let d = c + value.len();
    assert forall|i: int| 0 <= i < line.len() implies line[i] != '\n' && #[trigger] line[i]
        != '\r' by {
        if i < a {
            assert(line[i] == keyword[i]);
        } else if i < b {
            assert(line[i] == name[i - a]);
            assert(i - a > 0 ==> frontmatter::continues_identifier(name[i - a]));
        } else if i < c {
            assert(line[i] == " = "@[i - b]);
        } else if i < d {
            assert(line[i] == value[i - c]);
            assert(value.contains(value[i - c]));
        } else {
            assert(CharClass::Is(';').has(semicolons[i - d]));
            assert(line[i] == semicolons[i - d]);
        }
    }
    let none = Seq::<char>::empty();
    assert(line[0] == keyword[0]);
    if semicolons.len() > 0 {
        assert(CharClass::Is(';').has(semicolons[semicolons.len() - 1]));
        assert(line.last() == semicolons[semicolons.len() - 1]);
    } else {
        assert(line.last() == value.last());
    }
    assert(none + line + none =~= line);
    law_fence_lines(none, line, none);
    assert("---"@[0] == '-');
}

/// A line feed at the end of a text takes away no line.
proof fn lemma_fewer_lines(s: Seq<char>)
    ensures
        lines::lines(s).len() <= lines::lines(s + "\n"@).len(),
    decreases s.len(),
{
    reveal_strlit("\n");
    let newline = CharClass::Is('\n');
    let end = text::first_index(s, newline) as int;
    text::lemma_first_index(s, newline);
    let none = Seq::<char>::empty();
    let line = s.take(end);
    assert(!line.contains('\n')) by {
        if line.contains('\n') {
            let i = choose|i: int| 0 <= i < line.len() && line[i] == '\n';
            assert(newline.has(s[i]));
        }
    }
    if end < s.len() {
        let rest = s.skip(end + 1);
        assert(s =~= line + "\n"@ + rest);
        assert(s + "\n"@ =~= line + "\n"@ + (rest + "\n"@));
        lines::lemma_lines_of_first(line, rest);
        lines::lemma_lines_of_first(line, rest + "\n"@);
        lemma_fewer_lines(rest);
    } else {
        assert(line =~= s);
        assert(s + "\n"@ =~= s + "\n"@ + none);
        lines::lemma_lines_of_first(s, none);
        texts::law_last_line(s);
    }
}

} // verus!
