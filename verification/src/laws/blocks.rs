//! What holds of the blocks of every component.

use crate::component;
use crate::document;
use crate::lines;
use vstd::prelude::*;

verus! {

/// The opening fence is the first line that is not blank, and the closing fence the next fence
/// after it. So nothing but blank lines stands before the frontmatter, and no fence within it. A
/// byte order mark at the start of the source is left out of account.
pub proof fn law_fences(source: Seq<char>)
    ensures
        ({
            let all = lines::lines(source);
            let seen = document::unmarked(all);
            let open = document::opening_fence(all);
            let close = document::closing_fence(all);
            &&& open < all.len() ==> {
                &&& document::is_fence(seen[open as int])
                &&& forall|i: int| 0 <= i < open ==> document::is_blank(#[trigger] seen[i])
                &&& open < close <= all.len()
                &&& close < all.len() ==> document::is_fence(all[close as int])
                &&& forall|i: int|
                    open < i < close ==> !document::is_fence(#[trigger] all[i])
            }
            &&& open >= all.len() ==> forall|i: int|
                #![trigger seen[i]]
                0 <= i < all.len() && document::is_fence(seen[i]) ==> exists|j: int|
                    0 <= j < i && !document::is_blank(#[trigger] seen[j])
        }),
{
    let all = lines::lines(source);
    let seen = document::unmarked(all);
    let open = document::opening_fence(all);
    document::lemma_next_nonblank(seen, 0);
    if open < all.len() {
        document::lemma_next_fence(all, open + 1);
    } else {
        let first = document::next_nonblank(seen, 0);
        assert forall|i: int|
            #![trigger seen[i]]
            0 <= i < all.len() && document::is_fence(seen[i]) implies exists|j: int|
            0 <= j < i && !document::is_blank(#[trigger] seen[j]) by {
            reveal_strlit("---");
            assert(!document::is_blank(seen[i]));
            assert(first < i);
            assert(!document::is_blank(seen[first as int]));
        }
    }
}

/// A byte order mark at the start of a source changes neither of the fences.
pub proof fn law_mark_moves_no_fence(source: Seq<char>)
    requires
        source.len() > 0,
        source[0] != '\u{feff}',
    ensures
        ({
            let plain = lines::lines(source);
            let marked = lines::lines(seq!['\u{feff}'] + source);
            &&& marked.len() == plain.len()
            &&& document::opening_fence(marked) == document::opening_fence(plain)
            &&& document::closing_fence(marked) == document::closing_fence(plain)
        }),
{
    let mark = seq!['\u{feff}'];
    let plain = lines::lines(source);
    let marked = lines::lines(mark + source);
    lines::lemma_lines_len(source);
    lines::lemma_lines_after_prefix(mark[0], source);
    assert(document::unmarked(marked) =~= document::unmarked(plain)) by {
        assert(marked[0].drop_first() =~= plain[0]);
        assert(document::without_mark(plain[0]) == plain[0]) by {
            lines::lemma_first_line_start(source);
        }
    }
    lemma_same_fences(plain, marked, document::opening_fence(plain) + 1);
}

/// A byte order mark at the start of a source with both fences changes nothing in its blocks.
pub proof fn law_mark_changes_no_block(source: Seq<char>)
    requires
        source.len() > 0,
        source[0] != '\u{feff}',
        document::closing_fence(lines::lines(source)) < lines::lines(source).len(),
    ensures
        document::document(seq!['\u{feff}'] + source) == document::document(source),
{
    let mark = seq!['\u{feff}'];
    let plain = lines::lines(source);
    let marked = lines::lines(mark + source);
    law_mark_moves_no_fence(source);
    lines::lemma_lines_after_prefix(mark[0], source);
    document::lemma_next_nonblank(document::unmarked(plain), 0);
    document::lemma_next_fence(plain, document::opening_fence(plain) + 1);
    let open = document::opening_fence(plain) as int;
    let close = document::closing_fence(plain) as int;
    let total = plain.len() as int;
    assert(marked.subrange(open + 1, close) =~= plain.subrange(open + 1, close));
    assert(marked.subrange(close + 1, total) =~= plain.subrange(close + 1, total));
}

/// The next fence depends on the lines from there on alone.
proof fn lemma_same_fences(a: Seq<Seq<char>>, b: Seq<Seq<char>>, from: nat)
    requires
        a.len() == b.len(),
        forall|i: int| from <= i < a.len() ==> #[trigger] a[i] == b[i],
    ensures
        document::next_fence(a, from) == document::next_fence(b, from),
    decreases a.len() - from,
{
    if from < a.len() && !document::is_fence(a[from as int]) {
        lemma_same_fences(a, b, from + 1);
    }
}

/// An empty source has no blocks, and every other source has at least one.
pub proof fn law_blocks_exist(source: Seq<char>)
    ensures
        (document::document(source).frontmatter is None && document::document(source).template
            is None) == (source.len() == 0),
        component::block_nodes(document::document(source)).len() == 0 <==> source.len() == 0,
{
    lines::lemma_lines_len(source);
}

/// A source without a pair of fences is one block, whose content is the source unchanged: the
/// template if there is no opening fence, and the frontmatter if there is no closing one.
pub proof fn law_undivided_source(source: Seq<char>)
    requires
        source.len() > 0,
        document::closing_fence(lines::lines(source)) >= lines::lines(source).len(),
    ensures
        ({
            let all = lines::lines(source);
            let d = document::document(source);
            if document::opening_fence(all) < all.len() {
                &&& d.template is None
                &&& d.frontmatter matches Some(b)
                &&& b.content == source
            } else {
                &&& d.frontmatter is None
                &&& d.template matches Some(b)
                &&& b.content == source
            }
        }),
{
    lines::lemma_lines_len(source);
}

/// In a source with plain line feeds the frontmatter is everything between the fences, and the
/// template everything after the closing one, but for the line feed at the end of the source.
pub proof fn law_blocks_are_verbatim(source: Seq<char>)
    requires
        lines::has_plain_line_ends(source),
        document::closing_fence(lines::lines(source)) < lines::lines(source).len(),
    ensures
        ({
            let all = lines::lines(source);
            let open = document::opening_fence(all);
            let close = document::closing_fence(all);
            let d = document::document(source);
            let head = lines::joined(all.take(open as int + 1), "\n"@) + "\n"@;
            let body = if open + 1 < close {
                d.frontmatter->0.content + "\n"@
            } else {
                Seq::empty()
            };
            let tail = match d.template {
                Some(t) => "\n"@ + t.content,
                None => Seq::empty(),
            };
            &&& d.frontmatter is Some
            &&& d.template is Some == (close + 1 < all.len())
            &&& lines::without_final_newline(source) == head + body + all[close as int] + tail
        }),
{
    let all = lines::lines(source);
    let open = document::opening_fence(all);
    let close = document::closing_fence(all);
    document::lemma_next_nonblank(document::unmarked(all), 0);
    document::lemma_next_fence(all, open + 1);
    lines::lemma_lines_joined(source);
    lemma_joined_around(all, open as int, close as int);
}

/// Lines joined as a whole are the lines up to one, those between it and another, that other, and
/// those after it, each joined.
proof fn lemma_joined_around(all: Seq<Seq<char>>, open: int, close: int)
    requires
        0 <= open < close < all.len(),
    ensures
        ({
            let n = "\n"@;
            let head = lines::joined(all.take(open + 1), n) + n;
            let body = if open + 1 < close {
                lines::joined(all.subrange(open + 1, close), n) + n
            } else {
                Seq::empty()
            };
            let tail = if close + 1 < all.len() {
                n + lines::joined(all.subrange(close + 1, all.len() as int), n)
            } else {
                Seq::empty()
            };
            lines::joined(all, n) == head + body + all[close] + tail
        }),
{
    let n = "\n"@;
    let a = all.take(open + 1);
    let b = all.subrange(open + 1, close);
    let c = seq![all[close]];
    let t = all.subrange(close + 1, all.len() as int);
    assert(all =~= a + (b + (c + t)));
    assert(lines::joined(c, n) == all[close]);
    let tail = if close + 1 < all.len() {
        n + lines::joined(t, n)
    } else {
        Seq::empty()
    };
    assert(lines::joined(c + t, n) =~= all[close] + tail) by {
        if close + 1 < all.len() {
            lines::lemma_joined_concat(c, t, n);
        } else {
            assert(c + t =~= c);
        }
    }
    let body = if open + 1 < close {
        lines::joined(b, n) + n
    } else {
        Seq::empty()
    };
    assert(lines::joined(b + (c + t), n) =~= body + (all[close] + tail)) by {
        if open + 1 < close {
            lines::lemma_joined_concat(b, c + t, n);
        } else {
            assert(b + (c + t) =~= c + t);
        }
    }
    lines::lemma_joined_concat(a, b + (c + t), n);
    let head = lines::joined(a, n) + n;
    assert(lines::joined(all, n) =~= head + body + all[close] + tail);
}

/// The last block ends on the last line of the source, and so does the root.
pub proof fn law_root_spans_source(source: Seq<char>, filename: Seq<char>)
    requires
        source.len() > 0,
    ensures
        component::tree(source, filename).children.len() > 0,
        component::tree(source, filename).start_line == 0,
        component::tree(source, filename).end_line == component::last_line(source),
        component::tree(source, filename).children.last().end_line == component::last_line(source),
{
    let all = lines::lines(source);
    lines::lemma_lines_len(source);
    document::lemma_next_nonblank(document::unmarked(all), 0);
    if document::opening_fence(all) < all.len() {
        document::lemma_next_fence(all, document::opening_fence(all) + 1);
    }
}

/// The blocks of a divided source follow one another: the frontmatter starts at its opening fence
/// and ends at its closing one, and the template starts on the line after that.
pub proof fn law_blocks_in_order(source: Seq<char>)
    requires
        lines::lines(source).len() <= 0x1_0000_0000,
        document::closing_fence(lines::lines(source)) < lines::lines(source).len(),
    ensures
        ({
            let all = lines::lines(source);
            let d = document::document(source);
            &&& d.frontmatter matches Some(f)
            &&& f.start_line == document::opening_fence(all)
            &&& f.content_start_line == f.start_line + 1
            &&& f.end_line == document::closing_fence(all)
            &&& f.content_start_line <= f.end_line
            &&& d.template matches Some(t) ==> {
                &&& t.start_line == f.end_line + 1
                &&& t.content_start_line == t.start_line
                &&& t.start_line <= t.end_line
                &&& t.end_line == all.len() - 1
            }
        }),
{
    let all = lines::lines(source);
    document::lemma_next_nonblank(document::unmarked(all), 0);
    document::lemma_next_fence(all, document::opening_fence(all) + 1);
}

} // verus!
