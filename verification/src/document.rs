//! Splitting a component into its frontmatter and its template.

use crate::hash;
use crate::lines;
use crate::text;
use vstd::prelude::*;

verus! {

/// What a block of a component is: the lines it spans, the content, the hash of the content, and
/// the line from which the lines of the content are counted. Lines are counted from zero.
///
/// `content_start_line` is the line that the content starts on, except in a frontmatter that is
/// never closed: there it is the line of the opening fence, while the content is the whole source
/// with the blank lines before that fence.
#[verifier::ext_equal]
pub struct Block {
    pub start_line: u32,
    pub end_line: u32,
    pub content_start_line: u32,
    pub content: Seq<char>,
    pub hash: Seq<char>,
}

/// The blocks of a component.
#[verifier::ext_equal]
pub struct Document {
    pub frontmatter: Option<Block>,
    pub template: Option<Block>,
}

/// A block of a component.
pub struct ParsedBlock {
    pub start_line: u32,
    pub end_line: u32,
    pub content_start_line: u32,
    pub content: String,
    pub hash: String,
}

/// A component split into its blocks.
pub struct ParsedAstro {
    pub frontmatter: Option<ParsedBlock>,
    pub template: Option<ParsedBlock>,
}

impl View for ParsedBlock {
    type V = Block;

    open spec fn view(&self) -> Block {
        Block {
            start_line: self.start_line,
            end_line: self.end_line,
            content_start_line: self.content_start_line,
            content: self.content@,
            hash: self.hash@,
        }
    }
}

/// The view of a block that may be absent.
pub open spec fn block_view(block: Option<ParsedBlock>) -> Option<Block> {
    match block {
        Some(b) => Some(b@),
        None => None,
    }
}

impl View for ParsedAstro {
    type V = Document;

    open spec fn view(&self) -> Document {
        Document {
            frontmatter: block_view(self.frontmatter),
            template: block_view(self.template),
        }
    }
}

/// Whether a line holds nothing but white space.
pub open spec fn is_blank(line: Seq<char>) -> bool {
    text::trimmed(line).len() == 0
}

/// Whether a line is a frontmatter fence: `---`, with white space around it at most.
pub open spec fn is_fence(line: Seq<char>) -> bool {
    text::trimmed(line) == "---"@
}

/// The first line from `from` on that is not blank; the number of lines if there is none.
pub open spec fn next_nonblank(all: Seq<Seq<char>>, from: nat) -> nat
    decreases all.len() - from,
{
    if from >= all.len() {
        all.len()
    } else if is_blank(all[from as int]) {
        next_nonblank(all, from + 1)
    } else {
        from
    }
}

/// The first fence from line `from` on; the number of lines if there is none.
pub open spec fn next_fence(all: Seq<Seq<char>>, from: nat) -> nat
    decreases all.len() - from,
{
    if from >= all.len() {
        all.len()
    } else if is_fence(all[from as int]) {
        from
    } else {
        next_fence(all, from + 1)
    }
}

/// A line without the byte order mark at its start, if there is one.
pub open spec fn without_mark(line: Seq<char>) -> Seq<char> {
    if line.len() > 0 && line[0] == '\u{feff}' {
        line.drop_first()
    } else {
        line
    }
}

/// The lines as the search for the opening fence sees them: a byte order mark at the start of the
/// first line does not count.
pub open spec fn unmarked(all: Seq<Seq<char>>) -> Seq<Seq<char>> {
    if all.len() > 0 {
        all.update(0, without_mark(all[0]))
    } else {
        all
    }
}

/// The line of the opening fence, which must be the first line that is not blank; the number of
/// lines if the component has no frontmatter. A byte order mark may stand before it at the start
/// of the first line.
pub open spec fn opening_fence(all: Seq<Seq<char>>) -> nat {
    let seen = unmarked(all);
    let first = next_nonblank(seen, 0);
    if first < all.len() && is_fence(seen[first as int]) {
        first
    } else {
        all.len()
    }
}

/// The line of the closing fence; the number of lines if the frontmatter is not closed.
pub open spec fn closing_fence(all: Seq<Seq<char>>) -> nat {
    next_fence(all, opening_fence(all) + 1)
}

/// The block with the given content; line numbers are kept to thirty-two bits.
pub open spec fn block(start: nat, end: nat, content_start: nat, content: Seq<char>) -> Block {
    Block {
        start_line: start as u32,
        end_line: end as u32,
        content_start_line: content_start as u32,
        content,
        hash: hash::text_hash(content),
    }
}

/// The lines from `from` up to `to`, joined by line feeds.
pub open spec fn lines_between(all: Seq<Seq<char>>, from: nat, to: nat) -> Seq<char> {
    lines::joined(all.subrange(from as int, to as int), "\n"@)
}

/// The blocks of a component.
///
/// The frontmatter lies between the fences and the template after them. Without an opening fence
/// the whole text is the template; without a closing fence the whole text is the frontmatter.
pub open spec fn document(source: Seq<char>) -> Document {
    let all = lines::lines(source);
    let total = all.len();
    let open = opening_fence(all);
    let close = closing_fence(all);
    if open < total && close < total {
        Document {
            frontmatter: Some(block(open, close, open + 1, lines_between(all, open + 1, close))),
            template: if close + 1 < total {
                Some(
                    block(
                        close + 1,
                        (total - 1) as nat,
                        close + 1,
                        lines_between(all, close + 1, total),
                    ),
                )
            } else {
                None
            },
        }
    } else if open < total {
        Document {
            frontmatter: Some(block(open, (total - 1) as nat, open, source)),
            template: None,
        }
    } else {
        Document {
            frontmatter: None,
            template: if total > 0 {
                Some(block(0, (total - 1) as nat, 0, source))
            } else {
                None
            },
        }
    }
}

/// `next_nonblank` is the first such line: every line before it is blank.
pub proof fn lemma_next_nonblank(all: Seq<Seq<char>>, from: nat)
    requires
        from <= all.len(),
    ensures
        from <= next_nonblank(all, from) <= all.len(),
        next_nonblank(all, from) < all.len() ==> !is_blank(all[next_nonblank(all, from) as int]),
        forall|i: int| from <= i < next_nonblank(all, from) ==> is_blank(#[trigger] all[i]),
    decreases all.len() - from,
{
    if from < all.len() && is_blank(all[from as int]) {
        lemma_next_nonblank(all, from + 1);
    }
}

/// `next_fence` is the first such line: no line before it is a fence.
pub proof fn lemma_next_fence(all: Seq<Seq<char>>, from: nat)
    requires
        from <= all.len(),
    ensures
        from <= next_fence(all, from) <= all.len(),
        next_fence(all, from) < all.len() ==> is_fence(all[next_fence(all, from) as int]),
        forall|i: int| from <= i < next_fence(all, from) ==> !is_fence(#[trigger] all[i]),
    decreases all.len() - from,
{
    if from < all.len() && !is_fence(all[from as int]) {
        lemma_next_fence(all, from + 1);
    }
}

/// Builds a block and hashes its content.
fn make_block(start: usize, end: usize, content_start: usize, content: String) -> (b: ParsedBlock)
    ensures
        b@ == block(start as nat, end as nat, content_start as nat, content@),
{
    let hash = hash::content_hash(content.as_str());
    ParsedBlock {
        start_line: #[verifier::truncate] (start as u32),
        end_line: #[verifier::truncate] (end as u32),
        content_start_line: #[verifier::truncate] (content_start as u32),
        content,
        hash,
    }
}

/// The characters of a line without the byte order mark at its start, if there is one.
fn skip_mark<'a>(line: &'a [char]) -> (rest: &'a [char])
    ensures
        rest@ == without_mark(line@),
{
    if line.len() > 0 && line[0] == '\u{feff}' {
        assert(line@.skip(1) =~= line@.drop_first());
        text::skip(line, 1)
    } else {
        line
    }
}

/// The line of the opening fence; the number of lines if there is none.
fn find_opening_fence(all: &Vec<String>) -> (open: usize)
    ensures
        open == opening_fence(text::views(all@)),
        open <= all@.len(),
{
    let ghost texts = text::views(all@);
    let ghost seen = unmarked(texts);
    let mut i: usize = 0;
    while i < all.len()
        invariant
            i <= all@.len(),
            texts == text::views(all@),
            seen == unmarked(texts),
            next_nonblank(seen, i as nat) == next_nonblank(seen, 0),
        decreases all@.len() - i,
    {
        let chars = text::chars_of(all[i].as_str());
        let line = if i == 0 {
            skip_mark(chars.as_slice())
        } else {
            chars.as_slice()
        };
        assert(line@ == seen[i as int]);
        let trimmed = text::trim(line);
        if trimmed.len() > 0 {
            if text::equals(trimmed, "---") {
                return i;
            }
            return all.len();
        }
        i += 1;
    }
    i
}

/// The first fence from line `from` on; the number of lines if there is none.
fn find_fence(all: &Vec<String>, from: usize) -> (fence: usize)
    requires
        from <= all@.len(),
    ensures
        fence == next_fence(text::views(all@), from as nat),
        from <= fence <= all@.len(),
{
    let ghost texts = text::views(all@);
    let mut i = from;
    while i < all.len()
        invariant
            from <= i <= all@.len(),
            texts == text::views(all@),
            next_fence(texts, i as nat) == next_fence(texts, from as nat),
        decreases all@.len() - i,
    {
        let chars = text::chars_of(all[i].as_str());
        if text::equals(text::trim(chars.as_slice()), "---") {
            return i;
        }
        i += 1;
    }
    i
}

/// Splits a component into its frontmatter and its template.
pub fn parse_astro(source: &str) -> (parsed: ParsedAstro)
    ensures
        parsed@ == document(source@),
{
    let all = lines::split_lines(source);
    let total = all.len();
    let open = find_opening_fence(&all);
    if open < total {
        let after_open = open + 1;
        let close = find_fence(&all, after_open);
        if close < total {
            let frontmatter = lines::join(&all, after_open, close, "\n");
            let template_start = close + 1;
            let template = if template_start < total {
                let content = lines::join(&all, template_start, total, "\n");
                Some(make_block(template_start, total - 1, template_start, content))
            } else {
                None
            };
            return ParsedAstro {
                frontmatter: Some(make_block(open, close, after_open, frontmatter)),
                template,
            };
        }
        return ParsedAstro {
            frontmatter: Some(make_block(open, total - 1, open, source.to_owned())),
            template: None,
        };
    }
    ParsedAstro {
        frontmatter: None,
        template: if total > 0 {
            Some(make_block(0, total - 1, 0, source.to_owned()))
        } else {
            None
        },
    }
}

} // verus!
