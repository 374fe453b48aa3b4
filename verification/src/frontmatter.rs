//! The statements of the frontmatter.

use crate::lines;
use crate::node;
use crate::node::{Node, SemanticNode};
use crate::text;
use crate::text::CharClass;
use vstd::prelude::*;

verus! {

/// Whether `c` is an ASCII letter.
pub open spec fn is_ascii_letter(c: char) -> bool {
    'a' <= c <= 'z' || 'A' <= c <= 'Z'
}

/// Whether an identifier may start with `c`.
pub open spec fn starts_identifier(c: char) -> bool {
    is_ascii_letter(c) || c == '_' || c == '$'
}

/// Whether an identifier may hold `c` after its start.
pub open spec fn continues_identifier(c: char) -> bool {
    starts_identifier(c) || '0' <= c <= '9' || c == '-'
}

/// Whether `s` looks like an identifier.
pub open spec fn is_identifier(s: Seq<char>) -> bool {
    &&& s.len() > 0
    &&& starts_identifier(s[0])
    &&& forall|i: int| 1 <= i < s.len() ==> continues_identifier(#[trigger] s[i])
}

/// A statement without the white space around it and without the commas, then the semicolons,
/// at its end.
pub open spec fn normalized(line: Seq<char>) -> Seq<char> {
    let bare = text::trimmed(line);
    let uncomma = text::trimmed_end(bare, CharClass::Is(','));
    text::trimmed(text::trimmed_end(uncomma, CharClass::Is(';')))
}

/// The identifier that `line` declares with `keyword`, a keyword and a space.
pub open spec fn name_after(line: Seq<char>, keyword: Seq<char>) -> Option<Seq<char>> {
    let rest = line.skip(keyword.len() as int);
    let name = rest.take(text::first_index(rest, CharClass::NameBreak) as int);
    if text::begins_with(line, keyword) && is_identifier(name) {
        Some(name)
    } else {
        None
    }
}

/// The identifier that `line` declares with `const`, `let` or `var`.
pub open spec fn declared_name(line: Seq<char>) -> Option<Seq<char>> {
    if name_after(line, "const "@) is Some {
        name_after(line, "const "@)
    } else if name_after(line, "let "@) is Some {
        name_after(line, "let "@)
    } else {
        name_after(line, "var "@)
    }
}

/// What a declaration assigns: the text after the first `=`, without white space around it and
/// without semicolons at its end. Empty if there is no `=`.
pub open spec fn assigned_value(line: Seq<char>) -> Seq<char> {
    let eq = text::first_index(line, CharClass::Is('='));
    if eq < line.len() {
        let value = text::trimmed(line.skip(eq as int + 1));
        text::trimmed(text::trimmed_end(value, CharClass::Is(';')))
    } else {
        Seq::empty()
    }
}

/// The node of a declaration; what it assigns, if anything, is its child.
pub open spec fn declaration(name: Seq<char>, value: Seq<char>, id: Seq<char>, at: u32) -> Node {
    node::node(
        id,
        "variable_declaration"@,
        name,
        at,
        at,
        ""@,
        if value.len() > 0 {
            seq![node::leaf(node::child_id(id, 0), "declaration_value"@, value, at)]
        } else {
            Seq::empty()
        },
    )
}

/// The node of a normalized statement on line `at`, if it is an import or a declaration.
pub open spec fn statement(line: Seq<char>, id: Seq<char>, at: u32) -> Option<Node> {
    if text::begins_with(line, "import "@) {
        Some(node::leaf(id, "import_statement"@, line, at))
    } else {
        match declared_name(line) {
            Some(name) => Some(declaration(name, assigned_value(line), id, at)),
            None => None,
        }
    }
}

/// The nodes of the statements on the given lines, the first of which is line `start_line`.
pub open spec fn statements(all: Seq<Seq<char>>, start_line: u32, parent: Seq<char>) -> Seq<Node>
    decreases all.len(),
{
    if all.len() == 0 {
        Seq::empty()
    } else {
        let before = statements(all.drop_last(), start_line, parent);
        let id = node::child_id(parent, before.len());
        let at = lines::line_number(start_line, (all.len() - 1) as nat);
        match statement(normalized(all.last()), id, at) {
            Some(n) => before.push(n),
            None => before,
        }
    }
}

/// Whether the number of every line with a statement fits in thirty-two bits.
pub open spec fn statement_lines_fit(content: Seq<char>, start_line: u32) -> bool {
    let all = lines::lines(content);
    forall|i: int|
        0 <= i < all.len() && normalized(#[trigger] all[i]).len() > 0 ==> start_line + (i as u32)
            <= u32::MAX
}

/// Whether the number of every line with a statement fits in thirty-two bits.
pub fn check_statement_lines(content: &str, start_line: u32) -> (fit: bool)
    ensures
        fit == statement_lines_fit(content@, start_line),
{
    let all = lines::split_lines(content);
    let ghost texts = lines::lines(content@);
    let mut i: usize = 0;
    while i < all.len()
        invariant
            i <= all@.len(),
            texts == lines::lines(content@),
            texts == text::views(all@),
            forall|j: int|
                0 <= j < i && normalized(#[trigger] texts[j]).len() > 0 ==> start_line + (j as u32)
                    <= u32::MAX,
        decreases all@.len() - i,
    {
        assert(texts[i as int] == all@[i as int]@);
        let line = normalize_statement(all[i].as_str());
        if !line.as_str().is_empty() && start_line.checked_add(
            #[verifier::truncate] (i as u32),
        ).is_none() {
            return false;
        }
        i += 1;
    }
    true
}

/// Whether `value` looks like an identifier: an ASCII letter, `_` or `$`, then ASCII letters,
/// digits, `_`, `$` or `-`.
pub fn is_identifier_like(value: &str) -> (identifier: bool)
    ensures
        identifier == is_identifier(value@),
{
    let chars = text::chars_of(value);
    is_identifier_chars(chars.as_slice())
}

/// Whether `c` may start an identifier.
fn may_start_identifier(c: char) -> (may: bool)
    ensures
        may == starts_identifier(c),
{
    ('a' <= c && c <= 'z') || ('A' <= c && c <= 'Z') || c == '_' || c == '$'
}

/// Whether `chars` looks like an identifier.
fn is_identifier_chars(chars: &[char]) -> (identifier: bool)
    ensures
        identifier == is_identifier(chars@),
{
    if chars.len() == 0 || !may_start_identifier(chars[0]) {
        return false;
    }
    let mut i: usize = 1;
    while i < chars.len()
        invariant
            1 <= i <= chars@.len(),
            forall|j: int| 1 <= j < i ==> continues_identifier(#[trigger] chars@[j]),
        decreases chars@.len() - i,
    {
        let c = chars[i];
        if !(may_start_identifier(c) || ('0' <= c && c <= '9') || c == '-') {
            return false;
        }
        i += 1;
    }
    true
}

/// Strips a statement of the white space around it and of the commas, then the semicolons, at
/// its end.
pub fn normalize_statement(line: &str) -> (statement: String)
    ensures
        statement@ == normalized(line@),
{
    let chars = text::chars_of(line);
    let bare = text::trim(chars.as_slice());
    let uncomma = text::trim_end_matches(bare, CharClass::Is(','));
    let unended = text::trim_end_matches(uncomma, CharClass::Is(';'));
    text::string_of(text::trim(unended))
}

/// Where the identifier that `chars` declares with `keyword` starts and ends, if there is one.
fn find_name_after(chars: &[char], keyword: &str) -> (range: Option<(usize, usize)>)
    ensures
        range is Some == name_after(chars@, keyword@) is Some,
        range matches Some((start, end)) ==> {
            &&& start <= end <= chars@.len()
            &&& name_after(chars@, keyword@) == Some(chars@.subrange(start as int, end as int))
        },
{
    if !text::starts_with(chars, keyword) {
        return None;
    }
    let start = keyword.unicode_len();
    let rest = text::skip(chars, start);
    let len = text::find(rest, CharClass::NameBreak);
    if is_identifier_chars(text::take(rest, len)) {
        assert(start + len <= chars.len());
        assert(rest@.take(len as int) =~= chars@.subrange(start as int, start + len));
        Some((start, start + len))
    } else {
        None
    }
}

/// The identifier that `line` declares with `const`, `let` or `var`.
pub fn declaration_name(line: &str) -> (name: Option<&str>)
    ensures
        name is Some == declared_name(line@) is Some,
        name matches Some(n) ==> declared_name(line@) == Some(n@) && is_identifier(n@),
{
    let chars = text::chars_of(line);
    if let Some((start, end)) = find_name_after(chars.as_slice(), "const ") {
        return Some(line.substring_char(start, end));
    }
    if let Some((start, end)) = find_name_after(chars.as_slice(), "let ") {
        return Some(line.substring_char(start, end));
    }
    if let Some((start, end)) = find_name_after(chars.as_slice(), "var ") {
        return Some(line.substring_char(start, end));
    }
    None
}

/// What a declaration assigns.
fn find_assigned_value(line: &str) -> (value: String)
    ensures
        value@ == assigned_value(line@),
{
    let chars = text::chars_of(line);
    let eq = text::find(chars.as_slice(), CharClass::Is('='));
    if eq < chars.len() {
        let value = text::trim(text::skip(chars.as_slice(), eq + 1));
        text::string_of(text::trim(text::trim_end_matches(value, CharClass::Is(';'))))
    } else {
        String::new()
    }
}

/// Builds the node of a declaration.
fn make_declaration(name: &str, line: &str, id: &str, at: u32) -> (n: SemanticNode)
    ensures
        n@ == declaration(name@, assigned_value(line@), id@, at),
{
    let value = find_assigned_value(line);
    let mut children: Vec<SemanticNode> = Vec::new();
    assert(node::views(children@) =~= Seq::empty());
    if !value.as_str().is_empty() {
        let value_id = node::make_child_id(id, 0);
        let child = node::make_leaf(value_id.as_str(), "declaration_value", value, at);
        children.push(child);
        assert(node::views(children@) =~= seq![child@]);
    }
    node::make_node(id, "variable_declaration", name.to_owned(), at, at, "", children)
}

/// Builds the node of a normalized statement, if it is an import or a declaration.
fn make_statement(line: String, id: &str, at: u32) -> (n: Option<SemanticNode>)
    ensures
        n is Some == statement(line@, id@, at) is Some,
        n matches Some(n) ==> statement(line@, id@, at) == Some(n@),
{
    let chars = text::chars_of(line.as_str());
    if text::starts_with(chars.as_slice(), "import ") {
        return Some(node::make_leaf(id, "import_statement", line, at));
    }
    match declaration_name(line.as_str()) {
        Some(name) => Some(make_declaration(name, line.as_str(), id, at)),
        None => None,
    }
}

/// A blank statement is neither an import nor a declaration.
proof fn lemma_blank_statement(line: Seq<char>, id: Seq<char>, at: u32)
    requires
        line.len() == 0,
    ensures
        statement(line, id, at) is None,
{
    reveal_strlit("import ");
    reveal_strlit("const ");
    reveal_strlit("let ");
    reveal_strlit("var ");
}

/// The nodes of the imports and declarations in the frontmatter, in order. `start_line` is the
/// number of the first line of `content`, and `id_prefix` the identifier of the parent.
pub fn extract_frontmatter_children(content: &str, start_line: u32, id_prefix: &str) -> (children:
    Vec<SemanticNode>)
    requires
        statement_lines_fit(content@, start_line),
    ensures
        node::views(children@) == statements(lines::lines(content@), start_line, id_prefix@),
{
    let all = lines::split_lines(content);
    let ghost texts = lines::lines(content@);
    let mut children: Vec<SemanticNode> = Vec::new();
    let mut i: usize = 0;
    assert(node::views(children@) =~= statements(texts.take(0), start_line, id_prefix@));
    while i < all.len()
        invariant
            i <= all@.len(),
            statement_lines_fit(content@, start_line),
            texts == lines::lines(content@),
            texts == text::views(all@),
            node::views(children@) == statements(texts.take(i as int), start_line, id_prefix@),
        decreases all@.len() - i,
    {
        assert(texts.take(i + 1).drop_last() =~= texts.take(i as int));
        assert(texts[i as int] == all@[i as int]@);
        let line = normalize_statement(all[i].as_str());
        let ghost id = node::child_id(id_prefix@, children@.len());
        let ghost at = lines::line_number(start_line, i as nat);
        let ghost done = children@;
        if line.as_str().is_empty() {
            proof {
                lemma_blank_statement(line@, id, at);
            }
        } else {
            let absolute_line = start_line + #[verifier::truncate] (i as u32);
            let child_id = node::make_child_id(id_prefix, children.len());
            if let Some(child) = make_statement(line, child_id.as_str(), absolute_line) {
                children.push(child);
                proof {
                    node::lemma_views_push(done, child);
                }
            }
        }
        i += 1;
    }
    assert(texts.take(i as int) =~= texts);
    children
}

} // verus!
