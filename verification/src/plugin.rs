//! The parser as a plugin: what it announces about itself, and its entry points.

use crate::component;
use crate::json;
use crate::text;
use crate::text::CharClass;
use vstd::prelude::*;

verus! {

/// The older of the two example components.
pub const EXAMPLE_OLD: &'static str =
    "---\nconst title = \"My Site\";\n---\n<html>\n  <head><title>{title}</title></head>\n  <body>\n    <h1>Hello World</h1>\n    <p>Welcome to my site.</p>\n  </body>\n</html>\n";

/// The newer of the two example components.
pub const EXAMPLE_NEW: &'static str =
    "---\nconst title = \"My Site\";\nconst year = new Date().getFullYear();\n---\n<html lang=\"en\">\n  <head>\n    <meta charset=\"UTF-8\" />\n    <title>{title}</title>\n  </head>\n  <body>\n    <header><h1>Hello World</h1></header>\n    <main><p>Welcome to my site. &copy; {year}</p></main>\n  </body>\n</html>\n";

/// How a plugin parses.
#[derive(Debug, PartialEq, Eq, Structural)]
pub enum ParserMode {
    /// The plugin builds the whole tree itself.
    FullParse,
}

/// Two versions of an example file.
pub struct ExamplePair {
    pub old: String,
    pub new: String,
}

/// What the plugin's metadata says about one language.
pub struct LanguageInfo {
    pub language_id: String,
    pub language_name: String,
    pub language_short_name: String,
    pub monaco_language: String,
    pub default_filename: String,
    pub language_file_extensions: Vec<String>,
}

/// What the plugin announces about one language.
pub struct LanguageInfoRecord {
    pub language_id: String,
    pub language_name: String,
    pub language_short_name: String,
    pub monaco_language: String,
    pub default_filename: String,
    pub language_file_extensions: Vec<String>,
    pub author: String,
    pub plugin_version: String,
    pub last_updated: String,
}

/// Whether `record` announces `info`, with the given author, version and date.
pub open spec fn announces(
    record: LanguageInfoRecord,
    info: LanguageInfo,
    author: Seq<char>,
    plugin_version: Seq<char>,
    last_updated: Seq<char>,
) -> bool {
    &&& record.language_id == info.language_id
    &&& record.language_name == info.language_name
    &&& record.language_short_name == info.language_short_name
    &&& record.monaco_language == info.monaco_language
    &&& record.default_filename == info.default_filename
    &&& record.language_file_extensions == info.language_file_extensions
    &&& record.author@ == author
    &&& record.plugin_version@ == plugin_version
    &&& record.last_updated@ == last_updated
}

/// The identifier of the grammar.
pub open spec fn grammar() -> Seq<char> {
    "astro"@
}

/// The languages that the plugin parses.
pub open spec fn languages() -> Seq<Seq<char>> {
    seq![grammar()]
}

/// The ASCII end of a file name, in lower case.
pub open spec fn lower_end(filename: Seq<char>) -> Seq<char> {
    text::ascii_lower(text::after_last(filename, CharClass::NonAscii))
}

/// Whether the ASCII end of a file name alone tells its language: it is long enough to hold the
/// extension, it differs from the extension, or it is the whole name.
pub open spec fn end_tells_language(filename: Seq<char>) -> bool {
    let end = lower_end(filename);
    ||| end.len() >= ".astro"@.len()
    ||| !text::finishes_with(".astro"@, end)
    ||| end.len() == filename.len()
}

/// Whether a file name ends in `.astro`, in either case of letters.
pub open spec fn is_astro_name(filename: Seq<char>) -> bool {
    if end_tells_language(filename) {
        text::finishes_with(lower_end(filename), ".astro"@)
    } else {
        text::finishes_with(text::lowercase(filename), ".astro"@)
    }
}

/// The language of a file, by its name: `astro` if the name ends in `.astro`, in either case of
/// letters; otherwise empty.
pub open spec fn language_of(filename: Seq<char>) -> Seq<char> {
    if is_astro_name(filename) {
        "astro"@
    } else {
        Seq::empty()
    }
}

/// A text without a character beyond ASCII is ASCII.
proof fn lemma_ascii(s: Seq<char>)
    requires
        forall|i: int| 0 <= i < s.len() ==> !CharClass::NonAscii.has(#[trigger] s[i]),
    ensures
        vstd::utf8::is_ascii_chars(s),
{
    assert forall|i: int| 0 <= i < s.len() implies '\0' <= #[trigger] s[i] <= '\u{7f}' by {
        text::lemma_char_range(s[i]);
    }
}

/// A name whose ASCII end is not all of it is not ASCII.
proof fn lemma_not_ascii(filename: Seq<char>)
    requires
        lower_end(filename).len() != filename.len(),
    ensures
        !vstd::utf8::is_ascii_chars(filename),
{
    text::lemma_after_last_suffix(filename, CharClass::NonAscii);
    let tail = text::after_last(filename, CharClass::NonAscii);
    assert(CharClass::NonAscii.has(filename[filename.len() - tail.len() - 1]));
}

/// The ASCII end decides about the whole: where a lower-case name ends in `end`, and `end` tells
/// the language, the name ends in `.astro` just where `end` does.
proof fn lemma_end_decides(filename: Seq<char>, lower: Seq<char>)
    requires
        end_tells_language(filename),
        text::finishes_with(lower, lower_end(filename)),
        lower_end(filename).len() == filename.len() ==> lower == lower_end(filename),
    ensures
        text::finishes_with(lower, ".astro"@) == is_astro_name(filename),
{
    let end = lower_end(filename);
    let extension = ".astro"@;
    if end.len() >= extension.len() {
        assert(lower.skip(lower.len() - extension.len()) =~= lower.skip(
            lower.len() - end.len(),
        ).skip(end.len() - extension.len()));
    } else if end.len() < filename.len() && text::finishes_with(lower, extension) {
        assert(lower.skip(lower.len() - end.len()) =~= lower.skip(
            lower.len() - extension.len(),
        ).skip(extension.len() - end.len()));
    }
}

/// What the plugin announces about each language that the metadata describes, in order.
pub fn language_info_for(
    infos: Vec<LanguageInfo>,
    author: &str,
    plugin_version: &str,
    last_updated: &str,
) -> (records: Vec<LanguageInfoRecord>)
    ensures
        records@.len() == infos@.len(),
        forall|i: int|
            0 <= i < infos@.len() ==> announces(
                #[trigger] records@[i],
                infos@[i],
                author@,
                plugin_version@,
                last_updated@,
            ),
{
    let ghost all = infos@;
    let mut infos = infos;
    let mut records: Vec<LanguageInfoRecord> = Vec::new();
    assert(infos@ =~= all.skip(0));
    while infos.len() > 0
        invariant
            infos@.len() + records@.len() == all.len(),
            infos@ == all.skip(records@.len() as int),
            forall|i: int|
                0 <= i < records@.len() ==> announces(
                    #[trigger] records@[i],
                    all[i],
                    author@,
                    plugin_version@,
                    last_updated@,
                ),
        decreases infos@.len(),
    {
        let info = infos.remove(0);
        records.push(
            LanguageInfoRecord {
                language_id: info.language_id,
                language_name: info.language_name,
                language_short_name: info.language_short_name,
                monaco_language: info.monaco_language,
                default_filename: info.default_filename,
                language_file_extensions: info.language_file_extensions,
                author: author.to_owned(),
                plugin_version: plugin_version.to_owned(),
                last_updated: last_updated.to_owned(),
            },
        );
        assert(infos@ =~= all.skip(records@.len() as int));
    }
    records
}

/// The parser for Astro components.
pub struct AstroParser;

impl AstroParser {
    /// The plugin builds the whole tree itself.
    pub fn get_parser_mode() -> (mode: ParserMode)
        ensures
            mode == ParserMode::FullParse,
    {
        ParserMode::FullParse
    }

    /// The identifier of the grammar.
    pub fn grammar_id() -> (id: String)
        ensures
            id@ == grammar(),
    {
        "astro".to_owned()
    }

    /// The language of a file, by its name alone: `astro`, or empty.
    pub fn detect_language(filename: String, _content: String) -> (language: String)
        ensures
            language@ == language_of(filename@),
            language@.len() > 0 <==> text::finishes_with(text::lowercase(filename@), ".astro"@),
    {
        let lower = filename.as_str().to_lowercase();
        proof {
            let tail = text::after_last(filename@, CharClass::NonAscii);
            text::lemma_after_last_suffix(filename@, CharClass::NonAscii);
            lemma_ascii(tail);
            if tail.len() == filename@.len() {
                assert(filename@.skip(0) =~= filename@);
            }
            if end_tells_language(filename@) {
                lemma_end_decides(filename@, lower@);
            } else {
                lemma_not_ascii(filename@);
            }
            reveal_strlit("astro");
        }
        let chars = text::chars_of(lower.as_str());
        if text::ends_with(chars.as_slice(), ".astro") {
            return "astro".to_owned();
        }
        String::new()
    }

    /// The source as it is to be parsed: unchanged.
    pub fn preprocess_source(source: String) -> (out: String)
        ensures
            out == source,
    {
        source
    }

    /// An example of a component and a change to it.
    pub fn example(_language: String) -> (pair: ExamplePair)
        ensures
            pair.old@ == EXAMPLE_OLD@,
            pair.new@ == EXAMPLE_NEW@,
    {
        ExamplePair { old: EXAMPLE_OLD.to_owned(), new: EXAMPLE_NEW.to_owned() }
    }

    /// The tree of a component as JSON text.
    pub fn process(input: String, _language: String, filename: String) -> (out: String)
        requires
            component::line_numbers_fit(input@),
        ensures
            out@ == json::json_text(json::node_json(component::tree(input@, filename@))),
    {
        component::process_impl(input.as_str(), filename.as_str())
    }

    /// The node types that a comparison may ignore: none.
    pub fn trivia_node_types() -> (types: Vec<String>)
        ensures
            types@.len() == 0,
    {
        Vec::new()
    }

    /// The languages that the plugin parses.
    pub fn language_ids() -> (ids: Vec<String>)
        ensures
            text::views(ids@) == languages(),
    {
        let ids = vec!["astro".to_owned()];
        assert(text::views(ids@) =~= languages());
        ids
    }

    /// The priority among plugins for the same language.
    pub fn priority() -> (priority: i32)
        ensures
            priority == 0,
    {
        0
    }
}

} // verus!
