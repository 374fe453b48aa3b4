use astro_parser::plugin::{language_info_for, AstroParser, LanguageInfo, ParserMode};

#[test]
fn grammar_id_nonempty() {
    assert!(!AstroParser::grammar_id().is_empty());
}

#[test]
fn language_ids_contain_grammar_id() {
    assert!(AstroParser::language_ids().contains(&AstroParser::grammar_id()));
}

#[test]
fn detect_language_astro() {
    assert_eq!(
        AstroParser::detect_language("Page.astro".to_string(), "".to_string()),
        "astro"
    );
}

#[test]
fn detect_language_unknown() {
    assert_eq!(
        AstroParser::detect_language("main.ts".to_string(), "".to_string()),
        ""
    );
}

#[test]
fn detect_language_ignores_case() {
    for name in ["PAGE.ASTRO", "Page.Astro", "\u{c9}t\u{e9}.ASTRO", ".astro"] {
        assert_eq!(
            AstroParser::detect_language(name.to_string(), "".to_string()),
            "astro"
        );
    }
    assert_eq!(
        AstroParser::detect_language("astro".to_string(), ".astro".to_string()),
        ""
    );
}

#[test]
fn detect_language_by_the_ascii_end() {
    for (name, language) in [
        ("caf\u{e9}.astro", "astro"),
        ("CAF\u{c9}.ASTRO", "astro"),
        ("\u{3a3}.Astro", "astro"),
        ("caf\u{e9}.ts", ""),
        ("\u{e9}astro", ""),
        ("\u{e9}stro", ""),
        (".\u{e1}stro", ""),
        ("stro", ""),
        ("", ""),
    ] {
        assert_eq!(
            AstroParser::detect_language(name.to_string(), "".to_string()),
            language
        );
    }
}

#[test]
fn announcements() {
    assert_eq!(AstroParser::get_parser_mode(), ParserMode::FullParse);
    assert_eq!(AstroParser::language_ids(), vec!["astro".to_string()]);
    assert!(AstroParser::trivia_node_types().is_empty());
    assert_eq!(AstroParser::priority(), 0);
    assert_eq!(AstroParser::preprocess_source("a\r\nb".to_string()), "a\r\nb");
    let example = AstroParser::example("astro".to_string());
    assert!(example.old.starts_with("---\nconst title = \"My Site\";\n---\n<html>\n"));
    assert!(example.new.contains("&copy; {year}</p></main>\n"));
}

#[test]
fn process_is_the_tree_as_json() {
    let out = AstroParser::process("<p>".to_string(), "astro".to_string(), "A.astro".to_string());
    assert_eq!(out, astro_parser::component::process_impl("<p>", "A.astro"));
    let v: serde_json::Value = serde_json::from_str(&out).expect("valid JSON");
    assert_eq!(v["label"], "A");
}

#[test]
fn language_info_copies_the_metadata() {
    let info = |id: &str| LanguageInfo {
        language_id: id.to_string(),
        language_name: "Astro".to_string(),
        language_short_name: "as".to_string(),
        monaco_language: "html".to_string(),
        default_filename: "Page.astro".to_string(),
        language_file_extensions: vec!["astro".to_string()],
    };
    let records = language_info_for(vec![info("astro"), info("other")], "me", "1.2.3", "today");
    assert_eq!(records.len(), 2);
    assert_eq!(records[0].language_id, "astro");
    assert_eq!(records[1].language_id, "other");
    for r in &records {
        assert_eq!(r.language_name, "Astro");
        assert_eq!(r.language_short_name, "as");
        assert_eq!(r.monaco_language, "html");
        assert_eq!(r.default_filename, "Page.astro");
        assert_eq!(r.language_file_extensions, vec!["astro".to_string()]);
        assert_eq!(r.author, "me");
        assert_eq!(r.plugin_version, "1.2.3");
        assert_eq!(r.last_updated, "today");
    }
    assert!(language_info_for(vec![], "me", "1.2.3", "today").is_empty());
}
