use astro_parser::lines::{join, split_lines, split_words};
use astro_parser::template::{
    extract_brace_labels, extract_template_children, parse_attr_labels, parse_tag_segment,
};
use astro_parser::text::{
    chars_of, ends_with, equals, find, is_whitespace, starts_with, string_of, trim, trim_matches,
    CharClass,
};

#[test]
fn white_space_is_that_of_the_standard_library() {
    for n in 0..=0x10ffffu32 {
        if let Some(c) = char::from_u32(n) {
            assert_eq!(is_whitespace(c), c.is_whitespace());
        }
    }
}

#[test]
fn lines_are_those_of_the_standard_library() {
    for s in [
        "", "a", "\n", "\n\n", "a\n", "a\nb", "a\r\nb\r", "\r\n", "a\r\r\nb", "\r", "a\rb\n\nc\r\n",
        "\u{e9}\n\u{1f600}",
    ] {
        assert_eq!(split_lines(s), s.lines().collect::<Vec<&str>>());
    }
}

#[test]
fn words_are_those_of_the_standard_library() {
    for s in ["", "  ", "a", " a  b\tc\n", "\u{a0}x\u{2003}y\u{feff}z"] {
        let chars = chars_of(s);
        let words: Vec<String> = split_words(&chars).iter().map(|w| string_of(w)).collect();
        assert_eq!(words, s.split_whitespace().collect::<Vec<&str>>());
    }
}

#[test]
fn joining_is_that_of_the_standard_library() {
    let parts: Vec<String> = vec!["a".to_string(), "".to_string(), "b".to_string()];
    assert_eq!(join(&parts, 0, 3, "\n"), parts.join("\n"));
    assert_eq!(join(&parts, 1, 3, "|"), "|b");
    assert_eq!(join(&parts, 1, 1, "|"), "");
}

#[test]
fn searching_and_stripping() {
    let chars = chars_of("  {{a}}  ");
    assert_eq!(find(&chars, CharClass::Is('a')), 4);
    assert_eq!(find(&chars, CharClass::Is('z')), chars.len());
    let inner = trim(&chars);
    assert_eq!(string_of(inner), "{{a}}");
    assert_eq!(string_of(trim_matches(inner, CharClass::Is('{'))), "a}}");
    assert!(starts_with(inner, "{{"));
    assert!(!starts_with(inner, "{{{"));
    assert!(ends_with(inner, "}}"));
    assert!(!ends_with(inner, "{{a}}}"));
    assert!(equals(inner, "{{a}}"));
    assert!(!equals(inner, "{{a}"));
}

#[test]
fn attribute_labels() {
    assert_eq!(
        parse_attr_labels("charset=\"UTF-8\" class='a' on={go} flag / x= =y a=\"b=c\" >"),
        vec!["charset=UTF-8", "class=a", "on=go", "flag", "x", "a=b=c"]
    );
    assert_eq!(parse_attr_labels("a/> b='\"{c}\"' c={'d'}"), vec!["a", "b=\"{c}\"", "c='d'"]);
    assert!(parse_attr_labels(" \t ").is_empty());
    assert!(parse_attr_labels("/ >").is_empty());
    assert_eq!(parse_attr_labels("a=\"\""), vec!["a="]);
}

#[test]
fn tag_segments() {
    let tag = |s: &str| parse_tag_segment(s);
    let some = |t: &str, a: &str| Some((t.to_string(), a.to_string()));
    assert_eq!(tag("H1"), some("h1", ""));
    assert_eq!(tag(" meta charset=\"UTF-8\" / "), some("meta", "charset=\"UTF-8\""));
    assert_eq!(tag("br/"), some("br", ""));
    assert_eq!(tag("a/b c"), some("a", "/b c"));
    assert_eq!(tag("\u{c9}T\u{c9} x"), some("\u{e9}t\u{e9}", "x"));
    assert_eq!(tag(""), None);
    assert_eq!(tag("  "), None);
    assert_eq!(tag("/p"), None);
    assert_eq!(tag("!-- x --"), None);
    assert_eq!(tag(">a"), None);
}

#[test]
fn brace_labels() {
    assert_eq!(extract_brace_labels("{a} b { c } {}"), vec!["a", "c"]);
    assert_eq!(extract_brace_labels("{#if x}{/if}{ #y }"), Vec::<String>::new());
    assert_eq!(extract_brace_labels("{{a}} {b}"), vec!["b"]);
    assert_eq!(extract_brace_labels("{{{a}"), vec!["a"]);
    assert_eq!(extract_brace_labels("{a{b}c}"), vec!["a{b"]);
    assert_eq!(extract_brace_labels("} {open"), Vec::<String>::new());
}

#[test]
fn template_nodes() {
    let content = "<Main id=a><p>{x} 1 < 2</p>\n\n<!-- c --><img\n src=\"s\"/> {y}";
    let nodes = extract_template_children(content, 3, "0.1");
    let got: Vec<(&str, &str, &str, u32)> = nodes
        .iter()
        .map(|n| (n.id.as_str(), n.node_type.as_str(), n.label.as_str(), n.start_line))
        .collect();
    assert_eq!(
        got,
        vec![
            ("0.1.0", "element", "main", 3),
            ("0.1.1", "element", "p", 3),
            ("0.1.2", "element", "2<", 3),
            ("0.1.3", "interpolation", "x", 3),
            ("0.1.4", "interpolation", "y", 6),
        ]
    );
    assert_eq!(nodes[0].children[0].id, "0.1.0.0");
    assert_eq!(nodes[0].children[0].label, "id=a");
    assert_eq!(nodes[0].children[0].node_type, "attribute");
    assert_eq!(nodes[2].children[0].label, "/p");
}
