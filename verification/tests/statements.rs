use astro_parser::component::check_line_numbers;
use astro_parser::frontmatter::{
    check_statement_lines, declaration_name, extract_frontmatter_children, is_identifier_like, normalize_statement,
};
use astro_parser::hash::content_hash;
use astro_parser::numerals::{to_decimal, to_hex};
use astro_parser::template::check_template_lines;

#[test]
fn identifiers() {
    for good in ["a", "_", "$", "A1", "a-b", "$x_9"] {
        assert!(is_identifier_like(good), "{}", good);
    }
    for bad in ["", "1a", "-a", "a b", "{a", "a.b", "\u{e9}", "a\u{e9}"] {
        assert!(!is_identifier_like(bad), "{}", bad);
    }
}

#[test]
fn statements_are_normalized() {
    assert_eq!(normalize_statement("  const a = 1;  "), "const a = 1");
    assert_eq!(normalize_statement("a,,"), "a");
    assert_eq!(normalize_statement("a;;,"), "a");
    assert_eq!(normalize_statement("a,;"), "a,");
    assert_eq!(normalize_statement("a ;"), "a");
    assert_eq!(normalize_statement("\u{a0}a\u{3000}"), "a");
    assert_eq!(normalize_statement(" ; "), "");
}

#[test]
fn declared_names() {
    assert_eq!(declaration_name("const a = 1"), Some("a"));
    assert_eq!(declaration_name("let b: number"), Some("b"));
    assert_eq!(declaration_name("var c;"), Some("c"));
    assert_eq!(declaration_name("const d=2"), Some("d"));
    assert_eq!(declaration_name("const { a } = x"), None);
    assert_eq!(declaration_name("const  a = 1"), None);
    assert_eq!(declaration_name("constant a"), None);
    assert_eq!(declaration_name("a = 1"), None);
    assert_eq!(declaration_name("let \u{e9} = 1"), None);
}

#[test]
fn frontmatter_statements() {
    let content = "import a from 'b';\n\n// note\nlet x\nconst y = ;\nvar z = a == b;;\nconst f = () => {\nimport";
    let nodes = extract_frontmatter_children(content, 10, "0.0");
    let got: Vec<(&str, &str, &str, u32)> = nodes
        .iter()
        .map(|n| (n.id.as_str(), n.node_type.as_str(), n.label.as_str(), n.start_line))
        .collect();
    assert_eq!(
        got,
        vec![
            ("0.0.0", "import_statement", "import a from 'b'", 10),
            ("0.0.1", "variable_declaration", "x", 13),
            ("0.0.2", "variable_declaration", "y", 14),
            ("0.0.3", "variable_declaration", "z", 15),
            ("0.0.4", "variable_declaration", "f", 16),
        ]
    );
    assert!(nodes[0].children.is_empty());
    assert!(nodes[1].children.is_empty());
    assert!(nodes[2].children.is_empty());
    assert_eq!(nodes[3].children[0].label, "a == b");
    assert_eq!(nodes[3].children[0].id, "0.0.3.0");
    assert_eq!(nodes[3].children[0].start_line, 15);
    assert_eq!(nodes[4].children[0].label, "() => {");
    for n in &nodes {
        assert_eq!(n.end_line, n.start_line);
        assert_eq!(n.content_hash, "");
    }
}

#[test]
fn last_line_number_is_allowed() {
    let nodes = extract_frontmatter_children("let a\n\n", u32::MAX, "p");
    assert_eq!(nodes[0].start_line, u32::MAX);
}

#[test]
fn line_numbers_are_checked() {
    assert!(check_statement_lines("let a\n;\n", u32::MAX));
    assert!(!check_statement_lines("let a\nb", u32::MAX));
    assert!(check_statement_lines("let a\nb", u32::MAX - 1));
    assert!(check_template_lines("a", u32::MAX));
    assert!(!check_template_lines("a\n\n", u32::MAX));
    assert!(check_line_numbers(""));
    assert!(check_line_numbers("---\nlet a\n---\n<p>"));
}

#[test]
fn hashes() {
    assert_eq!(content_hash(""), "0000000000001505");
    assert_eq!(content_hash("a"), "000000000002b606");
    assert_eq!(content_hash("ab"), "0000000000597728");
    let mut h: u64 = 5381;
    let text = "h\u{e9}llo \u{1f600} world, long enough to wrap around";
    for b in text.bytes() {
        h = h.wrapping_mul(33).wrapping_add(b as u64);
    }
    assert_eq!(content_hash(text), format!("{:016x}", h));
}

#[test]
fn one_character_changes_the_hash() {
    let text = "<p>some text</p>";
    for i in 0..text.len() {
        let mut edited = text.as_bytes().to_vec();
        edited[i] = b'~';
        let edited = String::from_utf8(edited).unwrap();
        assert_ne!(content_hash(text), content_hash(&edited));
    }
}

#[test]
fn numerals_are_those_of_the_standard_library() {
    for n in [0usize, 1, 9, 10, 11, 99, 100, 12345, usize::MAX] {
        assert_eq!(to_decimal(n), n.to_string());
    }
    for n in [0u64, 1, 15, 16, 255, 0xdead_beef, u64::MAX] {
        assert_eq!(to_hex(n, 16), format!("{:016x}", n));
    }
}
