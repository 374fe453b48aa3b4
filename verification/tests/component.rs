use astro_parser::component::{parse_component, process_impl};
use astro_parser::document::parse_astro;
use astro_parser::json::{text_or_error, to_json};
use astro_parser::node::{make_leaf, make_node, SemanticNode};
use astro_parser::plugin::AstroParser;

fn collect_labels(value: &serde_json::Value) -> Vec<String> {
    let mut labels = Vec::new();
    if let Some(label) = value["label"].as_str() {
        labels.push(label.to_string());
    }
    if let Some(children) = value["children"].as_array() {
        for child in children {
            labels.extend(collect_labels(child));
        }
    }
    labels
}

fn collect_ids(node: &SemanticNode, ids: &mut Vec<String>) {
    ids.push(node.id.clone());
    for (i, child) in node.children.iter().enumerate() {
        assert_eq!(child.id, format!("{}.{}", node.id, i));
        collect_ids(child, ids);
    }
}

#[test]
fn empty_source_valid_json() {
    let out = process_impl("", "Page.astro");
    serde_json::from_str::<serde_json::Value>(&out).expect("valid JSON");
}

#[test]
fn frontmatter_and_template_extracted() {
    let src = "---\nimport Component from './Component.astro';\nconst title = 'Hello';\n---\n<h1>{title}</h1>";
    let parsed = parse_astro(src);
    assert!(parsed.frontmatter.is_some(), "should have frontmatter");
    assert!(parsed.template.is_some(), "should have template");
}

#[test]
fn no_frontmatter() {
    let src = "<h1>Hello</h1>";
    let parsed = parse_astro(src);
    assert!(parsed.frontmatter.is_none(), "no frontmatter expected");
    assert!(parsed.template.is_some(), "template expected");
}

#[test]
fn process_returns_valid_json_with_frontmatter() {
    let src = "---\nconst x = 1;\n---\n<p>x is {x}</p>";
    let out = process_impl(src, "Page.astro");
    let v: serde_json::Value = serde_json::from_str(&out).expect("valid JSON");
    let children = v["children"].as_array().expect("children array");
    assert!(children
        .iter()
        .any(|c| c["node_type"] == "frontmatter_block"));
    assert!(children.iter().any(|c| c["node_type"] == "template_body"));
    assert!(children.iter().any(|c| c["children"]
        .as_array()
        .is_some_and(|nested| nested.iter().any(|n| n["label"] == "x"))));
}

#[test]
fn example_extracts_component_children() {
    let example = AstroParser::example("astro".to_string());
    let out = process_impl(&example.new, "Page.astro");
    let v: serde_json::Value = serde_json::from_str(&out).expect("valid JSON");
    let labels = collect_labels(&v);
    assert!(labels.iter().any(|label| label == "year"));
    assert!(labels.iter().any(|label| label == "meta"));
    assert!(labels.iter().any(|label| label == "header"));
    assert!(labels.iter().any(|label| label == "main"));
}

#[test]
fn divided_source_lines_and_contents() {
    let parsed = parse_astro("\n --- \r\nconst a = 1;\r\n\nlet b;\n---\n<p>\n</p>\n");
    let f = parsed.frontmatter.unwrap();
    assert_eq!((f.start_line, f.end_line, f.content_start_line), (1, 5, 2));
    assert_eq!(f.content, "const a = 1;\n\nlet b;");
    let t = parsed.template.unwrap();
    assert_eq!((t.start_line, t.end_line, t.content_start_line), (6, 7, 6));
    assert_eq!(t.content, "<p>\n</p>");
}

#[test]
fn blocks_are_verbatim_between_the_fences() {
    let source = "---\nlet a;\n\n---\n<p>\n  x\n</p>\n";
    let parsed = parse_astro(source);
    let f = parsed.frontmatter.unwrap().content;
    let t = parsed.template.unwrap().content;
    assert_eq!(format!("---\n{}\n---\n{}\n", f, t), source);
}

#[test]
fn empty_frontmatter_and_no_template() {
    let parsed = parse_astro("---\n---");
    let f = parsed.frontmatter.unwrap();
    assert_eq!((f.start_line, f.end_line, f.content_start_line), (0, 1, 1));
    assert_eq!(f.content, "");
    assert_eq!(f.hash, "0000000000001505");
    assert!(parsed.template.is_none());
}

#[test]
fn unclosed_frontmatter_takes_the_whole_source() {
    let source = "\n---\nconst a = 1;\n";
    let parsed = parse_astro(source);
    let f = parsed.frontmatter.unwrap();
    assert_eq!((f.start_line, f.end_line, f.content_start_line), (1, 2, 1));
    assert_eq!(f.content, source);
    assert!(parsed.template.is_none());
}

#[test]
fn fence_after_text_opens_nothing() {
    let source = "<p/>\n---\nconst a = 1;\n---\n";
    let parsed = parse_astro(source);
    assert!(parsed.frontmatter.is_none());
    let t = parsed.template.unwrap();
    assert_eq!((t.start_line, t.end_line, t.content_start_line), (0, 3, 0));
    assert_eq!(t.content, source);
}

#[test]
fn fence_after_a_byte_order_mark_opens_the_frontmatter() {
    let parsed = parse_astro("\u{feff}---\nconst x = 1;\n---\n<p/>");
    let f = parsed.frontmatter.unwrap();
    assert_eq!((f.start_line, f.end_line, f.content_start_line), (0, 2, 1));
    assert_eq!(f.content, "const x = 1;");
    let t = parsed.template.unwrap();
    assert_eq!((t.start_line, t.end_line, t.content_start_line), (3, 3, 3));
    assert_eq!(t.content, "<p/>");
}

#[test]
fn byte_order_mark_alone_is_a_blank_first_line() {
    let parsed = parse_astro("\u{feff} \n---\nlet a;\n---\n");
    let f = parsed.frontmatter.unwrap();
    assert_eq!((f.start_line, f.end_line), (1, 3));
    assert_eq!(f.content, "let a;");
}

#[test]
fn byte_order_mark_counts_elsewhere() {
    for source in [
        "\u{feff}\u{feff}---\nlet a;\n---\n",
        "\n\u{feff}---\nlet a;\n---\n",
        " \u{feff}---\nlet a;\n---\n",
    ] {
        let parsed = parse_astro(source);
        assert!(parsed.frontmatter.is_none());
        assert_eq!(parsed.template.unwrap().content, source);
    }
    let unclosed = "---\nlet a;\n\u{feff}---\n";
    assert_eq!(parse_astro(unclosed).frontmatter.unwrap().content, unclosed);
}

#[test]
fn undivided_source_keeps_its_byte_order_mark() {
    let source = "\u{feff}<p/>\n";
    assert_eq!(parse_astro(source).template.unwrap().content, source);
    let unclosed = "\u{feff}---\nlet a;";
    assert_eq!(parse_astro(unclosed).frontmatter.unwrap().content, unclosed);
}

#[test]
fn empty_source_has_no_blocks() {
    let parsed = parse_astro("");
    assert!(parsed.frontmatter.is_none());
    assert!(parsed.template.is_none());
    let root = parse_component("", "Page.astro");
    assert!(root.children.is_empty());
    assert_eq!(root.end_line, 0);
    assert_eq!(root.content_hash, "0000000000001505");
}

#[test]
fn tree_of_a_component() {
    let source = "---\nimport A from 'a';\nconst x = 1;\n---\n<A B=\"c\">{x}</A>\n";
    let root = parse_component(source, "src/pages/Page.astro");
    assert_eq!(root.id, "0");
    assert_eq!(root.node_type, "astro_component");
    assert_eq!(root.label, "Page");
    assert_eq!((root.start_line, root.end_line), (0, 4));
    assert_eq!((root.start_col, root.end_col), (0, 0));
    assert_eq!(root.children.len(), 2);
    let f = &root.children[0];
    assert_eq!((f.id.as_str(), f.node_type.as_str()), ("0.0", "frontmatter_block"));
    assert_eq!(f.label, "frontmatter");
    assert_eq!((f.start_line, f.end_line), (0, 3));
    assert_eq!(f.children.len(), 2);
    assert_eq!(f.children[0].node_type, "import_statement");
    assert_eq!(f.children[0].label, "import A from 'a'");
    assert_eq!(f.children[0].start_line, 1);
    assert_eq!(f.children[1].node_type, "variable_declaration");
    assert_eq!(f.children[1].label, "x");
    assert_eq!(f.children[1].start_line, 2);
    assert_eq!(f.children[1].children[0].id, "0.0.1.0");
    assert_eq!(f.children[1].children[0].node_type, "declaration_value");
    assert_eq!(f.children[1].children[0].label, "1");
    let t = &root.children[1];
    assert_eq!((t.id.as_str(), t.node_type.as_str()), ("0.1", "template_body"));
    assert_eq!(t.label, "template");
    assert_eq!((t.start_line, t.end_line), (4, 4));
    assert_eq!(t.children.len(), 2);
    assert_eq!(t.children[0].node_type, "element");
    assert_eq!(t.children[0].label, "a");
    assert_eq!(t.children[0].children[0].node_type, "attribute");
    assert_eq!(t.children[0].children[0].label, "B=c");
    assert_eq!(t.children[1].node_type, "interpolation");
    assert_eq!(t.children[1].label, "x");
    assert_eq!(t.children[1].id, "0.1.1");
    let joined = format!("{}|{}", f.content_hash, t.content_hash);
    assert_eq!(root.content_hash, astro_parser::hash::content_hash(&joined));
}

#[test]
fn template_alone_is_the_first_child() {
    let root = parse_component("<p>", "a.astro");
    assert_eq!(root.children.len(), 1);
    assert_eq!(root.children[0].id, "0.0");
    assert_eq!(root.children[0].node_type, "template_body");
}

#[test]
fn identifiers_are_numbered_and_unique() {
    let example = AstroParser::example("astro".to_string());
    let root = parse_component(&example.new, "Page.astro");
    let mut ids = Vec::new();
    collect_ids(&root, &mut ids);
    let total = ids.len();
    ids.sort();
    ids.dedup();
    assert_eq!(ids.len(), total);
    assert!(total > 12);
}

#[test]
fn nodes_stand_within_their_blocks() {
    let example = AstroParser::example("astro".to_string());
    let root = parse_component(&example.new, "Page.astro");
    for block in &root.children {
        let mut last = block.start_line;
        for n in &block.children {
            assert!(last <= n.start_line && n.end_line <= block.end_line);
            last = n.start_line;
        }
    }
    assert_eq!(root.children[1].end_line, root.end_line);
}

#[test]
fn unclosed_frontmatter_counts_from_the_fence() {
    let root = parse_component("\n---\nlet a;", "a.astro");
    let f = &root.children[0];
    assert_eq!(f.end_line, 2);
    assert_eq!(f.children[0].start_line, 3);
}

#[test]
fn labels_of_components() {
    for (filename, label) in [
        ("Page.astro", "Page"),
        ("src/Page.astro", "Page"),
        ("src\\Page.astro", "Page"),
        ("a.b/Page.astro", "Page"),
        ("Page.test.astro", "Page.test"),
        ("my.page.astro", "my.page"),
        ("src\\a.b.c.astro", "a.b.c"),
        (".astro", ""),
        ("Page.", "Page"),
        ("Page", "Page"),
        ("a.b/Page", "Page"),
        ("", "component"),
        ("src/", "component"),
    ] {
        assert_eq!(parse_component("", filename).label, label);
    }
}

#[test]
fn value_edit_changes_the_output() {
    let a = process_impl("---\nconst title = \"My Site\";\n---\n", "a.astro");
    let b = process_impl("---\nconst title = \"My SiteX\";\n---\n", "a.astro");
    assert!(a != b);
    assert!(b.contains("My SiteX"));
}

#[test]
fn json_of_a_tree() {
    let leaf = make_leaf("0.0", "kind", "a \"quoted\"\nlabel".to_string(), 7);
    let root = make_node("0", "top", "\u{e9}".to_string(), 1, 9, "ff", vec![leaf]);
    let out = to_json(&root);
    let v: serde_json::Value = serde_json::from_str(&out).expect("valid JSON");
    assert_eq!(v.as_object().unwrap().len(), 9);
    assert_eq!(v["id"], "0");
    assert_eq!(v["node_type"], "top");
    assert_eq!(v["label"], "\u{e9}");
    assert_eq!(v["start_line"], 1);
    assert_eq!(v["start_col"], 0);
    assert_eq!(v["end_line"], 9);
    assert_eq!(v["end_col"], 0);
    assert_eq!(v["content_hash"], "ff");
    let children = v["children"].as_array().unwrap();
    assert_eq!(children.len(), 1);
    assert_eq!(children[0]["label"], "a \"quoted\"\nlabel");
    assert_eq!(children[0]["start_line"], 7);
    assert_eq!(children[0]["end_line"], 7);
    assert_eq!(children[0]["content_hash"], "");
    assert!(children[0]["children"].as_array().unwrap().is_empty());
}

#[test]
fn json_tells_trees_apart() {
    let node = |label: &str, line: u32, children: Vec<SemanticNode>| {
        to_json(&make_node("0", "t", label.to_string(), line, 9, "h", children))
    };
    let child = || vec![make_leaf("0.0", "t", "a".to_string(), 1)];
    let texts = [node("a", 1, vec![]), node("b", 1, vec![]), node("a", 2, vec![]), node("a", 1, child())];
    for i in 0..texts.len() {
        for j in 0..i {
            assert_ne!(texts[i], texts[j]);
        }
    }
}

#[test]
fn failed_writing_is_reported_as_json() {
    assert_eq!(text_or_error(Ok("{}".to_string())), "{}");
    assert_eq!(
        text_or_error(Err("key must be a string".to_string())),
        "{\"error\":\"Serialisation error: key must be a string\"}"
    );
}
