use kg_core::front::FrontValue;
use kg_core::parser::{
    extract_first_paragraph, extract_tags, extract_title, find_context, parse_document,
    parse_document_from, parse_file_content, parse_file_content_from, strip_frontmatter_raw,
    MatterParse,
};

fn s(x: &str) -> FrontValue {
    FrontValue::Str(x.to_string())
}

fn obj(entries: Vec<(&str, FrontValue)>) -> FrontValue {
    FrontValue::Object(entries.into_iter().map(|(k, v)| (k.to_string(), v)).collect())
}

// --- tag extraction ---

#[test]
fn tags_array_of_strings() {
    let fm = obj(vec![("tags", FrontValue::Array(vec![s("a"), s("b")]))]);
    assert_eq!(extract_tags(&fm), vec!["a", "b"]);
}

#[test]
fn tags_single_string() {
    let fm = obj(vec![("tags", s("solo"))]);
    assert_eq!(extract_tags(&fm), vec!["solo"]);
}

#[test]
fn no_tags_field() {
    assert!(extract_tags(&obj(vec![])).is_empty());
}

#[test]
fn tags_skip_items_that_are_not_strings() {
    let fm = obj(vec![(
        "tags",
        FrontValue::Array(vec![s("a"), FrontValue::Number("3".into()), s("c")]),
    )]);
    assert_eq!(extract_tags(&fm), vec!["a", "c"]);
}

// --- title extraction ---

#[test]
fn title_from_frontmatter() {
    let fm = obj(vec![("title", s("Alice"))]);
    assert_eq!(extract_title(&fm, "People/Alice Smith.md"), "Alice");
}

#[test]
fn title_fallback_to_filename() {
    assert_eq!(extract_title(&obj(vec![]), "People/Alice Smith.md"), "Alice Smith");
}

#[test]
fn title_fallback_when_title_is_not_a_string() {
    let fm = obj(vec![("title", FrontValue::Bool(true))]);
    assert_eq!(extract_title(&fm, "Notes/Deep.md"), "Deep");
}

// --- first paragraph ---

#[test]
fn first_paragraph_skips_headings() {
    assert_eq!(extract_first_paragraph("# H\n\nBody\n\nMore"), "Body");
}

#[test]
fn first_paragraph_no_headings() {
    assert_eq!(extract_first_paragraph("Body\n\nMore"), "Body");
}

#[test]
fn only_heading_returns_empty() {
    assert_eq!(extract_first_paragraph("# H\n"), "");
}

#[test]
fn first_paragraph_trimmed() {
    assert_eq!(extract_first_paragraph("# H\n\n  Body  \n\nMore"), "Body");
}

// --- edge context ---

#[test]
fn finds_paragraph_containing_link() {
    let body = "First para.\n\nContains [[Widget Theory]] link.\n\nThird.";
    assert_eq!(find_context("Widget Theory", body), "Contains [[Widget Theory]] link.");
}

#[test]
fn no_match_returns_empty() {
    assert_eq!(find_context("Missing", "No links here"), "");
}

#[test]
fn context_is_trimmed() {
    let body = "First.\n\n  has [[X]] link  \n\nLast.";
    assert_eq!(find_context("X", body), "has [[X]] link");
}

// --- front matter and whole notes ---

#[test]
fn malformed_front_matter_falls_back_to_text_after_delimiters() {
    let content = "---\ntitle: [unclosed\n---\nbody here";
    let (fm, body) = parse_file_content_from(content, Err("bad yaml".to_string()));
    assert!(matches!(fm, FrontValue::Object(ref es) if es.is_empty()));
    assert!(body.contains("body here"));
    assert!(!body.contains("unclosed"));
}

#[test]
fn front_matter_that_is_not_an_object_becomes_empty() {
    let m = MatterParse { data: Some(s("just text")), content: "rest".to_string() };
    let (fm, body) = parse_file_content_from("---\njust text\n---\nrest", Ok(m));
    assert!(matches!(fm, FrontValue::Object(ref es) if es.is_empty()));
    assert_eq!(body, "rest");
}

#[test]
fn strip_frontmatter_without_front_matter_keeps_text() {
    assert_eq!(strip_frontmatter_raw("# Heading\n\nBody"), "# Heading\n\nBody");
}

#[test]
fn parse_document_builds_node_and_edges() {
    let content = "---\ntitle: Alice Smith\ntags:\n  - person\n---\nLead on [[Widget Theory]].\n\nSee [[Bob Jones|Bob]].";
    let m = MatterParse {
        data: Some(obj(vec![
            ("title", s("Alice Smith")),
            ("tags", FrontValue::Array(vec![s("person")])),
        ])),
        content: "Lead on [[Widget Theory]].\n\nSee [[Bob Jones|Bob]].".to_string(),
    };
    let (node, edges) = parse_document_from("People/Alice Smith.md", content, Ok(m));
    assert_eq!(node.id, "People/Alice Smith.md");
    assert_eq!(node.title, "Alice Smith");
    assert_eq!(node.tags, vec!["person"]);
    assert_eq!(node.first_paragraph, "Lead on [[Widget Theory]].");
    assert_eq!(edges.len(), 2);
    assert_eq!(edges[0].source, "People/Alice Smith.md");
    assert_eq!(edges[0].target_raw, "Widget Theory");
    assert_eq!(edges[0].context, "Lead on [[Widget Theory]].");
    assert_eq!(edges[1].target_raw, "Bob Jones");
    assert_eq!(edges[1].context, "See [[Bob Jones|Bob]].");
}

#[test]
fn parse_document_without_front_matter_uses_file_name() {
    let content = "# Orphan\n\nNo links.";
    let m = MatterParse { data: None, content: content.to_string() };
    let (node, edges) = parse_document_from("orphan.md", content, Ok(m));
    assert_eq!(node.title, "orphan");
    assert!(node.tags.is_empty());
    assert_eq!(node.first_paragraph, "No links.");
    assert!(edges.is_empty());
}

// --- front matter split by gray_matter ---

#[test]
fn malformed_yaml_returns_empty_object() {
    let (fm, body) = parse_file_content("---\ntitle: [unclosed\n---\nbody here");
    assert!(matches!(fm, FrontValue::Object(ref es) if es.is_empty()));
    assert!(body.contains("body here"));
}

#[test]
fn no_frontmatter_returns_empty_object() {
    let (fm, body) = parse_file_content("# Just a heading\n\nSome body text.");
    assert!(matches!(fm, FrontValue::Object(ref es) if es.is_empty()));
    assert!(body.contains("Just a heading"));
}

#[test]
fn parses_valid_yaml_to_json() {
    let (fm, _) = parse_file_content("---\ntitle: Test\ntags:\n  - a\n  - b\n---\nbody");
    let entries = match fm {
        FrontValue::Object(es) => es,
        other => panic!("expected an object, got {other:?}"),
    };
    let get = |k: &str| entries.iter().find(|(key, _)| key == k).map(|(_, v)| v);
    assert!(matches!(get("title"), Some(FrontValue::Str(t)) if t == "Test"));
    match get("tags") {
        Some(FrontValue::Array(items)) => {
            assert!(matches!(&items[0], FrontValue::Str(t) if t == "a"));
            assert!(matches!(&items[1], FrontValue::Str(t) if t == "b"));
        }
        other => panic!("expected tags array, got {other:?}"),
    }
}

#[test]
fn nested_yaml_becomes_nested_json() {
    let (fm, _) = parse_file_content("---\nouter:\n  inner: value\n---\n");
    match fm {
        FrontValue::Object(es) => match &es[0] {
            (k, FrontValue::Object(inner)) => {
                assert_eq!(k, "outer");
                assert_eq!(inner[0].0, "inner");
                assert!(matches!(&inner[0].1, FrontValue::Str(v) if v == "value"));
            }
            other => panic!("expected nested object, got {other:?}"),
        },
        other => panic!("expected an object, got {other:?}"),
    }
}

#[test]
fn front_matter_is_split_from_the_body() {
    let (fm, body) = parse_file_content("---\ntitle: T\n---\nFirst para.\n\nSee [[X]].");
    assert!(matches!(fm, FrontValue::Object(ref es) if es.len() == 1));
    assert!(!body.contains("title: T"));
    assert!(body.contains("First para."));
}

#[test]
fn parse_document_uses_the_front_matter_and_body() {
    let content = "---\ntitle: Alice\ntags: [a]\n---\nLead on [[W]].\n\nMore.";
    let (node, edges) = parse_document("P/Alice.md", content);
    assert_eq!(node.title, "Alice");
    assert_eq!(node.tags, vec!["a"]);
    assert_eq!(node.first_paragraph, "Lead on [[W]].");
    assert_eq!(edges.len(), 1);
    assert_eq!(edges[0].target_raw, "W");
    assert_eq!(edges[0].context, "Lead on [[W]].");
}

#[test]
fn title_from_front_matter_number_falls_back_to_file_name() {
    let (node, _) = parse_document("Notes/Deep.md", "---\ntitle: 42\n---\nBody");
    assert_eq!(node.title, "Deep");
}
