use kg_core::wiki_links::{extract_wiki_links, strip_code_constructs, RawLink};

// --- strip_code_constructs ---

#[test]
fn strips_fenced_code_blocks() {
    let md = "before\n```\n[[fake]]\n```\nafter";
    let result = strip_code_constructs(md);
    assert!(!result.contains("[[fake]]"));
    assert!(result.contains("before"));
    assert!(result.contains("after"));
}

#[test]
fn strips_tilde_fenced_blocks() {
    let md = "before\n~~~\n[[fake]]\n~~~\nafter";
    let result = strip_code_constructs(md);
    assert!(!result.contains("[[fake]]"));
}

#[test]
fn strips_inline_code() {
    let md = "text `[[fake]]` more text";
    let result = strip_code_constructs(md);
    assert!(!result.contains("[[fake]]"));
    assert!(result.contains("text"));
    assert!(result.contains("more text"));
}

#[test]
fn preserves_non_code_content() {
    let md = "[[real link]] and other text";
    let result = strip_code_constructs(md);
    assert_eq!(result, md);
}

// --- extract_wiki_links ---

#[test]
fn extracts_bare_link() {
    let links = extract_wiki_links("text [[Alice Smith]] more");
    assert_eq!(links.len(), 1);
    assert_eq!(
        links[0],
        RawLink {
            target: "Alice Smith".into(),
            display: None,
            section: None,
        }
    );
}

#[test]
fn extracts_path_qualified() {
    let links = extract_wiki_links("[[Concepts/Widget Theory]]");
    assert_eq!(links[0].target, "Concepts/Widget Theory");
}

#[test]
fn extracts_pipe_alias() {
    let links = extract_wiki_links("[[Widget Theory|WT]]");
    assert_eq!(
        links[0],
        RawLink {
            target: "Widget Theory".into(),
            display: Some("WT".into()),
            section: None,
        }
    );
}

#[test]
fn extracts_section_link() {
    let links = extract_wiki_links("[[Widget Theory#Props]]");
    assert_eq!(
        links[0],
        RawLink {
            target: "Widget Theory".into(),
            display: None,
            section: Some("Props".into()),
        }
    );
}

#[test]
fn extracts_section_with_alias() {
    let links = extract_wiki_links("[[Widget Theory#Props|properties]]");
    assert_eq!(
        links[0],
        RawLink {
            target: "Widget Theory".into(),
            display: Some("properties".into()),
            section: Some("Props".into()),
        }
    );
}

#[test]
fn ignores_embeds() {
    let links = extract_wiki_links("![[photo.png]] and [[real]]");
    assert_eq!(links.len(), 1);
    assert_eq!(links[0].target, "real");
}

#[test]
fn ignores_links_in_code_fences() {
    let md = "```\n[[fake]]\n```\n[[real]]";
    let links = extract_wiki_links(md);
    assert_eq!(links.len(), 1);
    assert_eq!(links[0].target, "real");
}

#[test]
fn ignores_links_in_inline_code() {
    let md = "`[[fake]]` and [[real]]";
    let links = extract_wiki_links(md);
    assert_eq!(links.len(), 1);
    assert_eq!(links[0].target, "real");
}

#[test]
fn extracts_multiple_links_one_line() {
    let md = "[[A]] then [[B]] and [[C]]";
    let links = extract_wiki_links(md);
    assert_eq!(links.len(), 3);
    assert_eq!(links[0].target, "A");
    assert_eq!(links[1].target, "B");
    assert_eq!(links[2].target, "C");
}

#[test]
fn empty_brackets_ignored() {
    let links = extract_wiki_links("[[]]");
    assert!(links.is_empty());
}

#[test]
fn empty_target_after_pipe_ignored() {
    let links = extract_wiki_links("[[|alias]]");
    assert!(links.is_empty());
}

// --- further cases ---

#[test]
fn unclosed_fence_is_kept_as_text() {
    let md = "a\n```\n[[kept]]\nstill text";
    let links = extract_wiki_links(md);
    assert_eq!(links.len(), 1);
    assert_eq!(links[0].target, "kept");
}

#[test]
fn unclosed_link_is_not_a_link() {
    assert!(extract_wiki_links("[[open but never closed").is_empty());
}

#[test]
fn links_keep_their_order_and_repeats() {
    let links = extract_wiki_links("[[B]] [[A]] [[B]]");
    let targets: Vec<&str> = links.iter().map(|l| l.target.as_str()).collect();
    assert_eq!(targets, vec!["B", "A", "B"]);
}

#[test]
fn inline_code_replaced_but_text_kept() {
    let result = strip_code_constructs("x `y` z");
    assert!(result.starts_with("x "));
    assert!(result.ends_with(" z"));
    assert!(!result.contains('y'));
}

#[test]
fn extracted_links_have_clean_targets() {
    let links = extract_wiki_links("[[A#|]] [[B|]] [[#sec]] [[C#s|d]]");
    for l in &links {
        assert!(!l.target.is_empty());
        assert!(!l.target.contains('|') && !l.target.contains('#') && !l.target.contains(']'));
        assert_ne!(l.display.as_deref(), Some(""));
        assert_ne!(l.section.as_deref(), Some(""));
    }
    let targets: Vec<&str> = links.iter().map(|l| l.target.as_str()).collect();
    assert_eq!(targets, vec!["A", "B", "C"]);
}

#[test]
fn text_without_code_markers_is_unchanged() {
    let md = "plain [[x]] text ~~ two tildes";
    assert_eq!(strip_code_constructs(md), md);
    assert!(strip_code_constructs("a `b` c").len() <= "a `b` c".len());
}

fn is_subsequence(r: &str, s: &str) -> bool {
    let mut it = s.chars();
    r.chars().all(|c| it.any(|d| d == c))
}

#[test]
fn strip_code_only_deletes_characters() {
    let md = "Intro `code` and [[Link]]\n```rust\nfn x() {}\n```\nmid ~~~\nhidden\n~~~ end `a` z";
    let result = strip_code_constructs(md);
    assert!(is_subsequence(&result, md));
    assert!(result.len() < md.len());
    assert_eq!(result, "Intro  and [[Link]]\n\nmid  end  z");
}
