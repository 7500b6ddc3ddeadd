use summary_maker::index::{build_index, index_entries, is_draft_name, is_listed_doc_exec, needs_content, tree_height, Node};
use summary_maker::text::{doc_title_exec, first_line_exec, heading_title_exec, stem_exec};

fn file(name: &str, content: &str) -> Node {
    Node::File { name: name.to_string(), content: content.to_string() }
}

fn dir(name: &str, children: Vec<Node>) -> Node {
    Node::Dir { name: name.to_string(), children }
}

fn link(name: &str) -> Node {
    Node::Link { name: name.to_string() }
}

const HEADER: &str = "# Summary\n\n## Content\n\n";
const WELCOME: &str = "---\n# Welcome\n\n- [About](./README.md)\n";

#[test]
fn heading_title_strips_punctuation() {
    assert_eq!(doc_title_exec("hello.md", "# Hello, World!"), "Hello, World");
}

#[test]
fn non_heading_uses_file_name() {
    assert_eq!(doc_title_exec("hello.md", "Not a heading"), "hello");
}

#[test]
fn empty_document_uses_file_name() {
    assert_eq!(doc_title_exec("hello.md", ""), "hello");
}

#[test]
fn hash_without_space_is_not_a_heading() {
    assert_eq!(doc_title_exec("intro.md", "#Intro"), "intro");
}

#[test]
fn heading_trims_hashes_whitespace_and_trailing_marks() {
    assert_eq!(heading_title_exec("## \tDeep  dive?!)\u{a0} "), "Deep  dive");
    assert_eq!(heading_title_exec("# (a) b_-;:"), "(a) b");
}

#[test]
fn first_line_of_text() {
    assert_eq!(first_line_exec(""), None);
    assert_eq!(first_line_exec("\n"), Some(String::new()));
    assert_eq!(first_line_exec("# T\r\nrest"), Some("# T".to_string()));
    assert_eq!(first_line_exec("abc\r"), Some("abc\r".to_string()));
}

#[test]
fn heading_on_crlf_line() {
    assert_eq!(doc_title_exec("x.md", "# Title.\r\nbody"), "Title");
}

#[test]
fn stem_removes_one_extension() {
    assert_eq!(stem_exec("a.md.md"), "a.md");
    assert_eq!(stem_exec("notes"), "notes");
}

#[test]
fn name_classification() {
    assert!(is_listed_doc_exec("intro.md"));
    assert!(!is_listed_doc_exec("README.md"));
    assert!(!is_listed_doc_exec("SUMMARY.md"));
    assert!(!is_listed_doc_exec("wip (draft).md"));
    assert!(!is_listed_doc_exec("image.png"));
    assert!(is_draft_name("drafts (draft)"));
    assert!(!is_draft_name("draft"));
    assert!(needs_content("intro.md", false));
    assert!(!needs_content("intro.md", true));
}

#[test]
fn empty_tree_gives_header_only() {
    assert_eq!(build_index(&vec![]), HEADER);
}

#[test]
fn tree_without_markdown_gives_header_only() {
    let root = vec![file("logo.png", ""), link("elsewhere"), dir("old (draft)", vec![file("a.md", "# A")])];
    assert_eq!(build_index(&root), HEADER);
}

#[test]
fn root_readme_alone_gives_welcome() {
    assert_eq!(build_index(&vec![file("README.md", "# Home")]), format!("{}{}", HEADER, WELCOME));
}

#[test]
fn guide_scenario() {
    let root = vec![
        file("README.md", "# Home"),
        dir("guide", vec![file("README.md", "# Guide"), file("intro.md", "# Intro")]),
        file("notes.md", "plain text"),
    ];
    let expected = format!(
        "{}{}- [guide](./guide/README.md)\n    - [Intro](./guide/intro.md)\n- [notes](./notes.md)\n",
        HEADER, WELCOME
    );
    assert_eq!(build_index(&root), expected);
}

#[test]
fn draft_directory_never_appears() {
    let root = vec![dir("drafts (draft)", vec![file("secret.md", "# Secret")]), file("a.md", "")];
    let out = build_index(&root);
    assert!(!out.contains("drafts"));
    assert!(!out.contains("secret"));
    assert_eq!(out, format!("{}- [a](./a.md)\n", HEADER));
}

#[test]
fn links_never_appear() {
    let root = vec![
        link("loop"),
        dir("d", vec![link("up.md"), file("x.md", "# X")]),
    ];
    assert_eq!(build_index(&root), format!("{}- d\n    - [X](./d/x.md)\n", HEADER));
}

#[test]
fn root_docs_come_after_directories() {
    let a = vec![file("z.md", "# Zed"), dir("b", vec![file("c.md", "# C")]), file("a.md", "")];
    let b = vec![dir("b", vec![file("c.md", "# C")]), file("z.md", "# Zed"), file("a.md", "")];
    let expected = format!("{}- b\n    - [C](./b/c.md)\n- [z](./z.md)\n- [a](./a.md)\n", HEADER);
    assert_eq!(build_index(&a), expected);
    assert_eq!(build_index(&b), expected);
}

#[test]
fn old_index_is_ignored_and_output_repeats() {
    let plain = vec![dir("g", vec![file("p.md", "# P")])];
    let with_old = vec![file("SUMMARY.md", "# Summary"), dir("g", vec![file("p.md", "# P")])];
    let first = build_index(&plain);
    assert_eq!(first, build_index(&plain));
    assert_eq!(first, build_index(&with_old));
}

#[test]
fn nested_directories_indent_and_link_paths() {
    let root = vec![dir(
        "a",
        vec![dir("b", vec![file("README.md", ""), file("c.md", "# Cee:"), file("d (draft).md", "")])],
    )];
    assert_eq!(
        build_index(&root),
        format!("{}- a\n    - [b](./a/b/README.md)\n        - [Cee](./a/b/c.md)\n", HEADER)
    );
}

#[test]
fn entries_carry_depth_and_links() {
    let root = vec![dir("g", vec![file("x.md", "")]), file("r.md", "")];
    let es = index_entries(&root);
    assert_eq!(es.len(), 3);
    assert_eq!(es[0].title, "g");
    assert_eq!(es[0].link, None);
    assert_eq!(es[1].depth, 1);
    assert_eq!(es[1].link, Some("./g/x.md".to_string()));
    assert_eq!(es[2].title, "r");
    assert_eq!(es[2].depth, 0);
}

#[test]
fn double_extension_keeps_inner_part() {
    assert_eq!(doc_title_exec("a.md.md", ""), "a.md");
    assert_eq!(doc_title_exec("a.md.md", "text"), "a.md");
    let root = vec![file("a.md.md", "# Ignored")];
    assert_eq!(build_index(&root), format!("{}- [a.md](./a.md.md)\n", HEADER));
}

#[test]
fn height_counts_nested_directories() {
    assert_eq!(tree_height(&vec![]), 0);
    assert_eq!(tree_height(&vec![file("a.md", "")]), 0);
    let root = vec![dir("a", vec![dir("b", vec![file("c.md", "")])]), dir("d", vec![])];
    assert_eq!(tree_height(&root), 2);
}
