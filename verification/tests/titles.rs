use mdbook_summarizer::title::{
    auto_readme_content, clean_markdown_title, extract_title_from_md, fallback_title,
    strip_inline_code, strip_markdown_links, title_case_ascii,
};

#[test]
fn cleans_markdown_title() {
    assert_eq!(
        clean_markdown_title(" `foo` and [bar](https://example.com) ### "),
        "foo and bar"
    );
}

#[test]
fn clean_title_trims_unicode_whitespace_and_hashes() {
    assert_eq!(clean_markdown_title("\u{A0}## Intro ##\u{2003}"), "Intro");
    assert_eq!(clean_markdown_title("   "), "");
    assert_eq!(clean_markdown_title("###"), "");
    assert_eq!(clean_markdown_title("a # b"), "a # b");
}

#[test]
fn clean_title_has_no_backticks_example() {
    let t = clean_markdown_title("`a` [`b`](c) ``d``");
    assert!(!t.contains('`'));
    assert_eq!(t, "a b d");
}

#[test]
fn strips_inline_code_marks_only() {
    assert_eq!(strip_inline_code("use `cargo` and ``x``"), "use cargo and x");
    assert_eq!(strip_inline_code("plain"), "plain");
    assert_eq!(strip_inline_code(""), "");
}

#[test]
fn strips_links_to_their_text() {
    assert_eq!(strip_markdown_links("x [a](b) y [c](d)"), "x a y c");
    assert_eq!(strip_markdown_links("[a [b](c)](d)"), "a [b](d)");
    assert_eq!(strip_markdown_links("[]()"), "");
}

#[test]
fn keeps_text_that_is_not_a_link() {
    assert_eq!(strip_markdown_links("[a](b"), "[a](b");
    assert_eq!(strip_markdown_links("[a] (b)"), "[a] (b)");
    assert_eq!(strip_markdown_links("[a"), "[a");
    assert_eq!(strip_markdown_links("no brackets (here)"), "no brackets (here)");
}

#[test]
fn title_cases_words() {
    assert_eq!(title_case_ascii("hello  world"), "Hello World");
    assert_eq!(title_case_ascii("  spaced\tout  "), "Spaced Out");
    assert_eq!(title_case_ascii(""), "");
    assert_eq!(title_case_ascii("élan vital"), "Élan Vital");
    assert_eq!(title_case_ascii("ßig"), "SSig");
}

#[test]
fn fallback_title_from_file_name() {
    assert_eq!(fallback_title("getting_started-guide.md"), "Getting Started Guide");
    assert_eq!(fallback_title("chapter-2.md"), "Chapter 2");
    assert_eq!(fallback_title("notes"), "Notes");
    assert_eq!(fallback_title(".hidden"), ".hidden");
    assert_eq!(fallback_title("a.b.md"), "A.b");
}

#[test]
fn extracts_first_level_one_heading() {
    assert_eq!(extract_title_from_md("# Book\n", "README.md"), "Book");
    assert_eq!(
        extract_title_from_md("intro\n## Sub\n# Title `x`\n# Later", "page.md"),
        "Title x"
    );
    assert_eq!(extract_title_from_md("# Win\r\nmore", "page.md"), "Win");
}

#[test]
fn falls_back_without_heading() {
    assert_eq!(extract_title_from_md("#NoSpace\ntext", "my_page.md"), "My Page");
    assert_eq!(extract_title_from_md("", "empty-file.md"), "Empty File");
    let mut long = "x".repeat(2048);
    long.push_str("\n# Too Late\n");
    assert_eq!(extract_title_from_md(&long, "late.md"), "Late");
}

#[test]
fn heading_within_scanned_part_counts() {
    let mut text = "y".repeat(2030);
    text.push_str("\n# Early\n");
    assert_eq!(extract_title_from_md(&text, "p.md"), "Early");
}

#[test]
fn generated_index_is_titled_by_directory() {
    let content = auto_readme_content("part-one");
    assert_eq!(content, "# part-one\n");
    assert_eq!(extract_title_from_md(&content, "README.md"), "part-one");
    assert_eq!(
        extract_title_from_md(&auto_readme_content("[x](y)"), "README.md"),
        "x"
    );
}
