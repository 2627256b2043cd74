use mdbook_summarizer::filter::{should_include_dir, should_include_file, should_include_lowercased};
use mdbook_summarizer::listing::{
    classify_item, find_index_file, plan_directory, plan_index, sort_dir_items, IndexPlan,
    ItemAction,
};
use mdbook_summarizer::scan::{compare_paths, goes_after, DirItem};
use std::cmp::Ordering;

fn file(name: &str) -> DirItem {
    DirItem { name: Some(name.to_string()), is_dir: false, is_file: true }
}

fn dir(name: &str) -> DirItem {
    DirItem { name: Some(name.to_string()), is_dir: true, is_file: false }
}

fn names(items: &[DirItem]) -> Vec<String> {
    items.iter().map(|i| i.name.clone().unwrap_or_default()).collect()
}

#[test]
fn includes_directories() {
    assert!(should_include_dir("docs"));
    assert!(should_include_dir("part_1"));
    assert!(!should_include_dir(".git"));
    assert!(!should_include_dir(".hidden"));
    assert!(!should_include_dir("node_modules"));
    assert!(!should_include_dir("__pycache__"));
}

#[test]
fn includes_files() {
    assert!(should_include_file("notes.md"));
    assert!(should_include_file("holdings.md"));
    assert!(should_include_file("boldly.md"));
    assert!(!should_include_file("draft-notes.md"));
    assert!(!should_include_file("notes.md~"));
    assert!(!should_include_file("notes.BAK"));
    assert!(!should_include_file("x.swp"));
    assert!(!should_include_file("x.swo"));
    assert!(!should_include_file("page.tmp"));
    assert!(!should_include_file("chapter.old.md"));
    assert!(!should_include_file("Backup.MD"));
    assert!(!should_include_file("TEMP_notes.md"));
    assert!(!should_include_file("bak.md.md"));
}

#[test]
fn file_filter_works_on_lowercase_form() {
    assert!(!should_include_file("DRAFT.md"));
    assert!(should_include_lowercased("DRAFT.md"));
    assert!(!should_include_lowercased("draft.md"));
}

#[test]
fn directories_sort_first_then_natural_names() {
    assert_eq!(compare_paths(&dir("z"), &file("a.md")), Ordering::Less);
    assert_eq!(compare_paths(&file("a.md"), &dir("z")), Ordering::Greater);
    assert_eq!(compare_paths(&file("B.md"), &file("a.md")), Ordering::Greater);
    assert_eq!(compare_paths(&file("Ch2.md"), &file("ch10.md")), Ordering::Less);
    assert_eq!(compare_paths(&file("A.md"), &file("a.md")), Ordering::Equal);
    let unnamed = DirItem { name: None, is_dir: false, is_file: true };
    assert_eq!(compare_paths(&unnamed, &file("a")), Ordering::Less);
    assert!(goes_after(&file("b"), &file("a")));
    assert!(!goes_after(&file("a"), &file("a")));
}

#[test]
fn sorts_listing_stably() {
    let items = vec![
        file("ch10.md"),
        file("Ch2.md"),
        dir("b"),
        file("README.md"),
        file("ch2.md"),
        dir("A"),
    ];
    let sorted = sort_dir_items(items);
    assert_eq!(
        names(&sorted),
        vec!["A", "b", "Ch2.md", "ch2.md", "ch10.md", "README.md"]
    );
}

#[test]
fn listing_order_is_determined_by_items() {
    let items = || vec![file("b1"), dir("x"), file("B1"), file("a"), dir("y")];
    let first = names(&sort_dir_items(items()));
    let again = names(&sort_dir_items(items()));
    assert_eq!(first, again);
    assert_eq!(first, vec!["x", "y", "a", "b1", "B1"]);
    let sorted = sort_dir_items(items());
    let dir_count = sorted.iter().filter(|i| i.is_dir).count();
    assert!(sorted[..dir_count].iter().all(|i| i.is_dir));
    assert!(sorted[dir_count..].iter().all(|i| !i.is_dir));
}

#[test]
fn classifies_items() {
    assert_eq!(classify_item(&dir("part")), ItemAction::Directory);
    assert_eq!(classify_item(&dir(".git")), ItemAction::Skip);
    assert_eq!(classify_item(&file("notes.md")), ItemAction::Page);
    assert_eq!(classify_item(&file("notes.MD")), ItemAction::Page);
    assert_eq!(classify_item(&file("notes.txt")), ItemAction::Skip);
    assert_eq!(classify_item(&file(".md")), ItemAction::Skip);
    assert_eq!(classify_item(&file("readme.md")), ItemAction::Skip);
    assert_eq!(classify_item(&file("Index.md")), ItemAction::Skip);
    assert_eq!(classify_item(&file("summary.MD")), ItemAction::Skip);
    assert_eq!(classify_item(&file("old-notes.md")), ItemAction::Skip);
    let other = DirItem { name: Some("pipe.md".to_string()), is_dir: false, is_file: false };
    assert_eq!(classify_item(&other), ItemAction::Skip);
    let unnamed = DirItem { name: None, is_dir: false, is_file: true };
    assert_eq!(classify_item(&unnamed), ItemAction::Skip);
}

#[test]
fn plans_a_directory() {
    let plan = plan_directory(vec![
        file("README.md"),
        file("chapter10.md"),
        file("image.png"),
        dir("part"),
        file("chapter2.md"),
        dir(".git"),
        file("SUMMARY.md"),
    ]);
    let got: Vec<(String, bool)> = plan.iter().map(|p| (p.name.clone(), p.is_dir)).collect();
    assert_eq!(
        got,
        vec![
            ("part".to_string(), true),
            ("chapter2.md".to_string(), false),
            ("chapter10.md".to_string(), false),
        ]
    );
}

#[test]
fn finds_index_by_priority() {
    let files = vec![file("SUMMARY.md"), file("index.md"), file("readme.MD")];
    assert_eq!(find_index_file(&files), Some(2));
    let files = vec![file("SUMMARY.md"), file("INDEX.md"), dir("README.md")];
    assert_eq!(find_index_file(&files), Some(1));
    let files = vec![file("notes.md"), file("summary.md")];
    assert_eq!(find_index_file(&files), Some(1));
    let files = vec![file("notes.md")];
    assert_eq!(find_index_file(&files), None);
    let files = vec![file("README.md"), file("readme.md")];
    assert_eq!(find_index_file(&files), Some(0));
}

#[test]
fn plans_index_pages() {
    let with = vec![file("index.md")];
    let without = vec![file("a.md")];
    assert!(matches!(plan_index(&with, false), IndexPlan::Existing(0)));
    assert!(matches!(plan_index(&with, true), IndexPlan::Existing(0)));
    assert!(matches!(plan_index(&without, true), IndexPlan::Generate));
    assert!(matches!(plan_index(&without, false), IndexPlan::Missing));
}
