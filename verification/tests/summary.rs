use mdbook_summarizer::listing::{find_index_file, plan_directory};
use mdbook_summarizer::scan::DirItem;
use mdbook_summarizer::summary::{
    count_entries, decide_output, directory_entry, generate_summary, generate_summary_content,
    to_summary_path, total_entries, writes_generated_pages, Entry, OutputAction, SummaryPathError,
};
use mdbook_summarizer::listing::IndexPlan;
use mdbook_summarizer::title::extract_title_from_md;

fn file(name: &str) -> DirItem {
    DirItem { name: Some(name.to_string()), is_dir: false, is_file: true }
}

fn dir(name: &str) -> DirItem {
    DirItem { name: Some(name.to_string()), is_dir: true, is_file: false }
}

fn comps(parts: &[&str]) -> Vec<String> {
    parts.iter().map(|s| s.to_string()).collect()
}

fn page(title: &str, path: &str) -> Entry {
    Entry::File { title: title.to_string(), path: path.to_string() }
}

#[test]
fn generates_summary_from_listing() {
    // src/README.md "# Book", src/part/index.md "# Part", src/part/chapter-2.md "# Chapter Two"
    let src = comps(&["tmp", "src"]);
    let root_listing = vec![file("README.md"), dir("part")];
    let part_listing = vec![file("index.md"), file("chapter-2.md")];

    let root_index = find_index_file(&root_listing).unwrap();
    assert_eq!(root_index, 0);
    let root_title = extract_title_from_md("# Book\n", "README.md");
    let root_path = to_summary_path(&src, &comps(&["tmp", "src", "README.md"])).unwrap();

    let plan = plan_directory(root_listing);
    assert_eq!(plan.len(), 1);
    assert!(plan[0].is_dir);
    let part_index = find_index_file(&part_listing).unwrap();
    assert_eq!(part_index, 0);
    let part_plan = plan_directory(part_listing);
    assert_eq!(part_plan.len(), 1);
    assert_eq!(part_plan[0].name, "chapter-2.md");
    let children = vec![Entry::File {
        title: extract_title_from_md("# Chapter Two\n", "chapter-2.md"),
        path: to_summary_path(&src, &comps(&["tmp", "src", "part", "chapter-2.md"])).unwrap(),
    }];
    let entries = vec![Entry::Dir {
        title: extract_title_from_md("# Part\n", "index.md"),
        path: to_summary_path(&src, &comps(&["tmp", "src", "part", "index.md"])).unwrap(),
        children,
    }];
    let summary = generate_summary(&entries, Some((root_title.as_str(), root_path.as_str())));
    assert!(summary.contains("* [Book](README.md)"));
    assert!(summary.contains("* [Part](part/index.md)"));
    assert!(summary.contains("  * [Chapter Two](part/chapter-2.md)"));
    assert_eq!(count_entries(&entries) + usize::from(true), 3);
    assert_eq!(total_entries(&entries, true), 3);
    assert_eq!(
        summary,
        "# Summary\n\n* [Book](README.md)\n\n* [Part](part/index.md)\n  * [Chapter Two](part/chapter-2.md)\n"
    );
}

#[test]
fn summary_md_serves_as_index_in_listing() {
    let src = comps(&["src"]);
    let appendix_listing = vec![file("SUMMARY.md"), file("notes.md")];
    let index = find_index_file(&appendix_listing).unwrap();
    assert_eq!(index, 0);
    let plan = plan_directory(appendix_listing);
    assert_eq!(plan.len(), 1);
    assert_eq!(plan[0].name, "notes.md");
    let entries = vec![Entry::Dir {
        title: extract_title_from_md("# Appendix\n", "SUMMARY.md"),
        path: to_summary_path(&src, &comps(&["src", "appendix", "SUMMARY.md"])).unwrap(),
        children: vec![page(
            &extract_title_from_md("# Notes\n", "notes.md"),
            &to_summary_path(&src, &comps(&["src", "appendix", "notes.md"])).unwrap(),
        )],
    }];
    let summary = generate_summary(&entries, Some(("Book", "README.md")));
    assert!(summary.contains("* [Appendix](appendix/SUMMARY.md)"));
    assert!(summary.contains("  * [Notes](appendix/notes.md)"));
}

#[test]
fn summary_without_root_index() {
    assert_eq!(generate_summary(&[], None), "# Summary\n\n");
    assert_eq!(
        generate_summary(&[page("A", "a.md")], None),
        "# Summary\n\n* [A](a.md)\n"
    );
}

#[test]
fn content_lines_are_indented_by_depth() {
    let entries = vec![
        Entry::Dir {
            title: "D".to_string(),
            path: "d/README.md".to_string(),
            children: vec![Entry::Dir {
                title: "E".to_string(),
                path: "d/e/index.md".to_string(),
                children: vec![page("F", "d/e/f.md")],
            }],
        },
        page("G", "g.md"),
    ];
    assert_eq!(
        generate_summary_content(&entries, 1),
        vec![
            "  * [D](d/README.md)",
            "    * [E](d/e/index.md)",
            "      * [F](d/e/f.md)",
            "  * [G](g.md)",
        ]
    );
    assert_eq!(count_entries(&entries), 4);
    assert_eq!(generate_summary_content(&entries, 0).len(), count_entries(&entries));
    assert_eq!(total_entries(&entries, false), 4);
    assert!(generate_summary_content(&[], 3).is_empty());
}

#[test]
fn summary_paths_relative_to_source() {
    assert_eq!(
        to_summary_path(&comps(&["a", "src"]), &comps(&["a", "src", "x", "y.md"])),
        Ok("x/y.md".to_string())
    );
    assert_eq!(to_summary_path(&comps(&["src"]), &comps(&["src"])), Ok(String::new()));
    assert_eq!(
        to_summary_path(&comps(&["src"]), &comps(&["other", "y.md"])),
        Err(SummaryPathError::OutsideSource)
    );
    assert_eq!(
        to_summary_path(&comps(&["a", "src"]), &comps(&["a"])),
        Err(SummaryPathError::OutsideSource)
    );
}

#[test]
fn decides_output_actions() {
    assert_eq!(decide_output(true, true, Some("x"), "x"), OutputAction::Print);
    assert_eq!(decide_output(false, true, Some("x"), "x"), OutputAction::ReportUpToDate);
    assert_eq!(decide_output(false, true, Some("y"), "x"), OutputAction::ReportStale);
    assert_eq!(decide_output(false, true, None, "x"), OutputAction::ReportStale);
    assert_eq!(decide_output(false, true, None, ""), OutputAction::ReportUpToDate);
    assert_eq!(decide_output(false, false, Some("x"), "x"), OutputAction::KeepUnchanged);
    assert_eq!(decide_output(false, false, Some("y"), "x"), OutputAction::Write);
    assert_eq!(decide_output(false, false, None, "x"), OutputAction::Write);
}

#[test]
fn summary_path_rejoins_to_path() {
    let src = comps(&["book", "src"]);
    let path = comps(&["book", "src", "part", "ch1.md"]);
    let s = to_summary_path(&src, &path).unwrap();
    assert!(!s.starts_with('/'));
    let mut rejoined = src.clone();
    rejoined.extend(s.split('/').map(String::from));
    assert_eq!(rejoined, path);
}

#[test]
fn summary_path_rejoins_under_absolute_source() {
    let src = comps(&["/", "home", "book"]);
    let path = comps(&["/", "home", "book", "a", "b.md"]);
    let s = to_summary_path(&src, &path).unwrap();
    assert_eq!(s, "a/b.md");
    let mut rejoined = src.clone();
    rejoined.extend(s.split('/').map(String::from));
    assert_eq!(rejoined, path);
}

#[test]
fn generated_pages_written_only_on_real_runs() {
    assert!(writes_generated_pages(false, false));
    assert!(!writes_generated_pages(true, false));
    assert!(!writes_generated_pages(false, true));
    assert!(!writes_generated_pages(true, true));
}

#[test]
fn directory_entries_follow_index_plan() {
    let made = directory_entry(&IndexPlan::Existing(0), "T".to_string(), "d/README.md".to_string(), vec![]);
    match made {
        Some(Entry::Dir { title, path, children }) => {
            assert_eq!(title, "T");
            assert_eq!(path, "d/README.md");
            assert!(children.is_empty());
        }
        other => panic!("unexpected entry: {:?}", other),
    }
    assert!(directory_entry(&IndexPlan::Generate, "G".to_string(), "g/README.md".to_string(), vec![]).is_some());
    assert!(directory_entry(&IndexPlan::Missing, "M".to_string(), "m".to_string(), vec![]).is_none());
}
