use mdbook_summarizer::cli::{parse_args, Command};

fn args(list: &[&str]) -> Vec<String> {
    list.iter().map(|s| s.to_string()).collect()
}

fn run(list: &[&str]) -> (String, Option<String>, bool, bool, bool) {
    match parse_args(&args(list)) {
        Ok(Command::Run(a)) => (a.src, a.output, a.dry_run, a.check, a.auto_readme),
        other => panic!("unexpected outcome: {:?}", other),
    }
}

#[test]
fn defaults_without_arguments() {
    assert_eq!(run(&[]), ("src".to_string(), None, false, false, false));
}

#[test]
fn reads_all_options() {
    assert_eq!(
        run(&["--src", "docs", "-o", "out.md", "--dry-run", "--check", "--auto-readme"]),
        ("docs".to_string(), Some("out.md".to_string()), true, true, true)
    );
    assert_eq!(
        run(&["--output", "a.md", "--src", "x", "--src", "y"]),
        ("y".to_string(), Some("a.md".to_string()), false, false, false)
    );
}

#[test]
fn help_and_version_answer_at_once() {
    assert!(matches!(parse_args(&args(&["-h", "--bogus"])), Ok(Command::Help)));
    assert!(matches!(parse_args(&args(&["--check", "--help"])), Ok(Command::Help)));
    assert!(matches!(parse_args(&args(&["-V"])), Ok(Command::Version)));
    assert!(matches!(parse_args(&args(&["--version", "-h"])), Ok(Command::Version)));
}

#[test]
fn reports_errors() {
    match parse_args(&args(&["--src"])) {
        Err(e) => assert_eq!(e, "--src requires a directory argument"),
        other => panic!("unexpected outcome: {:?}", other),
    }
    match parse_args(&args(&["--dry-run", "-o"])) {
        Err(e) => assert_eq!(e, "--output requires a file argument"),
        other => panic!("unexpected outcome: {:?}", other),
    }
    match parse_args(&args(&["--frobnicate", "-h"])) {
        Err(e) => assert_eq!(e, "Unknown argument: --frobnicate"),
        other => panic!("unexpected outcome: {:?}", other),
    }
}
