//! Entries of the summary and the text of `SUMMARY.md`.
use vstd::prelude::*;
use crate::text::{copy_string, last_index, lemma_last_index, lemma_last_index_range, push_str};
use crate::unicode::push_char;

verus! {

/// One entry of the summary: a directory with an index page, and the entries
/// found inside it, or a single page.
#[derive(Debug)]
pub enum Entry {
    Dir { title: String, path: String, children: Vec<Entry> },
    File { title: String, path: String },
}

/// The texts held by a list of strings.
pub open spec fn strings_view(v: Seq<String>) -> Seq<Seq<char>> {
    v.map_values(|s: String| s@)
}

/// The summary line of an entry: `{indent}* [{title}]({path})`.
pub open spec fn entry_line(indent: Seq<char>, title: Seq<char>, path: Seq<char>) -> Seq<char> {
    indent + seq!['*', ' ', '['] + title + seq![']', '('] + path + seq![')']
}

/// Two spaces: the indentation added for each level of nesting.
pub open spec fn indent_step() -> Seq<char> {
    seq![' ', ' ']
}

/// The lines of the summary for `entries` at indentation `indent`: each entry
/// in order gives its line, and a directory's line is followed by the lines of
/// its children, indented two spaces further.
pub open spec fn content_lines(entries: Seq<Entry>, indent: Seq<char>) -> Seq<Seq<char>>
    decreases entries,
{
    if entries.len() == 0 {
        Seq::empty()
    } else {
        let before = content_lines(entries.subrange(0, entries.len() - 1), indent);
        match entries[entries.len() - 1] {
            Entry::File { title, path } => before.push(entry_line(indent, title@, path@)),
            Entry::Dir { title, path, children } => before.push(entry_line(indent, title@, path@))
                + content_lines(children@, indent + indent_step()),
        }
    }
}

/// The number of entries in `entries`, counting those nested in directories.
pub open spec fn entry_count(entries: Seq<Entry>) -> nat
    decreases entries,
{
    if entries.len() == 0 {
        0
    } else {
        let before = entry_count(entries.subrange(0, entries.len() - 1));
        match entries[entries.len() - 1] {
            Entry::File { .. } => before + 1,
            Entry::Dir { children, .. } => before + 1 + entry_count(children@),
        }
    }
}

/// `n` spaces.
pub open spec fn spaces(n: nat) -> Seq<char> {
    Seq::new(n, |i: int| ' ')
}

/// Law: the summary gives exactly one line for each entry, nested ones
/// included.
pub proof fn content_lines_count(entries: Seq<Entry>, indent: Seq<char>)
    ensures
        content_lines(entries, indent).len() == entry_count(entries),
    decreases entries,
{
    if entries.len() > 0 {
        content_lines_count(entries.subrange(0, entries.len() - 1), indent);
        match entries[entries.len() - 1] {
            Entry::File { .. } => {},
            Entry::Dir { children, .. } => {
                content_lines_count(children@, indent + indent_step());
            },
        }
    }
}

/// The line `{indent}* [{title}]({path})`.
fn make_line(indent: &String, title: &String, path: &String) -> (r: String)
    ensures
        r@ == entry_line(indent@, title@, path@),
{
    let mut line = copy_string(indent);
    push_char(&mut line, '*');
    push_char(&mut line, ' ');
    push_char(&mut line, '[');
    push_str(&mut line, title.as_str());
    push_char(&mut line, ']');
    push_char(&mut line, '(');
    push_str(&mut line, path.as_str());
    push_char(&mut line, ')');
    assert(line@ =~= entry_line(indent@, title@, path@));
    line
}

/// Appends the summary lines of `entries` at indentation `indent` to `lines`.
fn push_content(entries: &[Entry], indent: &String, lines: &mut Vec<String>)
    ensures
        strings_view(final(lines)@) == strings_view(old(lines)@) + content_lines(entries@, indent@),
    decreases entries@,
{
    let ghost start = strings_view(lines@);
    let mut i: usize = 0;
    assert(entries@.subrange(0, 0) =~= Seq::<Entry>::empty());
    while i < entries.len()
        invariant
            i <= entries.len(),
            strings_view(lines@) == start + content_lines(entries@.subrange(0, i as int), indent@),
        decreases entries.len() - i,
    {
        let ghost pre = entries@.subrange(0, i + 1);
        assert(pre.subrange(0, pre.len() - 1) =~= entries@.subrange(0, i as int));
        assert(pre[pre.len() - 1] == entries@[i as int]);
        let ghost before = strings_view(lines@);
        match &entries[i] {
            Entry::File { title, path } => {
                let line = make_line(indent, title, path);
                lines.push(line);
                assert(strings_view(lines@) =~= before.push(line@));
            },
            Entry::Dir { title, path, children } => {
                let line = make_line(indent, title, path);
                lines.push(line);
                assert(strings_view(lines@) =~= before.push(line@));
                let mut deeper = copy_string(indent);
                push_char(&mut deeper, ' ');
                push_char(&mut deeper, ' ');
                assert(deeper@ =~= indent@ + indent_step());
                proof {
                    assert(decreases_to!(entries@ => entries@[i as int]));
                }
                push_content(children.as_slice(), &deeper, lines);
            },
        }
        i = i + 1;
    }
    assert(entries@.subrange(0, entries.len() as int) =~= entries@);
}

/// The summary lines of `entries`, indented by two spaces per level of
/// `depth`: one line `* [title](path)` per entry, each directory followed by
/// its children one level deeper.
pub fn generate_summary_content(entries: &[Entry], depth: usize) -> (r: Vec<String>)
    ensures
        strings_view(r@) == content_lines(entries@, spaces(2 * depth as nat)),
{
    let mut indent = String::new();
    let mut d: usize = 0;
    while d < depth
        invariant
            d <= depth,
            indent@ == spaces(2 * d as nat),
        decreases depth - d,
    {
        push_char(&mut indent, ' ');
        push_char(&mut indent, ' ');
        d = d + 1;
        assert(indent@ =~= spaces(2 * d as nat));
    }
    let mut lines: Vec<String> = Vec::new();
    push_content(entries, &indent, &mut lines);
    assert(strings_view(lines@) =~= Seq::<Seq<char>>::empty() + content_lines(entries@, indent@));
    lines
}

/// `entry_count(entries)`, or `usize::MAX` when the count does not fit.
pub open spec fn saturated_count(entries: Seq<Entry>) -> usize {
    if entry_count(entries) <= usize::MAX {
        entry_count(entries) as usize
    } else {
        usize::MAX
    }
}

/// The number of entries, nested ones included. (A count beyond `usize::MAX`,
/// which no tree held in memory reaches, is reported as `usize::MAX`.)
pub fn count_entries(entries: &[Entry]) -> (r: usize)
    ensures
        r == saturated_count(entries@),
    decreases entries@,
{
    let mut total: usize = 0;
    let mut i: usize = 0;
    assert(entries@.subrange(0, 0) =~= Seq::<Entry>::empty());
    while i < entries.len()
        invariant
            i <= entries.len(),
            total == saturated_count(entries@.subrange(0, i as int)),
        decreases entries.len() - i,
    {
        let ghost pre = entries@.subrange(0, i + 1);
        assert(pre.subrange(0, pre.len() - 1) =~= entries@.subrange(0, i as int));
        assert(pre[pre.len() - 1] == entries@[i as int]);
        match &entries[i] {
            Entry::File { .. } => {
                total = total.saturating_add(1);
            },
            Entry::Dir { children, .. } => {
                proof {
                    assert(decreases_to!(entries@ => entries@[i as int]));
                }
                let inner = count_entries(children.as_slice());
                total = total.saturating_add(1);
                total = total.saturating_add(inner);
            },
        }
        i = i + 1;
    }
    assert(entries@.subrange(0, entries.len() as int) =~= entries@);
    total
}

/// The lines joined by `\n`.
pub open spec fn join_lines(lines: Seq<Seq<char>>) -> Seq<char>
    decreases lines.len(),
{
    if lines.len() == 0 {
        Seq::empty()
    } else if lines.len() == 1 {
        lines[0]
    } else {
        join_lines(lines.drop_last()) + seq!['\n'] + lines.last()
    }
}

/// The lines of `SUMMARY.md`: the heading `# Summary` and an empty line; when
/// the source directory has an index page, its line at the top level and an
/// empty line; then the lines of the entries.
pub open spec fn summary_lines(
    entries: Seq<Entry>,
    root_index: Option<(Seq<char>, Seq<char>)>,
) -> Seq<Seq<char>> {
    let head = seq!["# Summary"@, Seq::<char>::empty()];
    let root = match root_index {
        Some((title, path)) => seq![entry_line(Seq::empty(), title, path), Seq::<char>::empty()],
        None => Seq::empty(),
    };
    head + root + content_lines(entries, Seq::empty())
}

/// The text of `SUMMARY.md`: its lines joined by `\n`, with a final `\n`.
pub open spec fn summary_text(entries: Seq<Entry>, root_index: Option<(Seq<char>, Seq<char>)>) -> Seq<
    char,
> {
    join_lines(summary_lines(entries, root_index)) + seq!['\n']
}

/// The plain values of an optional title and path.
pub open spec fn root_view(root_index: Option<(&str, &str)>) -> Option<(Seq<char>, Seq<char>)> {
    match root_index {
        Some((title, path)) => Some((title@, path@)),
        None => None,
    }
}

/// The text of `SUMMARY.md` for `entries`, with the line of the source
/// directory's own index page (its title and path) at the top when there is
/// one.
pub fn generate_summary(entries: &[Entry], root_index: Option<(&str, &str)>) -> (r: String)
    ensures
        r@ == summary_text(entries@, root_view(root_index)),
{
    let mut lines: Vec<String> = Vec::new();
    lines.push(String::from_str("# Summary"));
    lines.push(String::new());
    if let Some((title, path)) = root_index {
        let t = String::from_str(title);
        let p = String::from_str(path);
        let e = String::new();
        lines.push(make_line(&e, &t, &p));
        lines.push(String::new());
    }
    let no_indent = String::new();
    push_content(entries, &no_indent, &mut lines);
    proof {
        let expect = summary_lines(entries@, root_view(root_index));
        assert(strings_view(lines@) =~= expect);
    }
    let mut out = String::new();
    let mut i: usize = 0;
    while i < lines.len()
        invariant
            i <= lines.len(),
            out@ == join_lines(strings_view(lines@).take(i as int)),
        decreases lines.len() - i,
    {
        let ghost t = strings_view(lines@).take(i + 1);
        assert(t.drop_last() =~= strings_view(lines@).take(i as int));
        if i > 0 {
            push_char(&mut out, '\n');
        }
        push_str(&mut out, lines[i].as_str());
        proof {
            if i == 0 {
                assert(out@ =~= t[0]);
            } else {
                assert(out@ =~= join_lines(t.drop_last()) + seq!['\n'] + t.last());
            }
        }
        i = i + 1;
    }
    assert(strings_view(lines@).take(lines.len() as int) =~= strings_view(lines@));
    push_char(&mut out, '\n');
    out
}

/// Why a path could not be made relative to the source directory.
#[derive(Debug, PartialEq, Eq, Structural)]
pub enum SummaryPathError {
    /// The path does not lie inside the source directory.
    OutsideSource,
}

/// Whether the components `base` start the components `path`
/// (`Path::strip_prefix` succeeds).
pub open spec fn is_component_prefix(base: Seq<Seq<char>>, path: Seq<Seq<char>>) -> bool {
    base.len() <= path.len() && forall|k: int| 0 <= k < base.len() ==> #[trigger] base[k] == path[k]
}

/// The components joined by `/`.
pub open spec fn join_slash(parts: Seq<Seq<char>>) -> Seq<char>
    decreases parts.len(),
{
    if parts.len() == 0 {
        Seq::empty()
    } else if parts.len() == 1 {
        parts[0]
    } else {
        join_slash(parts.drop_last()) + seq!['/'] + parts.last()
    }
}

/// The path written in `SUMMARY.md` for the file with components `path`:
/// its components below the source directory `src_dir` joined by `/`; an
/// error when the file is not inside `src_dir`.
pub open spec fn summary_path_of(src_dir: Seq<Seq<char>>, path: Seq<Seq<char>>) -> Result<
    Seq<char>,
    SummaryPathError,
> {
    if is_component_prefix(src_dir, path) {
        Ok(join_slash(path.skip(src_dir.len() as int)))
    } else {
        Err(SummaryPathError::OutsideSource)
    }
}

/// The pieces of `s` between `/` characters (none for the empty text): how
/// a relative path written with `/` splits into components.
pub open spec fn split_slash(s: Seq<char>) -> Seq<Seq<char>>
    decreases s.len(),
{
    if s.len() == 0 {
        Seq::empty()
    } else {
        match last_index(s, '/') {
            Some(k) => {
                proof {
                    lemma_last_index_range(s, '/');
                }
                split_slash(s.take(k)).push(s.skip(k + 1))
            },
            None => seq![s],
        }
    }
}

/// Whether every component is an ordinary name: not empty and without `/`
/// (no root component, so the path is relative).
pub open spec fn plain_components(parts: Seq<Seq<char>>) -> bool {
    forall|k: int|
        0 <= k < parts.len() ==> (#[trigger] parts[k]).len() > 0 && !parts[k].contains('/')
}

proof fn lemma_split_join(ps: Seq<Seq<char>>)
    requires
        plain_components(ps),
    ensures
        split_slash(join_slash(ps)) == ps,
        ps.len() > 0 ==> join_slash(ps).len() > 0 && join_slash(ps)[0] == ps[0][0],
    decreases ps.len(),
{
    if ps.len() == 1 {
        let w = ps[0];
        assert forall|j: int| -1 < j < w.len() implies #[trigger] w[j] != '/' by {
            assert(!w.contains('/'));
        }
        lemma_last_index(w, '/', -1);
        assert(split_slash(w) == seq![w]);
        assert(ps =~= seq![w]);
    } else if ps.len() > 1 {
        let d = ps.drop_last();
        assert(plain_components(d)) by {
            assert forall|k: int| 0 <= k < d.len() implies (#[trigger] d[k]).len() > 0 && !d[k].contains(
                '/',
            ) by {
                assert(d[k] == ps[k]);
            }
        }
        lemma_split_join(d);
        let j = join_slash(d);
        let w = ps.last();
        assert(w == ps[ps.len() - 1]);
        let t = j + seq!['/'] + w;
        assert(join_slash(ps) == t);
        assert forall|m: int| j.len() < m < t.len() implies #[trigger] t[m] != '/' by {
            assert(t[m] == w[m - j.len() - 1]);
            assert(!w.contains('/'));
        }
        lemma_last_index(t, '/', j.len() as int);
        assert(t.take(j.len() as int) =~= j);
        assert(t.skip(j.len() as int + 1) =~= w);
        assert(split_slash(t) == split_slash(j).push(w));
        assert(ps =~= d.push(w));
        assert(d[0] == ps[0]);
    }
}

/// Law: for a path inside the source directory whose components below it
/// are ordinary names (the source directory itself may be absolute), the
/// summary path is relative (it does not start with `/`), and the source
/// directory joined with it gives the path back.
pub proof fn summary_path_rejoins(src_dir: Seq<Seq<char>>, path: Seq<Seq<char>>)
    requires
        is_component_prefix(src_dir, path),
        plain_components(path.skip(src_dir.len() as int)),
    ensures
        summary_path_of(src_dir, path) is Ok,
        summary_path_of(src_dir, path) matches Ok(s) ==> (s.len() == 0 || s[0] != '/')
            && src_dir + split_slash(s) == path,
{
    let rest = path.skip(src_dir.len() as int);
    lemma_split_join(rest);
    if rest.len() > 0 {
        assert(rest[0].len() > 0);
        assert(!rest[0].contains('/'));
        assert(rest[0][0] != '/') by {
            if rest[0][0] == '/' {
                assert(rest[0].contains('/'));
            }
        }
    }
    assert(src_dir + rest =~= path);
}

/// The path of a file as written in `SUMMARY.md`: the components of `path`
/// that follow those of `src_dir`, joined by `/`. Both paths are given as
/// their components.
pub fn to_summary_path(src_dir: &Vec<String>, path: &Vec<String>) -> (r: Result<
    String,
    SummaryPathError,
>)
    ensures
        match r {
            Ok(s) => summary_path_of(strings_view(src_dir@), strings_view(path@)) == Ok::<
                Seq<char>,
                SummaryPathError,
            >(s@),
            Err(e) => summary_path_of(strings_view(src_dir@), strings_view(path@)) == Err::<
                Seq<char>,
                SummaryPathError,
            >(e),
        },
{
    let ghost base = strings_view(src_dir@);
    let ghost full = strings_view(path@);
    if src_dir.len() > path.len() {
        return Err(SummaryPathError::OutsideSource);
    }
    let mut k: usize = 0;
    while k < src_dir.len()
        invariant
            k <= src_dir.len() <= path.len(),
            base == strings_view(src_dir@),
            full == strings_view(path@),
            forall|m: int| 0 <= m < k ==> #[trigger] base[m] == full[m],
        decreases src_dir.len() - k,
    {
        if !crate::text::same_text(src_dir[k].as_str(), path[k].as_str()) {
            assert(base[k as int] == src_dir@[k as int]@);
            assert(full[k as int] == path@[k as int]@);
            assert(base[k as int] != full[k as int]);
            return Err(SummaryPathError::OutsideSource);
        }
        k = k + 1;
    }
    let ghost rest = full.skip(src_dir.len() as int);
    let mut out = String::new();
    let mut i: usize = src_dir.len();
    assert(rest.take(0) =~= Seq::<Seq<char>>::empty());
    while i < path.len()
        invariant
            src_dir.len() <= i <= path.len(),
            full == strings_view(path@),
            rest == full.skip(src_dir.len() as int),
            out@ == join_slash(rest.take(i - src_dir.len())),
        decreases path.len() - i,
    {
        let ghost t = rest.take(i - src_dir.len() + 1);
        assert(t.drop_last() =~= rest.take(i - src_dir.len()));
        assert(t.last() == path@[i as int]@);
        if i > src_dir.len() {
            push_char(&mut out, '/');
        }
        push_str(&mut out, path[i].as_str());
        proof {
            if i == src_dir.len() {
                assert(out@ =~= t[0]);
            } else {
                assert(out@ =~= join_slash(t.drop_last()) + seq!['/'] + t.last());
            }
        }
        i = i + 1;
    }
    assert(rest.take(path.len() - src_dir.len()) =~= rest);
    Ok(out)
}

/// The number of entries the summary lists: those of `entries` and, when
/// there is one, the source directory's own index page (saturating at
/// `usize::MAX`).
pub fn total_entries(entries: &[Entry], has_root_index: bool) -> (r: usize)
    ensures
        r == (if saturated_count(entries@) + (if has_root_index { 1int } else { 0 }) > usize::MAX {
            usize::MAX as int
        } else {
            saturated_count(entries@) + (if has_root_index { 1int } else { 0 })
        }),
{
    let n = count_entries(entries);
    if has_root_index {
        n.saturating_add(1)
    } else {
        n
    }
}

/// What to do with the generated summary.
#[derive(Debug, PartialEq, Eq, Structural)]
pub enum OutputAction {
    /// Print it (dry run).
    Print,
    /// Report that the output file is up to date (check).
    ReportUpToDate,
    /// Report that the output file needs to be updated (check).
    ReportStale,
    /// Leave the output file alone: it already holds the summary.
    KeepUnchanged,
    /// Write the summary to the output file.
    Write,
}

/// The action for a run: a dry run prints; a check compares with the current
/// file (an unreadable file counting as empty); otherwise the file is written
/// unless it can be read and already holds `content`.
pub open spec fn output_action(
    dry_run: bool,
    check: bool,
    current: Option<Seq<char>>,
    content: Seq<char>,
) -> OutputAction {
    if dry_run {
        OutputAction::Print
    } else if check {
        let existing = match current {
            Some(c) => c,
            None => Seq::empty(),
        };
        if existing == content {
            OutputAction::ReportUpToDate
        } else {
            OutputAction::ReportStale
        }
    } else {
        match current {
            Some(c) => if c == content {
                OutputAction::KeepUnchanged
            } else {
                OutputAction::Write
            },
            None => OutputAction::Write,
        }
    }
}

/// Decides what to do with the summary `content`, given the run's flags and
/// the current content of the output file, if it could be read.
pub fn decide_output(dry_run: bool, check: bool, current: Option<&str>, content: &str) -> (r:
    OutputAction)
    ensures
        r == output_action(
            dry_run,
            check,
            match current {
                Some(c) => Some(c@),
                None => None,
            },
            content@,
        ),
{
    if dry_run {
        return OutputAction::Print;
    }
    if check {
        let same = match current {
            Some(c) => crate::text::same_text(c, content),
            None => crate::text::same_text("", content),
        };
        proof {
            assert(""@ =~= Seq::<char>::empty()) by {
                reveal_strlit("");
            }
        }
        return if same {
            OutputAction::ReportUpToDate
        } else {
            OutputAction::ReportStale
        };
    }
    match current {
        Some(c) => if crate::text::same_text(c, content) {
            OutputAction::KeepUnchanged
        } else {
            OutputAction::Write
        },
        None => OutputAction::Write,
    }
}

/// Law: once the summary has been written, a check reports it up to date
/// and a new run leaves the file unchanged.
pub proof fn written_summary_is_current(content: Seq<char>)
    ensures
        output_action(false, true, Some(content), content) == OutputAction::ReportUpToDate,
        output_action(false, false, Some(content), content) == OutputAction::KeepUnchanged,
{
}

/// Whether index pages generated for `--auto-readme` are written to disk:
/// only on a run that writes the summary, never on a dry run or a check.
pub fn writes_generated_pages(dry_run: bool, check: bool) -> (r: bool)
    ensures
        r == (!dry_run && !check),
{
    !dry_run && !check
}

/// The entry for a scanned directory, given the plan for its index page and,
/// when it has one, the index page's title and path and the directory's own
/// entries: a directory entry, or none when the directory has no index page.
pub fn directory_entry(
    plan: &crate::listing::IndexPlan,
    title: String,
    path: String,
    children: Vec<Entry>,
) -> (r: Option<Entry>)
    ensures
        match plan {
            crate::listing::IndexPlan::Missing => r is None,
            _ => r == Some(Entry::Dir { title, path, children }),
        },
{
    match plan {
        crate::listing::IndexPlan::Missing => None,
        _ => Some(Entry::Dir { title, path, children }),
    }
}

/// Law: a dry run only prints, whatever the other flags and the output file.
pub proof fn dry_run_never_writes(check: bool, current: Option<Seq<char>>, content: Seq<char>)
    ensures
        output_action(true, check, current, content) == OutputAction::Print,
{
}

/// Law: the output file is written exactly on a run that is neither a dry run
/// nor a check and finds the file unreadable or holding something else.
pub proof fn writes_only_when_stale(
    dry_run: bool,
    check: bool,
    current: Option<Seq<char>>,
    content: Seq<char>,
)
    ensures
        (output_action(dry_run, check, current, content) == OutputAction::Write) == (!dry_run && !check
            && current != Some(content)),
{
}

} // verus!
