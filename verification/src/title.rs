//! Titles of summary entries: cleaning a Markdown heading, the fallback title
//! made from a file name, and picking the first level-one heading of a page.
use vstd::prelude::*;
use crate::text::{chars_of, copy_range, first_chars, file_stem, push_str, stem_of, string_of, strip_ends, trim, trim_char, trim_ws};
use crate::unicode::{is_whitespace, push_char, to_uppercase, uppercase, white_space};


verus! {

/// `s` without its backtick characters.
pub open spec fn without_backticks(s: Seq<char>) -> Seq<char> {
    s.filter(|c: char| c != '`')
}

/// Index of the first `c` in `s`, if any.
pub open spec fn first_index(s: Seq<char>, c: char) -> Option<int>
    decreases s.len(),
{
    if s.len() == 0 {
        None
    } else if s[0] == c {
        Some(0)
    } else {
        match first_index(s.drop_first(), c) {
            Some(k) => Some(k + 1),
            None => None,
        }
    }
}

pub proof fn lemma_first_index(s: Seq<char>, c: char, k: int)
    requires
        0 <= k <= s.len(),
        forall|j: int| 0 <= j < k ==> #[trigger] s[j] != c,
        k == s.len() || s[k] == c,
    ensures
        first_index(s, c) == (if k == s.len() { None } else { Some(k) }),
    decreases k,
{
    if k > 0 {
        assert forall|j: int| 0 <= j < k - 1 implies #[trigger] s.drop_first()[j] != c by {
            assert(s.drop_first()[j] == s[j + 1]);
        }
        lemma_first_index(s.drop_first(), c, k - 1);
    }
}

pub proof fn lemma_first_index_range(s: Seq<char>, c: char)
    ensures
        first_index(s, c) matches Some(k) ==> 0 <= k < s.len() && s[k] == c,
    decreases s.len(),
{
    if s.len() > 0 && s[0] != c {
        lemma_first_index_range(s.drop_first(), c);
    }
}

/// Where `s` starts with a Markdown link `[text](target)`: the index of the
/// `]` that closes the text and of the `)` that closes the target. The text
/// runs to the first `]`; the `(` must follow it at once; the target runs to
/// the first `)` after that.
pub open spec fn link_at(s: Seq<char>) -> Option<(int, int)> {
    if s.len() > 0 && s[0] == '[' {
        match first_index(s.skip(1), ']') {
            Some(a) => {
                let cb = a + 1;
                if cb + 1 < s.len() && s[cb + 1] == '(' {
                    match first_index(s.skip(cb + 2), ')') {
                        Some(b) => Some((cb, cb + 2 + b)),
                        None => None,
                    }
                } else {
                    None
                }
            },
            None => None,
        }
    } else {
        None
    }
}

pub proof fn lemma_link_at_range(s: Seq<char>)
    ensures
        link_at(s) matches Some((cb, cp)) ==> 1 <= cb && cb + 2 <= cp < s.len(),
{
    if s.len() > 0 && s[0] == '[' {
        lemma_first_index_range(s.skip(1), ']');
        if let Some(a) = first_index(s.skip(1), ']') {
            let cb = a + 1;
            if cb + 1 < s.len() && s[cb + 1] == '(' {
                lemma_first_index_range(s.skip(cb + 2), ')');
            }
        }
    }
}

/// `s` with every Markdown link `[text](target)` replaced by its text,
/// scanning from the left; the text of a link is kept as it stands.
pub open spec fn strip_links(s: Seq<char>) -> Seq<char>
    decreases s.len(),
{
    if s.len() == 0 {
        s
    } else {
        match link_at(s) {
            Some((cb, cp)) => {
                proof {
                    lemma_link_at_range(s);
                }
                s.subrange(1, cb) + strip_links(s.skip(cp + 1))
            },
            None => seq![s[0]] + strip_links(s.drop_first()),
        }
    }
}

/// A heading's text made fit for a title: surrounding whitespace and `#`
/// marks removed, inline-code backticks dropped and links reduced to their
/// text.
pub open spec fn clean_title(s: Seq<char>) -> Seq<char> {
    strip_links(
        without_backticks(trim_ws(strip_ends(trim_ws(s), |c: char| c == '#'))),
    )
}

proof fn lemma_filter_step(s: Seq<char>, i: int, p: spec_fn(char) -> bool)
    requires
        0 <= i < s.len(),
    ensures
        s.take(i + 1).filter(p) == if p(s[i]) {
            s.take(i).filter(p).push(s[i])
        } else {
            s.take(i).filter(p)
        },
{
    reveal(Seq::filter);
    assert(s.take(i + 1).drop_last() =~= s.take(i));
}

fn without_backticks_vec(v: &Vec<char>) -> (r: Vec<char>)
    ensures
        r@ == without_backticks(v@),
{
    let ghost p = |c: char| c != '`';
    let mut r: Vec<char> = Vec::new();
    let mut i: usize = 0;
    while i < v.len()
        invariant
            i <= v.len(),
            p == (|c: char| c != '`'),
            r@ == v@.take(i as int).filter(p),
        decreases v.len() - i,
    {
        proof {
            lemma_filter_step(v@, i as int, p);
        }
        if v[i] != '`' {
            r.push(v[i]);
        }
        i = i + 1;
    }
    assert(v@.take(v.len() as int) =~= v@);
    r
}

/// `value` with its backticks removed: the marks of inline code go, the code
/// itself stays.
pub fn strip_inline_code(value: &str) -> (r: String)
    ensures
        r@ == without_backticks(value@),
{
    let v = chars_of(value);
    let w = without_backticks_vec(&v);
    string_of(&w)
}

/// The first index `k >= start` with `v[k] == c`.
fn find_from(v: &Vec<char>, start: usize, c: char) -> (r: Option<usize>)
    requires
        start <= v.len(),
    ensures
        match r {
            Some(k) => start <= k < v.len() && first_index(v@.skip(start as int), c) == Some(
                k - start,
            ),
            None => first_index(v@.skip(start as int), c) is None,
        },
{
    let mut k = start;
    while k < v.len()
        invariant
            start <= k <= v.len(),
            forall|j: int| start <= j < k ==> #[trigger] v@[j] != c,
        decreases v.len() - k,
    {
        if v[k] == c {
            proof {
                let t = v@.skip(start as int);
                assert forall|j: int| 0 <= j < k - start implies #[trigger] t[j] != c by {
                    assert(t[j] == v@[j + start]);
                }
                lemma_first_index(t, c, k - start);
            }
            return Some(k);
        }
        k = k + 1;
    }
    proof {
        let t = v@.skip(start as int);
        assert forall|j: int| 0 <= j < t.len() implies #[trigger] t[j] != c by {
            assert(t[j] == v@[j + start]);
        }
        lemma_first_index(t, c, t.len() as int);
    }
    None
}

/// Appends `v[a..b]` to `out`.
fn extend_range(out: &mut Vec<char>, v: &Vec<char>, a: usize, b: usize)
    requires
        a <= b <= v.len(),
    ensures
        final(out)@ == old(out)@ + v@.subrange(a as int, b as int),
{
    let ghost start = out@;
    let mut i = a;
    while i < b
        invariant
            a <= i <= b <= v.len(),
            out@ == start + v@.subrange(a as int, i as int),
        decreases b - i,
    {
        out.push(v[i]);
        i = i + 1;
        assert(out@ =~= start + v@.subrange(a as int, i as int));
    }
}

fn strip_links_vec(v: &Vec<char>) -> (r: Vec<char>)
    ensures
        r@ == strip_links(v@),
{
    let n = v.len();
    let mut out: Vec<char> = Vec::new();
    let mut i: usize = 0;
    assert(v@.skip(0) =~= v@);
    while i < n
        invariant
            n == v.len(),
            i <= n,
            out@ + strip_links(v@.skip(i as int)) == strip_links(v@),
        decreases n - i,
    {
        let ghost t = v@.skip(i as int);
        assert(t.skip(1) =~= v@.skip(i + 1));
        assert(t.drop_first() =~= v@.skip(i + 1));
        if v[i] == '[' {
            if let Some(cb) = find_from(v, i + 1, ']') {
                assert(t.skip((cb - i) + 1) =~= v@.skip(cb + 1));
                if cb + 1 < n && v[cb + 1] == '(' {
                    assert(t.skip((cb - i) + 2) =~= v@.skip(cb + 2));
                    if let Some(cp) = find_from(v, cb + 2, ')') {
                        proof {
                            assert(link_at(t) == Some(((cb - i) as int, (cp - i) as int)));
                            lemma_link_at_range(t);
                            assert(t.subrange(1, cb - i) =~= v@.subrange(i + 1, cb as int));
                            assert(t.skip(cp - i + 1) =~= v@.skip(cp + 1));
                        }
                        let ghost before = out@;
                        extend_range(&mut out, v, i + 1, cb);
                        i = cp + 1;
                        assert(out@ + strip_links(v@.skip(i as int)) =~= before + strip_links(t));
                        continue;
                    } else {
                        assert(link_at(t) is None);
                    }
                } else {
                    assert(link_at(t) is None);
                }
            } else {
                assert(link_at(t) is None);
            }
        }
        assert(link_at(t) is None);
        let ghost before = out@;
        out.push(v[i]);
        i = i + 1;
        assert(out@ + strip_links(v@.skip(i as int)) =~= before + strip_links(t));
    }
    assert(v@.skip(n as int) =~= Seq::<char>::empty());
    assert(out@ + Seq::<char>::empty() =~= out@);
    out
}

/// `value` with each Markdown link `[text](target)` replaced by its text.
pub fn strip_markdown_links(value: &str) -> (r: String)
    ensures
        r@ == strip_links(value@),
{
    let v = chars_of(value);
    let w = strip_links_vec(&v);
    string_of(&w)
}

/// A heading's text turned into an entry title: whitespace and `#` marks
/// trimmed from both ends, then inline code marks and links removed.
pub fn clean_markdown_title(title: &str) -> (r: String)
    ensures
        r@ == clean_title(title@),
{
    let v = chars_of(title);
    let e = clean_title_vec(&v);
    string_of(&e)
}

fn clean_title_vec(v: &Vec<char>) -> (r: Vec<char>)
    ensures
        r@ == clean_title(v@),
{
    let a = trim(v);
    let b = trim_char(&a, '#');
    let c = trim(&b);
    let d = without_backticks_vec(&c);
    strip_links_vec(&d)
}

/// The words of `s`: its maximal runs of non-whitespace characters, in order
/// (`str::split_whitespace`). Stated by how the words grow as `s` grows by
/// one character at its end.
pub open spec fn words(s: Seq<char>) -> Seq<Seq<char>>
    decreases s.len(),
{
    if s.len() == 0 {
        Seq::empty()
    } else {
        let w = words(s.drop_last());
        if white_space(s.last()) {
            w
        } else if s.len() == 1 || white_space(s[s.len() - 2]) {
            w.push(seq![s.last()])
        } else {
            w.drop_last().push(w.last().push(s.last()))
        }
    }
}

/// `w` with its first character uppercased.
pub open spec fn capitalize(w: Seq<char>) -> Seq<char> {
    if w.len() == 0 {
        w
    } else {
        uppercase(w[0]) + w.drop_first()
    }
}

/// The capitalized words joined by single spaces.
pub open spec fn join_capitalized(ws: Seq<Seq<char>>) -> Seq<char>
    decreases ws.len(),
{
    if ws.len() == 0 {
        Seq::empty()
    } else if ws.len() == 1 {
        capitalize(ws[0])
    } else {
        join_capitalized(ws.drop_last()) + seq![' '] + capitalize(ws.last())
    }
}

/// `s` split into words, each word capitalized, joined by single spaces.
pub open spec fn title_case(s: Seq<char>) -> Seq<char> {
    join_capitalized(words(s))
}

/// `s` with `_` and `-` turned into spaces.
pub open spec fn dashes_to_spaces(s: Seq<char>) -> Seq<char> {
    s.map_values(|c: char| if c == '_' || c == '-' { ' ' } else { c })
}

/// The title of a page without a heading, made from its file name.
pub open spec fn fallback_title_of(file_name: Seq<char>) -> Seq<char> {
    title_case(dashes_to_spaces(file_stem(file_name)))
}

proof fn lemma_words_nonempty(s: Seq<char>)
    ensures
        forall|k: int| 0 <= k < words(s).len() ==> #[trigger] words(s)[k].len() > 0,
        s.len() > 0 && !white_space(s.last()) ==> words(s).len() > 0,
    decreases s.len(),
{
    if s.len() > 0 {
        let d = s.drop_last();
        lemma_words_nonempty(d);
        let w = words(d);
        if !white_space(s.last()) {
            if s.len() == 1 || white_space(s[s.len() - 2]) {
                let r = w.push(seq![s.last()]);
                assert forall|k: int| 0 <= k < r.len() implies #[trigger] r[k].len() > 0 by {
                    if k < w.len() {
                        assert(r[k] == w[k]);
                    }
                }
            } else {
                assert(d.last() == s[s.len() - 2]);
                assert(w.len() > 0);
                let r = w.drop_last().push(w.last().push(s.last()));
                assert forall|k: int| 0 <= k < r.len() implies #[trigger] r[k].len() > 0 by {
                    if k < w.len() - 1 {
                        assert(r[k] == w[k]);
                    }
                }
            }
        }
    }
}

proof fn lemma_join_replace_last(ws: Seq<Seq<char>>, x: Seq<char>)
    requires
        ws.len() > 0,
    ensures
        join_capitalized(ws.drop_last().push(x)) == if ws.len() == 1 {
            capitalize(x)
        } else {
            join_capitalized(ws.drop_last()) + seq![' '] + capitalize(x)
        },
{
    let t = ws.drop_last().push(x);
    assert(t.drop_last() =~= ws.drop_last());
}

fn title_case_vec(v: &Vec<char>) -> (r: String)
    ensures
        r@ == title_case(v@),
{
    let mut out = String::new();
    let mut in_word = false;
    let mut seen_word = false;
    let mut i: usize = 0;
    while i < v.len()
        invariant
            i <= v.len(),
            out@ == join_capitalized(words(v@.take(i as int))),
            in_word == (i > 0 && !white_space(v@[i - 1])),
            seen_word == (words(v@.take(i as int)).len() > 0),
        decreases v.len() - i,
    {
        let c = v[i];
        let ghost t = v@.take(i + 1);
        let ghost w = words(v@.take(i as int));
        proof {
            assert(t.drop_last() =~= v@.take(i as int));
            assert(t.last() == c);
            if i > 0 {
                assert(t[t.len() - 2] == v@[i - 1]);
            }
            lemma_words_nonempty(v@.take(i as int));
            lemma_words_nonempty(t);
        }
        if is_whitespace(c) {
            in_word = false;
        } else if !in_word {
            if seen_word {
                push_char(&mut out, ' ');
            }
            let up = to_uppercase(c);
            push_str(&mut out, up.as_str());
            in_word = true;
            seen_word = true;
            proof {
                assert(words(t) == w.push(seq![c]));
                let x = seq![c];
                assert(capitalize(x) =~= uppercase(c));
                let ws2 = w.push(x);
                assert(ws2.drop_last() =~= w);
                if w.len() == 0 {
                    assert(ws2.len() == 1);
                    assert(out@ =~= capitalize(x));
                } else {
                    assert(out@ =~= join_capitalized(w) + seq![' '] + capitalize(x));
                }
            }
        } else {
            push_char(&mut out, c);
            proof {
                let last = w.last();
                assert(last.len() > 0);
                assert(capitalize(last.push(c)) =~= capitalize(last).push(c));
                lemma_join_replace_last(w, last.push(c));
                if w.len() == 1 {
                    assert(join_capitalized(w) == capitalize(w[0]));
                } else {
                    assert(join_capitalized(w) == join_capitalized(w.drop_last()) + seq![' '] + capitalize(last));
                }
                assert(out@ =~= join_capitalized(words(t)));
            }
        }
        i = i + 1;
    }
    assert(v@.take(v.len() as int) =~= v@);
    out
}

/// `value` split at whitespace into words, each word with its first character
/// uppercased, joined by single spaces.
pub fn title_case_ascii(value: &str) -> (r: String)
    ensures
        r@ == title_case(value@),
{
    let v = chars_of(value);
    title_case_vec(&v)
}

/// The title used for a page that has no level-one heading: its file name
/// without extension, `_` and `-` read as spaces, in title case.
pub fn fallback_title(file_name: &str) -> (r: String)
    ensures
        r@ == fallback_title_of(file_name@),
{
    let name = chars_of(file_name);
    let stem = stem_of(&name);
    let mut spaced: Vec<char> = Vec::new();
    let mut i: usize = 0;
    while i < stem.len()
        invariant
            i <= stem.len(),
            spaced@ == dashes_to_spaces(stem@.take(i as int)),
        decreases stem.len() - i,
    {
        let c = stem[i];
        if c == '_' || c == '-' {
            spaced.push(' ');
        } else {
            spaced.push(c);
        }
        i = i + 1;
        assert(spaced@ =~= dashes_to_spaces(stem@.take(i as int)));
    }
    assert(stem@.take(stem.len() as int) =~= stem@);
    title_case_vec(&spaced)
}

/// How many characters from the start of a page are searched for its
/// heading.
pub const TITLE_SCAN_CHARS: usize = 2048;

/// The first `TITLE_SCAN_CHARS` characters of `content` (all of them when it
/// is shorter).
pub open spec fn scanned_part(content: Seq<char>) -> Seq<char> {
    if content.len() <= TITLE_SCAN_CHARS {
        content
    } else {
        content.take(TITLE_SCAN_CHARS as int)
    }
}

/// `line` without one `\r` at its end.
pub open spec fn drop_cr(line: Seq<char>) -> Seq<char> {
    if line.len() > 0 && line.last() == '\r' {
        line.drop_last()
    } else {
        line
    }
}

/// The lines of `text` as `str::lines` yields them: split at each `\n`, with
/// a `\r` just before the `\n` removed; a final `\n` ends the last line and
/// opens no empty one.
pub open spec fn text_lines(text: Seq<char>) -> Seq<Seq<char>>
    decreases text.len(),
{
    if text.len() == 0 {
        Seq::empty()
    } else {
        match first_index(text, '\n') {
            Some(k) => {
                proof {
                    lemma_first_index_range(text, '\n');
                }
                seq![drop_cr(text.take(k))] + text_lines(text.skip(k + 1))
            },
            None => seq![text],
        }
    }
}

/// Whether `line` is a level-one Markdown heading: it starts with `# `.
pub open spec fn is_heading(line: Seq<char>) -> bool {
    line.len() >= 2 && line[0] == '#' && line[1] == ' '
}

/// The text after `# ` of the first heading line, if any.
pub open spec fn first_heading(lines: Seq<Seq<char>>) -> Option<Seq<char>>
    decreases lines.len(),
{
    if lines.len() == 0 {
        None
    } else if is_heading(lines[0]) {
        Some(lines[0].skip(2))
    } else {
        first_heading(lines.drop_first())
    }
}

/// The title of a page: its first level-one heading among the lines of the
/// scanned part of its content, cleaned; else the fallback made from its file
/// name.
pub open spec fn page_title(content: Seq<char>, file_name: Seq<char>) -> Seq<char> {
    match first_heading(text_lines(scanned_part(content))) {
        Some(h) => clean_title(h),
        None => fallback_title_of(file_name),
    }
}

/// The title of the page with content `content` and file name `file_name`:
/// the first line starting with `# ` within its first `TITLE_SCAN_CHARS`
/// characters, cleaned; else the fallback title of the file name.
pub fn extract_title_from_md(content: &str, file_name: &str) -> (r: String)
    ensures
        r@ == page_title(content@, file_name@),
{
    let v = first_chars(content, TITLE_SCAN_CHARS);
    let n = v.len();
    assert(v@ =~= scanned_part(content@));
    let mut pos: usize = 0;
    assert(v@.skip(0) =~= v@);
    while pos < n
        invariant
            n == v.len(),
            v@ == scanned_part(content@),
            pos <= n,
            first_heading(text_lines(v@.skip(pos as int))) == first_heading(text_lines(v@)),
        decreases n - pos,
    {
        let ghost t = v@.skip(pos as int);
        let found = find_from(&v, pos, '\n');
        let (line, next) = match found {
            Some(k) => {
                let raw = copy_range(&v, pos, k);
                let line = if k > pos && v[k - 1] == '\r' {
                    copy_range(&v, pos, k - 1)
                } else {
                    raw
                };
                proof {
                    assert(t.take(k - pos) =~= v@.subrange(pos as int, k as int));
                    assert(t.skip(k - pos + 1) =~= v@.skip(k + 1));
                    if k > pos && v@[k - 1] == '\r' {
                        assert(v@.subrange(pos as int, k as int).drop_last() =~= v@.subrange(
                            pos as int,
                            k - 1,
                        ));
                    }
                    assert(line@ == drop_cr(t.take(k - pos)));
                    assert(text_lines(t) == seq![line@] + text_lines(v@.skip(k + 1)));
                }
                (line, k + 1)
            },
            None => {
                let line = copy_range(&v, pos, n);
                proof {
                    assert(line@ =~= t);
                    assert(text_lines(t) == seq![t]);
                    assert(v@.skip(n as int) =~= Seq::<char>::empty());
                }
                (line, n)
            },
        };
        let ghost rest = text_lines(v@.skip(next as int));
        assert((seq![line@] + rest).drop_first() =~= rest);
        if line.len() >= 2 && line[0] == '#' && line[1] == ' ' {
            let heading = copy_range(&line, 2, line.len());
            assert(heading@ =~= line@.skip(2));
            assert((seq![line@] + rest)[0] == line@);
            assert(first_heading(seq![line@] + rest) == Some(line@.skip(2)));
            let cleaned = clean_title_vec(&heading);
            return string_of(&cleaned);
        }
        pos = next;
    }
    assert(v@.skip(n as int) =~= Seq::<char>::empty());
    fallback_title(file_name)
}

/// The content written to the index page generated for a directory that has
/// none: a level-one heading holding the directory's name.
pub fn auto_readme_content(dir_name: &str) -> (r: String)
    ensures
        r@ == generated_index(dir_name@),
{
    let mut r = String::new();
    push_char(&mut r, '#');
    push_char(&mut r, ' ');
    push_str(&mut r, dir_name);
    push_char(&mut r, '\n');
    assert(r@ =~= seq!['#', ' '] + dir_name@ + seq!['\n']);
    r
}

/// The index page generated for a directory named `name`: `# name` and a
/// line break.
pub open spec fn generated_index(name: Seq<char>) -> Seq<char> {
    seq!['#', ' '] + name + seq!['\n']
}

/// Law: text without `[` holds no link and passes link stripping unchanged.
pub proof fn strip_links_without_brackets(s: Seq<char>)
    requires
        forall|i: int| 0 <= i < s.len() ==> s[i] != '[',
    ensures
        strip_links(s) == s,
    decreases s.len(),
{
    if s.len() > 0 {
        let d = s.drop_first();
        assert forall|i: int| 0 <= i < d.len() implies d[i] != '[' by {
            assert(d[i] == s[i + 1]);
        }
        strip_links_without_brackets(d);
        assert(s =~= seq![s[0]] + d);
    }
}

proof fn lemma_strip_links_keeps_out(s: Seq<char>, c: char)
    requires
        forall|i: int| 0 <= i < s.len() ==> s[i] != c,
    ensures
        forall|i: int| 0 <= i < strip_links(s).len() ==> strip_links(s)[i] != c,
    decreases s.len(),
{
    if s.len() > 0 {
        match link_at(s) {
            Some((cb, cp)) => {
                lemma_link_at_range(s);
                let t = s.skip(cp + 1);
                assert forall|i: int| 0 <= i < t.len() implies t[i] != c by {
                    assert(t[i] == s[i + cp + 1]);
                }
                lemma_strip_links_keeps_out(t, c);
                let head = s.subrange(1, cb);
                let r = head + strip_links(t);
                assert forall|i: int| 0 <= i < r.len() implies r[i] != c by {
                    if i < head.len() {
                        assert(r[i] == s[i + 1]);
                    } else {
                        assert(r[i] == strip_links(t)[i - head.len()]);
                    }
                }
            },
            None => {
                let d = s.drop_first();
                assert forall|i: int| 0 <= i < d.len() implies d[i] != c by {
                    assert(d[i] == s[i + 1]);
                }
                lemma_strip_links_keeps_out(d, c);
                let r = seq![s[0]] + strip_links(d);
                assert forall|i: int| 0 <= i < r.len() implies r[i] != c by {
                    if i > 0 {
                        assert(r[i] == strip_links(d)[i - 1]);
                    }
                }
            },
        }
    }
}

/// Law: a cleaned title holds no backtick.
pub proof fn clean_title_has_no_backticks(s: Seq<char>)
    ensures
        forall|i: int| 0 <= i < clean_title(s).len() ==> clean_title(s)[i] != '`',
{
    let p = |c: char| c != '`';
    let t = trim_ws(strip_ends(trim_ws(s), |c: char| c == '#'));
    let f = without_backticks(t);
    assert forall|i: int| 0 <= i < f.len() implies f[i] != '`' by {
        t.lemma_filter_pred(p, i);
    }
    lemma_strip_links_keeps_out(f, '`');
}

/// Law: the index page generated for a directory is titled with the
/// directory's name, cleaned like any heading (for a name without line breaks
/// that does not end in `\r` and is short enough to lie in the scanned part).
pub proof fn generated_index_title(name: Seq<char>)
    requires
        forall|i: int| 0 <= i < name.len() ==> name[i] != '\n',
        name.len() == 0 || name.last() != '\r',
        name.len() + 3 <= TITLE_SCAN_CHARS,
    ensures
        page_title(generated_index(name), "README.md"@) == clean_title(name),
{
    let content = generated_index(name);
    let k: int = name.len() as int + 2;
    assert forall|j: int| 0 <= j < k implies #[trigger] content[j] != '\n' by {
        if j >= 2 {
            assert(content[j] == name[j - 2]);
        }
    }
    lemma_first_index(content, '\n', k);
    let line = content.take(k);
    assert(line =~= seq!['#', ' '] + name);
    assert(drop_cr(line) == line);
    assert(content.skip(k + 1) =~= Seq::<char>::empty());
    assert(text_lines(content.skip(k + 1)) == Seq::<Seq<char>>::empty());
    assert(content.len() > 0);
    assert(text_lines(content) == seq![drop_cr(line)] + text_lines(content.skip(k + 1)));
    assert(text_lines(content) =~= seq![line]);
    assert(line.skip(2) =~= name);
    assert(first_heading(seq![line]) == Some(name));
}

proof fn lemma_words_single(s: Seq<char>)
    requires
        s.len() > 0,
        forall|i: int| 0 <= i < s.len() ==> !white_space(#[trigger] s[i]),
    ensures
        words(s) == seq![s],
    decreases s.len(),
{
    let d = s.drop_last();
    if s.len() == 1 {
        assert(words(d) == Seq::<Seq<char>>::empty());
        assert(s =~= seq![s.last()]);
        assert(words(s) =~= seq![s]);
    } else {
        assert forall|i: int| 0 <= i < d.len() implies !white_space(#[trigger] d[i]) by {
            assert(d[i] == s[i]);
        }
        lemma_words_single(d);
        assert(d.last() == s[s.len() - 2]);
        assert(d.push(s.last()) =~= s);
        assert(words(s) =~= seq![s]);
    }
}

/// Law: a single word is title-cased by uppercasing its first character
/// alone; every later character is kept as it is.
pub proof fn title_case_single_word(w: Seq<char>)
    requires
        w.len() > 0,
        forall|i: int| 0 <= i < w.len() ==> !white_space(#[trigger] w[i]),
    ensures
        title_case(w) == uppercase(w[0]) + w.drop_first(),
{
    lemma_words_single(w);
}

/// Law: when a file's stem is a single word without `_` or `-`, its
/// fallback title is the stem with only its first character uppercased.
pub proof fn fallback_title_keeps_word_tails(name: Seq<char>)
    requires
        file_stem(name).len() > 0,
        forall|i: int|
            0 <= i < file_stem(name).len() ==> !white_space(#[trigger] file_stem(name)[i])
                && file_stem(name)[i] != '_' && file_stem(name)[i] != '-',
    ensures
        fallback_title_of(name) == uppercase(file_stem(name)[0]) + file_stem(name).drop_first(),
{
    let st = file_stem(name);
    assert(dashes_to_spaces(st) =~= st);
    title_case_single_word(st);
}

} // verus!
