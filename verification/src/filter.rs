//! Which files and directories of the source tree belong in the book.
use vstd::prelude::*;
use crate::text::{chars_of, copy_range, same_text, string_of};
use crate::unicode::{lowercase, to_lowercase};

verus! {

/// Names of directories that are never scanned although they are not
/// hidden. (Hidden directories, such as `.git` and `.github`, are never
/// scanned because their names start with `.`.)
pub open spec fn excluded_dir_names() -> Seq<Seq<char>> {
    seq!["node_modules"@, "__pycache__"@]
}

/// Whether a directory called `name` is scanned: it is not hidden (its name
/// does not start with `.`) and not one of `excluded_dir_names`.
pub open spec fn dir_included(name: Seq<char>) -> bool {
    !(name.len() > 0 && name[0] == '.') && !excluded_dir_names().contains(name)
}

/// Whether the directory `dirname` is scanned.
pub fn should_include_dir(dirname: &str) -> (r: bool)
    ensures
        r == dir_included(dirname@),
{
    let v = chars_of(dirname);
    if v.len() > 0 && v[0] == '.' {
        return false;
    }
    let ghost names = excluded_dir_names();
    let hit = same_text(dirname, "node_modules") || same_text(dirname, "__pycache__");
    proof {
        if hit {
            if dirname@ == "node_modules"@ {
                assert(names[0] == dirname@);
            } else {
                assert(names[1] == dirname@);
            }
        } else {
            assert forall|k: int| 0 <= k < names.len() implies names[k] != dirname@ by {}
        }
    }
    !hit
}

/// Whether `s` ends with `suffix`.
pub open spec fn has_suffix(s: Seq<char>, suffix: Seq<char>) -> bool {
    s.len() >= suffix.len() && s.skip(s.len() - suffix.len()) == suffix
}

/// Whether a lowercased file name ends like an editor backup or temporary
/// file: `~`, `.bak`, `.tmp`, `.swp` or `.swo`.
pub open spec fn has_temporary_suffix(lower: Seq<char>) -> bool {
    has_suffix(lower, "~"@) || has_suffix(lower, ".bak"@) || has_suffix(lower, ".tmp"@)
        || has_suffix(lower, ".swp"@) || has_suffix(lower, ".swo"@)
}

/// `s` with every trailing `.md` removed, however often it repeats
/// (`str::trim_end_matches(".md")`).
pub open spec fn without_md_suffixes(s: Seq<char>) -> Seq<char>
    decreases s.len(),
{
    if has_suffix(s, seq!['.', 'm', 'd']) {
        without_md_suffixes(s.take(s.len() - 3))
    } else {
        s
    }
}

/// Whether `c` separates the words of a file name: `.`, `_` or `-`.
pub open spec fn is_name_separator(c: char) -> bool {
    c == '.' || c == '_' || c == '-'
}

/// Words that mark a file as a draft or a copy.
pub open spec fn is_excluded_word(w: Seq<char>) -> bool {
    w == "backup"@ || w == "old"@ || w == "temp"@ || w == "tmp"@ || w == "draft"@ || w == "bak"@
}

/// Whether `s[i..j]` is one of the words of `s`: a maximal run without
/// separators.
pub open spec fn is_word_span(s: Seq<char>, i: int, j: int) -> bool {
    &&& 0 <= i <= j <= s.len()
    &&& (i == 0 || is_name_separator(s[i - 1]))
    &&& (j == s.len() || is_name_separator(s[j]))
    &&& forall|k: int| i <= k < j ==> !is_name_separator(#[trigger] s[k])
}

/// Whether one of the words of `s` is an excluded word.
pub open spec fn has_excluded_word(s: Seq<char>) -> bool {
    exists|i: int, j: int| is_word_span(s, i, j) && is_excluded_word(#[trigger] s.subrange(i, j))
}

/// Whether a file whose lowercased name is `lower` belongs in the book: it
/// does not end like a temporary file, and no word of the name (after its
/// `.md` suffixes are removed) is `backup`, `old`, `temp`, `tmp`, `draft` or
/// `bak`.
pub open spec fn lowered_name_included(lower: Seq<char>) -> bool {
    !has_temporary_suffix(lower) && !has_excluded_word(without_md_suffixes(lower))
}

/// Whether the file `name` belongs in the book, judged on its lowercase form.
pub open spec fn file_included(name: Seq<char>) -> bool {
    lowered_name_included(lowercase(name))
}

/// Whether `v` ends with the characters of `suffix`.
fn ends_with(v: &Vec<char>, suffix: &str) -> (r: bool)
    ensures
        r == has_suffix(v@, suffix@),
{
    let s = chars_of(suffix);
    if s.len() > v.len() {
        return false;
    }
    let off = v.len() - s.len();
    let mut i: usize = 0;
    while i < s.len()
        invariant
            s@ == suffix@,
            off + s.len() == v.len(),
            i <= s.len(),
            forall|k: int| 0 <= k < i ==> v@[off + k] == #[trigger] s@[k],
        decreases s.len() - i,
    {
        if v[off + i] != s[i] {
            assert(v@.skip(off as int)[i as int] == v@[off + i]);
            return false;
        }
        i = i + 1;
    }
    assert(v@.skip(off as int) =~= s@);
    true
}

/// `v` without its trailing `.md` suffixes.
fn strip_md_suffixes(v: &Vec<char>) -> (r: Vec<char>)
    ensures
        r@ == without_md_suffixes(v@),
{
    let mut n = v.len();
    assert(v@.take(n as int) =~= v@);
    while n >= 3 && v[n - 3] == '.' && v[n - 2] == 'm' && v[n - 1] == 'd'
        invariant
            n <= v.len(),
            without_md_suffixes(v@.take(n as int)) == without_md_suffixes(v@),
        decreases n,
    {
        proof {
            let t = v@.take(n as int);
            assert(t.skip(t.len() - 3) =~= seq!['.', 'm', 'd']);
            assert(t.take(t.len() - 3) =~= v@.take(n - 3));
        }
        n = n - 3;
    }
    proof {
        let t = v@.take(n as int);
        if has_suffix(t, seq!['.', 'm', 'd']) {
            assert(t.skip(t.len() - 3)[0] == t[n - 3]);
            assert(t.skip(t.len() - 3)[1] == t[n - 2]);
            assert(t.skip(t.len() - 3)[2] == t[n - 1]);
        }
    }
    copy_range(v, 0, n)
}

/// Executable `is_excluded_word` on `v[i..j]`.
fn is_excluded_span(v: &Vec<char>, i: usize, j: usize) -> (r: bool)
    requires
        i <= j <= v.len(),
    ensures
        r == is_excluded_word(v@.subrange(i as int, j as int)),
{
    let w = copy_range(v, i, j);
    let s = string_of(&w);
    let s = s.as_str();
    same_text(s, "backup") || same_text(s, "old") || same_text(s, "temp") || same_text(s, "tmp")
        || same_text(s, "draft") || same_text(s, "bak")
}

/// Whether the word of `v` that runs from `start` to `k` is excluded; and
/// with it, whether any word ending at or before `k` is.
proof fn lemma_word_span_at(v: Seq<char>, start: int, k: int)
    requires
        0 <= start <= k <= v.len(),
        start == 0 || is_name_separator(v[start - 1]),
        forall|m: int| start <= m < k ==> !is_name_separator(#[trigger] v[m]),
        k == v.len() || is_name_separator(v[k]),
    ensures
        is_word_span(v, start, k),
        forall|i: int| is_word_span(v, i, k) ==> i == start,
{
    assert forall|i: int| is_word_span(v, i, k) implies i == start by {
        if i < start {
            assert(!is_name_separator(v[start - 1]));
        } else if i > start {
            assert(!is_name_separator(v[i - 1]));
        }
    }
}

/// Executable `has_excluded_word`.
fn has_excluded_word_vec(v: &Vec<char>) -> (r: bool)
    ensures
        r == has_excluded_word(v@),
{
    let n = v.len();
    let mut start: usize = 0;
    let mut k: usize = 0;
    while k < n
        invariant
            n == v.len(),
            start <= k <= n,
            start == 0 || is_name_separator(v@[start - 1]),
            forall|m: int| start <= m < k ==> !is_name_separator(#[trigger] v@[m]),
            forall|i: int, j: int|
                is_word_span(v@, i, j) && j < k ==> !is_excluded_word(
                    #[trigger] v@.subrange(i, j),
                ),
        decreases n - k,
    {
        if v[k] == '.' || v[k] == '_' || v[k] == '-' {
            let bad = is_excluded_span(v, start, k);
            proof {
                lemma_word_span_at(v@, start as int, k as int);
            }
            if bad {
                return true;
            }
            start = k + 1;
        }
        k = k + 1;
    }
    let bad = is_excluded_span(v, start, n);
    proof {
        lemma_word_span_at(v@, start as int, n as int);
    }
    bad
}

/// Whether a file whose lowercased name is `lower` belongs in the book.
pub fn should_include_lowercased(lower: &str) -> (r: bool)
    ensures
        r == lowered_name_included(lower@),
{
    let v = chars_of(lower);
    if ends_with(&v, "~") || ends_with(&v, ".bak") || ends_with(&v, ".tmp") || ends_with(&v, ".swp")
        || ends_with(&v, ".swo") {
        return false;
    }
    let stem = strip_md_suffixes(&v);
    !has_excluded_word_vec(&stem)
}

/// Whether the file `filename` belongs in the book: its lowercase form does
/// not end in `~`, `.bak`, `.tmp`, `.swp` or `.swo`, and none of its words
/// (split at `.`, `_` and `-`, after trailing `.md` is removed) is `backup`,
/// `old`, `temp`, `tmp`, `draft` or `bak`.
pub fn should_include_file(filename: &str) -> (r: bool)
    ensures
        r == file_included(filename@),
{
    let lower = to_lowercase(filename);
    should_include_lowercased(lower.as_str())
}

} // verus!
