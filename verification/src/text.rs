//! Character-level helpers shared by the rest of the library: moving between
//! `str` and character vectors, comparing texts, and trimming ends.
use vstd::prelude::*;
use crate::unicode::{push_char, is_whitespace, white_space};
use vstd::std_specs::iter::IteratorSpec;

verus! {

/// At most the first `limit` characters of `s`, in order.
pub open spec fn chars_prefix(s: Seq<char>, limit: usize) -> Seq<char> {
    if s.len() <= limit {
        s
    } else {
        s.take(limit as int)
    }
}

/// The first `limit` characters of `s` (all of them when it is shorter),
/// read in one pass.
pub fn first_chars(s: &str, limit: usize) -> (v: Vec<char>)
    ensures
        v@ == chars_prefix(s@, limit),
{
    let mut it = s.chars();
    let mut v: Vec<char> = Vec::new();
    proof {
        assert(it.remaining() == s@);
    }
    while v.len() < limit
        invariant
            v.len() <= limit,
            v.len() <= s@.len(),
            v@ == s@.take(v.len() as int),
            it.remaining() == s@.skip(v.len() as int),
        decreases limit - v.len(),
    {
        let ghost before = v@;
        match it.next() {
            Some(c) => {
                assert(s@.skip(before.len() as int).len() > 0);
                assert(c == s@[before.len() as int]);
                v.push(c);
                assert(v@ =~= s@.take(v.len() as int));
                assert(s@.skip(before.len() as int).drop_first() =~= s@.skip(v.len() as int));
            },
            None => {
                assert(s@.skip(v.len() as int).len() == 0);
                assert(v@ =~= s@);
                return v;
            },
        }
    }
    proof {
        if s@.len() <= limit {
            assert(v@ =~= s@);
        }
    }
    v
}

/// The characters of `s`, in order, read in one pass.
pub fn chars_of(s: &str) -> (v: Vec<char>)
    ensures
        v@ == s@,
{
    let mut it = s.chars();
    let mut v: Vec<char> = Vec::new();
    proof {
        assert(it.remaining() == s@);
    }
    loop
        invariant
            v.len() <= s@.len(),
            v@ == s@.take(v.len() as int),
            it.remaining() == s@.skip(v.len() as int),
        decreases s@.len() - v.len(),
    {
        let ghost before = v@;
        match it.next() {
            Some(c) => {
                assert(s@.skip(before.len() as int).len() > 0);
                assert(c == s@[before.len() as int]);
                v.push(c);
                assert(v@ =~= s@.take(v.len() as int));
                assert(s@.skip(before.len() as int).drop_first() =~= s@.skip(v.len() as int));
            },
            None => {
                assert(s@.skip(v.len() as int).len() == 0);
                assert(v@ =~= s@);
                return v;
            },
        }
    }
}

/// A `String` holding the characters `v[from..to]`.
pub fn string_of_range(v: &Vec<char>, from: usize, to: usize) -> (s: String)
    requires
        from <= to <= v.len(),
    ensures
        s@ == v@.subrange(from as int, to as int),
{
    let mut s = String::new();
    let mut i: usize = from;
    while i < to
        invariant
            from <= i <= to <= v.len(),
            s@ == v@.subrange(from as int, i as int),
        decreases to - i,
    {
        push_char(&mut s, v[i]);
        i = i + 1;
        assert(s@ =~= v@.subrange(from as int, i as int));
    }
    s
}

/// A `String` holding the characters of `v`.
pub fn string_of(v: &Vec<char>) -> (s: String)
    ensures
        s@ == v@,
{
    let s = string_of_range(v, 0, v.len());
    assert(v@.subrange(0, v@.len() as int) =~= v@);
    s
}

/// A copy of `s`.
pub fn copy_string(s: &String) -> (r: String)
    ensures
        r@ == s@,
{
    s.clone()
}

/// Appends the characters of `t` to `s`.
pub fn push_str(s: &mut String, t: &str)
    ensures
        final(s)@ == old(s)@ + t@,
{
    let v = chars_of(t);
    let ghost start = s@;
    let mut i: usize = 0;
    while i < v.len()
        invariant
            v@ == t@,
            i <= v.len(),
            s@ == start + t@.take(i as int),
        decreases v.len() - i,
    {
        push_char(s, v[i]);
        i = i + 1;
        assert(s@ =~= start + t@.take(i as int));
    }
    assert(t@.take(v.len() as int) =~= t@);
}

/// Whether `a` and `b` hold the same characters.
pub fn same_text(a: &str, b: &str) -> (r: bool)
    ensures
        r == (a@ == b@),
{
    let x = chars_of(a);
    let y = chars_of(b);
    if x.len() != y.len() {
        return false;
    }
    let mut i: usize = 0;
    while i < x.len()
        invariant
            x@ == a@,
            y@ == b@,
            x.len() == y.len(),
            i <= x.len(),
            forall|j: int| 0 <= j < i ==> x@[j] == y@[j],
        decreases x.len() - i,
    {
        if x[i] != y[i] {
            return false;
        }
        i = i + 1;
    }
    assert(a@ =~= b@);
    true
}

/// `c` with an ASCII capital letter mapped to its small letter; every other
/// character unchanged (`char::to_ascii_lowercase`).
pub open spec fn ascii_lower(c: char) -> char {
    if 'A' <= c && c <= 'Z' {
        ((c as u32) + 32) as char
    } else {
        c
    }
}

/// Whether two texts match when ASCII letters are compared without regard to
/// case (`str::eq_ignore_ascii_case`).
pub open spec fn same_ignoring_ascii_case(a: Seq<char>, b: Seq<char>) -> bool {
    &&& a.len() == b.len()
    &&& forall|i: int| 0 <= i < a.len() ==> ascii_lower(#[trigger] a[i]) == ascii_lower(b[i])
}

/// Executable `ascii_lower`.
pub fn to_ascii_lower(c: char) -> (r: char)
    ensures
        r == ascii_lower(c),
{
    if 'A' <= c && c <= 'Z' {
        let code: u8 = c as u8;
        (code + 32) as char
    } else {
        c
    }
}

/// Whether `a` and `b` are equal up to the case of ASCII letters.
pub fn eq_ignore_ascii_case(a: &str, b: &str) -> (r: bool)
    ensures
        r == same_ignoring_ascii_case(a@, b@),
{
    let x = chars_of(a);
    let y = chars_of(b);
    if x.len() != y.len() {
        return false;
    }
    let mut i: usize = 0;
    while i < x.len()
        invariant
            x@ == a@,
            y@ == b@,
            x.len() == y.len(),
            i <= x.len(),
            forall|j: int| 0 <= j < i ==> ascii_lower(#[trigger] x@[j]) == ascii_lower(y@[j]),
        decreases x.len() - i,
    {
        if to_ascii_lower(x[i]) != to_ascii_lower(y[i]) {
            return false;
        }
        i = i + 1;
    }
    true
}

/// Number of leading characters of `s` that satisfy `p`.
pub open spec fn lead_len(s: Seq<char>, p: spec_fn(char) -> bool) -> nat
    decreases s.len(),
{
    if s.len() > 0 && p(s[0]) {
        1 + lead_len(s.drop_first(), p)
    } else {
        0
    }
}

/// Number of trailing characters of `s` that satisfy `p`.
pub open spec fn trail_len(s: Seq<char>, p: spec_fn(char) -> bool) -> nat
    decreases s.len(),
{
    if s.len() > 0 && p(s.last()) {
        1 + trail_len(s.drop_last(), p)
    } else {
        0
    }
}

/// `s` without its leading and trailing characters that satisfy `p`
/// (`str::trim_matches` with a character predicate).
pub open spec fn strip_ends(s: Seq<char>, p: spec_fn(char) -> bool) -> Seq<char> {
    if lead_len(s, p) == s.len() {
        Seq::empty()
    } else {
        s.subrange(lead_len(s, p) as int, s.len() - trail_len(s, p))
    }
}

/// `s` without leading and trailing Unicode whitespace (`str::trim`).
pub open spec fn trim_ws(s: Seq<char>) -> Seq<char> {
    strip_ends(s, |c: char| white_space(c))
}

pub proof fn lemma_lead_len(s: Seq<char>, p: spec_fn(char) -> bool, i: int)
    requires
        0 <= i <= s.len(),
        forall|j: int| 0 <= j < i ==> p(#[trigger] s[j]),
        i == s.len() || !p(s[i]),
    ensures
        lead_len(s, p) == i,
    decreases i,
{
    if i > 0 {
        assert forall|j: int| 0 <= j < i - 1 implies p(#[trigger] s.drop_first()[j]) by {
            assert(s.drop_first()[j] == s[j + 1]);
        }
        lemma_lead_len(s.drop_first(), p, i - 1);
    }
}

pub proof fn lemma_trail_len(s: Seq<char>, p: spec_fn(char) -> bool, k: int)
    requires
        0 <= k <= s.len(),
        forall|j: int| s.len() - k <= j < s.len() ==> p(#[trigger] s[j]),
        k == s.len() || !p(s[s.len() - k - 1]),
    ensures
        trail_len(s, p) == k,
    decreases k,
{
    if k > 0 {
        let t = s.drop_last();
        assert forall|j: int| t.len() - (k - 1) <= j < t.len() implies p(#[trigger] t[j]) by {
            assert(t[j] == s[j]);
        }
        if k - 1 < t.len() {
            assert(t[t.len() - (k - 1) - 1] == s[s.len() - k - 1]);
        }
        lemma_trail_len(t, p, k - 1);
    }
}

/// Bounds `(from, to)` of `v` with leading and trailing whitespace removed.
fn whitespace_bounds(v: &Vec<char>) -> (r: (usize, usize))
    ensures
        r.0 <= r.1 <= v.len(),
        v@.subrange(r.0 as int, r.1 as int) == trim_ws(v@),
{
    let ghost p = |c: char| white_space(c);
    let n = v.len();
    let mut i: usize = 0;
    while i < n && is_whitespace(v[i])
        invariant
            n == v.len(),
            i <= n,
            forall|j: int| 0 <= j < i ==> white_space(#[trigger] v@[j]),
        decreases n - i,
    {
        i = i + 1;
    }
    proof {
        assert forall|j: int| 0 <= j < i implies p(#[trigger] v@[j]) by {}
        lemma_lead_len(v@, p, i as int);
    }
    if i == n {
        assert(v@.subrange(n as int, n as int) =~= Seq::<char>::empty());
        return (n, n);
    }
    let mut k: usize = 0;
    while k < n && is_whitespace(v[n - 1 - k])
        invariant
            n == v.len(),
            k <= n,
            forall|j: int| n - k <= j < n ==> white_space(#[trigger] v@[j]),
        decreases n - k,
    {
        k = k + 1;
    }
    proof {
        assert forall|j: int| n - k <= j < n implies p(#[trigger] v@[j]) by {}
        lemma_trail_len(v@, p, k as int);
    }
    (i, n - k)
}

/// Copies `v[a..b]` into a new vector.
pub fn copy_range(v: &Vec<char>, a: usize, b: usize) -> (r: Vec<char>)
    requires
        a <= b <= v.len(),
    ensures
        r@ == v@.subrange(a as int, b as int),
{
    let mut r: Vec<char> = Vec::new();
    let mut i = a;
    while i < b
        invariant
            a <= i <= b <= v.len(),
            r@ == v@.subrange(a as int, i as int),
        decreases b - i,
    {
        r.push(v[i]);
        i = i + 1;
        assert(r@ =~= v@.subrange(a as int, i as int));
    }
    r
}

/// `v` with leading and trailing whitespace removed (`str::trim`).
pub fn trim(v: &Vec<char>) -> (r: Vec<char>)
    ensures
        r@ == trim_ws(v@),
{
    let (a, b) = whitespace_bounds(v);
    copy_range(v, a, b)
}

/// `v` without leading and trailing occurrences of `c`
/// (`str::trim_matches` with a single character).
pub fn trim_char(v: &Vec<char>, c: char) -> (r: Vec<char>)
    ensures
        r@ == strip_ends(v@, |x: char| x == c),
{
    let ghost p = |x: char| x == c;
    let n = v.len();
    let mut i: usize = 0;
    while i < n && v[i] == c
        invariant
            n == v.len(),
            i <= n,
            forall|j: int| 0 <= j < i ==> #[trigger] v@[j] == c,
        decreases n - i,
    {
        i = i + 1;
    }
    proof {
        assert forall|j: int| 0 <= j < i implies p(#[trigger] v@[j]) by {}
        lemma_lead_len(v@, p, i as int);
    }
    if i == n {
        return Vec::new();
    }
    let mut k: usize = 0;
    while k < n && v[n - 1 - k] == c
        invariant
            n == v.len(),
            k <= n,
            forall|j: int| n - k <= j < n ==> #[trigger] v@[j] == c,
        decreases n - k,
    {
        k = k + 1;
    }
    proof {
        assert forall|j: int| n - k <= j < n implies p(#[trigger] v@[j]) by {}
        lemma_trail_len(v@, p, k as int);
    }
    copy_range(v, i, n - k)
}

/// Index of the last `c` in `s`, if any.
pub open spec fn last_index(s: Seq<char>, c: char) -> Option<int>
    decreases s.len(),
{
    if s.len() == 0 {
        None
    } else if s.last() == c {
        Some(s.len() - 1)
    } else {
        last_index(s.drop_last(), c)
    }
}

pub proof fn lemma_last_index(s: Seq<char>, c: char, k: int)
    requires
        -1 <= k < s.len(),
        forall|j: int| k < j < s.len() ==> #[trigger] s[j] != c,
        k == -1 || s[k] == c,
    ensures
        last_index(s, c) == (if k == -1 { None } else { Some(k) }),
    decreases s.len(),
{
    if s.len() > 0 && s.len() - 1 != k {
        let t = s.drop_last();
        assert forall|j: int| k < j < t.len() implies #[trigger] t[j] != c by {
            assert(t[j] == s[j]);
        }
        lemma_last_index(t, c, k);
    }
}

pub proof fn lemma_last_index_range(s: Seq<char>, c: char)
    ensures
        last_index(s, c) matches Some(k) ==> 0 <= k < s.len() && s[k] == c,
    decreases s.len(),
{
    if s.len() > 0 && s.last() != c {
        lemma_last_index_range(s.drop_last(), c);
    }
}

/// Where the extension of a file name begins: the index of its last `.`,
/// unless that dot opens the name or the name is `..`.
pub open spec fn extension_dot(name: Seq<char>) -> Option<int> {
    if name == seq!['.', '.'] {
        None
    } else {
        match last_index(name, '.') {
            Some(k) => if k > 0 { Some(k) } else { None },
            None => None,
        }
    }
}

/// The name without its extension (`Path::file_stem` of a file name).
pub open spec fn file_stem(name: Seq<char>) -> Seq<char> {
    match extension_dot(name) {
        Some(k) => name.take(k),
        None => name,
    }
}

/// The extension of a file name, without its dot (`Path::extension`).
pub open spec fn file_extension(name: Seq<char>) -> Option<Seq<char>> {
    match extension_dot(name) {
        Some(k) => Some(name.skip(k + 1)),
        None => None,
    }
}

/// Executable `extension_dot`.
pub fn find_extension_dot(v: &Vec<char>) -> (r: Option<usize>)
    ensures
        match r {
            Some(k) => extension_dot(v@) == Some(k as int) && k < v.len(),
            None => extension_dot(v@) is None,
        },
{
    let n = v.len();
    if n == 2 && v[0] == '.' && v[1] == '.' {
        assert(v@ =~= seq!['.', '.']);
        return None;
    }
    assert(v@ != seq!['.', '.']);
    let mut k: usize = n;
    while k > 0
        invariant
            k <= n == v.len(),
            v@ != seq!['.', '.'],
            forall|j: int| k <= j < n ==> #[trigger] v@[j] != '.',
        decreases k,
    {
        if v[k - 1] == '.' {
            proof {
                lemma_last_index(v@, '.', k - 1);
            }
            if k - 1 > 0 {
                return Some(k - 1);
            } else {
                return None;
            }
        }
        k = k - 1;
    }
    proof {
        lemma_last_index(v@, '.', -1);
    }
    None
}

/// The stem of the file name `name`.
pub fn stem_of(name: &Vec<char>) -> (r: Vec<char>)
    ensures
        r@ == file_stem(name@),
{
    match find_extension_dot(name) {
        Some(k) => copy_range(name, 0, k),
        None => {
            let r = copy_range(name, 0, name.len());
            assert(name@.subrange(0, name@.len() as int) =~= name@);
            r
        },
    }
}

/// The extension of the file name `name`.
pub fn extension_of(name: &Vec<char>) -> (r: Option<Vec<char>>)
    ensures
        match r {
            Some(e) => file_extension(name@) == Some(e@),
            None => file_extension(name@) is None,
        },
{
    match find_extension_dot(name) {
        Some(k) => {
            let e = copy_range(name, k + 1, name.len());
            assert(name@.skip(k + 1) =~= name@.subrange(k + 1, name@.len() as int));
            Some(e)
        },
        None => None,
    }
}

} // verus!
