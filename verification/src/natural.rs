//! Natural ordering of names: runs of ASCII digits compare by their numeric
//! value, other runs by their characters, so `chapter2` comes before
//! `chapter10`.
use vstd::prelude::*;
use std::cmp::Ordering;
use crate::text::{chars_of, string_of, string_of_range};

verus! {

/// A run of a name: a maximal run of ASCII digits, read as a number, or a
/// maximal run of other characters.
#[derive(Debug, PartialEq, Eq)]
pub enum NaturalPart {
    Text(String),
    Number(u64),
}

/// What a `NaturalPart` holds, as plain values.
pub enum PartValue {
    Text(Seq<char>),
    Number(u64),
}

impl View for NaturalPart {
    type V = PartValue;

    open spec fn view(&self) -> PartValue {
        match self {
            NaturalPart::Text(s) => PartValue::Text(s@),
            NaturalPart::Number(n) => PartValue::Number(*n),
        }
    }
}

/// The plain values held by a list of parts.
pub open spec fn parts_view(parts: Seq<NaturalPart>) -> Seq<PartValue> {
    parts.map_values(|p: NaturalPart| p@)
}

/// Whether `c` is one of the ASCII digits `0`..`9` (`char::is_ascii_digit`).
pub open spec fn is_digit(c: char) -> bool {
    '0' <= c && c <= '9'
}

/// The value of the ASCII digit `c`.
pub open spec fn digit_value(c: char) -> nat {
    ((c as u32) - ('0' as u32)) as nat
}

/// The number written by the ASCII digits `s` in decimal.
pub open spec fn digits_value(s: Seq<char>) -> nat
    decreases s.len(),
{
    if s.len() == 0 {
        0
    } else {
        digits_value(s.drop_last()) * 10 + digit_value(s.last())
    }
}

/// Whether every character of `s` is an ASCII digit.
pub open spec fn all_digits(s: Seq<char>) -> bool {
    forall|i: int| 0 <= i < s.len() ==> is_digit(#[trigger] s[i])
}

/// `s` without one leading `+`.
pub open spec fn without_plus(s: Seq<char>) -> Seq<char> {
    if s.len() > 0 && s[0] == '+' {
        s.drop_first()
    } else {
        s
    }
}

/// What `str::parse::<u64>` accepts: an optional `+` followed by one or more
/// ASCII digits whose value fits in a `u64`; `None` for anything else.
pub open spec fn parsed_u64(s: Seq<char>) -> Option<u64> {
    let d = without_plus(s);
    if d.len() > 0 && all_digits(d) && digits_value(d) <= u64::MAX {
        Some(digits_value(d) as u64)
    } else {
        None
    }
}

/// Length of the run that opens `s`: its leading characters that are all
/// digits or all non-digits, like its first one.
pub open spec fn run_len(s: Seq<char>) -> nat
    decreases s.len(),
{
    if s.len() <= 1 {
        s.len()
    } else if is_digit(s[1]) == is_digit(s[0]) {
        1 + run_len(s.drop_first())
    } else {
        1
    }
}

/// The part made of one run: a number for a run of digits (0 when it does
/// not fit in a `u64`), else the text itself.
pub open spec fn part_of_run(run: Seq<char>, is_number: bool) -> PartValue {
    if is_number {
        PartValue::Number(
            match parsed_u64(run) {
                Some(n) => n,
                None => 0,
            },
        )
    } else {
        PartValue::Text(run)
    }
}

pub proof fn lemma_run_len_bounds(s: Seq<char>)
    ensures
        s.len() > 0 ==> 1 <= run_len(s) <= s.len(),
    decreases s.len(),
{
    if s.len() > 1 && is_digit(s[1]) == is_digit(s[0]) {
        lemma_run_len_bounds(s.drop_first());
    }
}

/// The parts of `s`: its runs of digits and of other characters, in order.
pub open spec fn natural_parts_of(s: Seq<char>) -> Seq<PartValue>
    decreases s.len(),
{
    if s.len() == 0 {
        Seq::empty()
    } else {
        proof {
            lemma_run_len_bounds(s);
        }
        let n = run_len(s) as int;
        seq![part_of_run(s.take(n), is_digit(s[0]))] + natural_parts_of(s.skip(n))
    }
}

proof fn lemma_run_len(s: Seq<char>, k: int)
    requires
        1 <= k <= s.len(),
        forall|j: int| 0 <= j < k ==> is_digit(#[trigger] s[j]) == is_digit(s[0]),
        k == s.len() || is_digit(s[k]) != is_digit(s[0]),
    ensures
        run_len(s) == k,
    decreases k,
{
    if k > 1 {
        let d = s.drop_first();
        assert(is_digit(s[1]) == is_digit(s[0]));
        assert forall|j: int| 0 <= j < k - 1 implies is_digit(#[trigger] d[j]) == is_digit(d[0]) by {
            assert(d[j] == s[j + 1]);
            assert(is_digit(s[j + 1]) == is_digit(s[0]));
        }
        lemma_run_len(d, k - 1);
    } else if s.len() > 1 {
        assert(is_digit(s[1]) != is_digit(s[0]));
    }
}

/// Executable `is_digit`.
pub fn is_ascii_digit(c: char) -> (r: bool)
    ensures
        r == is_digit(c),
{
    '0' <= c && c <= '9'
}

proof fn lemma_digits_value_step(s: Seq<char>, i: int)
    requires
        0 <= i < s.len(),
    ensures
        digits_value(s.take(i + 1)) == digits_value(s.take(i)) * 10 + digit_value(s[i]),
        digits_value(s.take(i + 1)) >= digits_value(s.take(i)),
{
    assert(s.take(i + 1).drop_last() =~= s.take(i));
}

/// The value of the digits `v[a..b]`, or `None` when it exceeds `u64::MAX`.
fn digits_to_u64(v: &Vec<char>, a: usize, b: usize) -> (r: Option<u64>)
    requires
        a <= b <= v.len(),
        forall|i: int| a <= i < b ==> is_digit(#[trigger] v@[i]),
    ensures
        ({
            let d = digits_value(v@.subrange(a as int, b as int));
            match r {
                Some(x) => d <= u64::MAX && x == d,
                None => d > u64::MAX,
            }
        }),
{
    let ghost s = v@.subrange(a as int, b as int);
    let mut acc: Option<u64> = Some(0);
    let mut i = a;
    assert(s.take(0) =~= Seq::<char>::empty());
    while i < b
        invariant
            a <= i <= b <= v.len(),
            s == v@.subrange(a as int, b as int),
            forall|j: int| a <= j < b ==> is_digit(#[trigger] v@[j]),
            ({
                let d = digits_value(s.take(i - a));
                match acc {
                    Some(x) => d <= u64::MAX && x == d,
                    None => d > u64::MAX,
                }
            }),
        decreases b - i,
    {
        proof {
            lemma_digits_value_step(s, i - a);
            assert(s[i - a] == v@[i as int]);
        }
        let c = v[i];
        let code: u32 = c as u32;
        let zero: u32 = '0' as u32;
        let dig: u64 = (code - zero) as u64;
        acc = match acc {
            Some(x) => match x.checked_mul(10) {
                Some(y) => y.checked_add(dig),
                None => None,
            },
            None => None,
        };
        i = i + 1;
    }
    assert(s.take(b - a) =~= s);
    acc
}

/// `parsed_u64` of `value`, computed.
fn parse_u64(value: &str) -> (r: Option<u64>)
    ensures
        r == parsed_u64(value@),
{
    let v = chars_of(value);
    let start: usize = if v.len() > 0 && v[0] == '+' {
        1
    } else {
        0
    };
    let ghost d = without_plus(value@);
    assert(d =~= v@.subrange(start as int, v.len() as int));
    if start == v.len() {
        return None;
    }
    let mut i = start;
    while i < v.len()
        invariant
            start <= i <= v.len(),
            d == v@.subrange(start as int, v.len() as int),
            v@ == value@,
            d == without_plus(value@),
            forall|j: int| start <= j < i ==> is_digit(#[trigger] v@[j]),
        decreases v.len() - i,
    {
        if !is_ascii_digit(v[i]) {
            assert(d[i - start] == v@[i as int]);
            assert(!is_digit(d[i - start]));
            return None;
        }
        i = i + 1;
    }
    assert forall|j: int| 0 <= j < d.len() implies is_digit(#[trigger] d[j]) by {
        assert(d[j] == v@[j + start]);
    }
    match digits_to_u64(&v, start, v.len()) {
        Some(x) => Some(x),
        None => None,
    }
}

/// The part for one run of a name: `Number` of its value when `is_number`
/// (0 when it does not parse as a `u64`), else `Text` of the run.
pub fn to_natural_part(value: &str, is_number: bool) -> (r: NaturalPart)
    ensures
        r@ == part_of_run(value@, is_number),
{
    if is_number {
        match parse_u64(value) {
            Some(n) => NaturalPart::Number(n),
            None => NaturalPart::Number(0),
        }
    } else {
        NaturalPart::Text(string_of(&chars_of(value)))
    }
}

/// The runs of `value` as parts, in order.
pub fn natural_parts(value: &str) -> (r: Vec<NaturalPart>)
    ensures
        parts_view(r@) == natural_parts_of(value@),
{
    let v = chars_of(value);
    let n = v.len();
    let mut parts: Vec<NaturalPart> = Vec::new();
    let mut start: usize = 0;
    assert(v@.skip(0) =~= v@);
    while start < n
        invariant
            n == v.len(),
            v@ == value@,
            start <= n,
            parts_view(parts@) + natural_parts_of(v@.skip(start as int)) == natural_parts_of(v@),
        decreases n - start,
    {
        let number = is_ascii_digit(v[start]);
        let mut j = start + 1;
        while j < n && is_ascii_digit(v[j]) == number
            invariant
                start < j <= n == v.len(),
                number == is_digit(v@[start as int]),
                forall|k: int| start <= k < j ==> is_digit(#[trigger] v@[k]) == number,
            decreases n - j,
        {
            j = j + 1;
        }
        let ghost t = v@.skip(start as int);
        proof {
            assert forall|k: int| 0 <= k < j - start implies is_digit(#[trigger] t[k]) == is_digit(t[0]) by {
                assert(t[k] == v@[k + start]);
            }
            if j < n {
                assert(t[j - start] == v@[j as int]);
            }
            lemma_run_len(t, j - start);
            assert(t.take(j - start) =~= v@.subrange(start as int, j as int));
            assert(t.skip(j - start) =~= v@.skip(j as int));
        }
        let run = string_of_range(&v, start, j);
        let part = to_natural_part(run.as_str(), number);
        let ghost before = parts_view(parts@);
        parts.push(part);
        proof {
            assert(parts_view(parts@) =~= before.push(part@));
            assert(natural_parts_of(t) == seq![part@] + natural_parts_of(v@.skip(j as int)));
            assert(parts_view(parts@) + natural_parts_of(v@.skip(j as int)) =~= before
                + natural_parts_of(t));
        }
        start = j;
    }
    assert(v@.skip(n as int) =~= Seq::<char>::empty());
    assert(parts_view(parts@) + Seq::<PartValue>::empty() =~= parts_view(parts@));
    parts
}

/// The ASCII digit for `d` (`0` to `9`).
pub open spec fn digit_char(d: nat) -> char {
    (('0' as u32) + d) as char
}

/// `n` written in decimal, without leading zeros (`0` for zero), as
/// `u64::to_string` writes it.
pub open spec fn decimal(n: nat) -> Seq<char>
    decreases n,
{
    if n < 10 {
        seq![digit_char(n)]
    } else {
        decimal(n / 10).push(digit_char(n % 10))
    }
}

/// The text a part stands for: the text itself, or the number in decimal.
pub open spec fn part_text(p: PartValue) -> Seq<char> {
    match p {
        PartValue::Text(t) => t,
        PartValue::Number(n) => decimal(n as nat),
    }
}

/// The texts of the parts, one after the other.
pub open spec fn joined_parts(parts: Seq<PartValue>) -> Seq<char>
    decreases parts.len(),
{
    if parts.len() == 0 {
        Seq::empty()
    } else {
        part_text(parts[0]) + joined_parts(parts.drop_first())
    }
}

/// Whether a run of digits is written as `decimal` writes its value, and that
/// value fits in a `u64`.
pub open spec fn canonical_number(run: Seq<char>) -> bool {
    (run.len() == 1 || run[0] != '0') && digits_value(run) <= u64::MAX
}

/// Whether every maximal run of digits in `s` is a canonical number.
pub open spec fn canonical_digit_runs(s: Seq<char>) -> bool
    decreases s.len(),
{
    if s.len() == 0 {
        true
    } else {
        proof {
            lemma_run_len_bounds(s);
        }
        let n = run_len(s) as int;
        (!is_digit(s[0]) || canonical_number(s.take(n))) && canonical_digit_runs(s.skip(n))
    }
}

proof fn lemma_run_same_kind(s: Seq<char>)
    requires
        s.len() > 0,
    ensures
        1 <= run_len(s) <= s.len(),
        forall|j: int| 0 <= j < run_len(s) ==> is_digit(#[trigger] s[j]) == is_digit(s[0]),
    decreases s.len(),
{
    if s.len() > 1 && is_digit(s[1]) == is_digit(s[0]) {
        let d = s.drop_first();
        lemma_run_same_kind(d);
        assert forall|j: int| 0 <= j < run_len(s) implies is_digit(#[trigger] s[j]) == is_digit(
            s[0],
        ) by {
            if j > 0 {
                assert(s[j] == d[j - 1]);
            }
        }
    }
}

proof fn lemma_digit_char(c: char)
    requires
        is_digit(c),
    ensures
        digit_value(c) < 10,
        digit_char(digit_value(c)) == c,
{
}

proof fn lemma_digits_positive(d: Seq<char>)
    requires
        d.len() > 0,
        all_digits(d),
        d[0] != '0',
    ensures
        digits_value(d) > 0,
    decreases d.len(),
{
    if d.len() > 1 {
        let e = d.drop_last();
        assert(all_digits(e)) by {
            assert forall|i: int| 0 <= i < e.len() implies is_digit(#[trigger] e[i]) by {
                assert(e[i] == d[i]);
            }
        }
        lemma_digits_positive(e);
    }
}

proof fn lemma_decimal_of_digits(d: Seq<char>)
    requires
        d.len() > 0,
        all_digits(d),
        d.len() == 1 || d[0] != '0',
    ensures
        decimal(digits_value(d)) == d,
    decreases d.len(),
{
    let last = d.last();
    assert(is_digit(last));
    lemma_digit_char(last);
    if d.len() == 1 {
        assert(d.drop_last() =~= Seq::<char>::empty());
        assert(digits_value(d.drop_last()) == 0);
        assert(digits_value(d) == digit_value(last));
        assert(d =~= seq![last]);
    } else {
        let e = d.drop_last();
        assert(all_digits(e)) by {
            assert forall|i: int| 0 <= i < e.len() implies is_digit(#[trigger] e[i]) by {
                assert(e[i] == d[i]);
            }
        }
        lemma_digits_positive(e);
        lemma_decimal_of_digits(e);
        let a = digits_value(e);
        let b = digit_value(last);
        let v = digits_value(d);
        assert(v == a * 10 + b);
        assert(v / 10 == a && v % 10 == b && v >= 10) by (nonlinear_arith)
            requires
                v == a * 10 + b,
                b < 10,
                a > 0,
        ;
        assert(decimal(v) == decimal(a).push(digit_char(b)));
        assert(d =~= e.push(last));
    }
}

/// Law: putting the parts of a name back together, each number written in
/// decimal, gives the name again, provided every run of digits in it is
/// written as its value is (`0`, or no leading zero) and fits in a `u64`.
pub proof fn natural_parts_rejoin(s: Seq<char>)
    requires
        canonical_digit_runs(s),
    ensures
        joined_parts(natural_parts_of(s)) == s,
    decreases s.len(),
{
    if s.len() > 0 {
        lemma_run_same_kind(s);
        let n = run_len(s) as int;
        let run = s.take(n);
        let rest = s.skip(n);
        natural_parts_rejoin(rest);
        let parts = natural_parts_of(s);
        let part = part_of_run(run, is_digit(s[0]));
        assert(parts == seq![part] + natural_parts_of(rest));
        assert(parts.drop_first() =~= natural_parts_of(rest));
        if is_digit(s[0]) {
            assert(all_digits(run)) by {
                assert forall|i: int| 0 <= i < run.len() implies is_digit(#[trigger] run[i]) by {
                    assert(run[i] == s[i]);
                }
            }
            assert(without_plus(run) == run);
            assert(parsed_u64(run) == Some(digits_value(run) as u64));
            lemma_decimal_of_digits(run);
            assert(part_text(part) == run);
        }
        assert(s =~= run + rest);
    }
}

/// `s` from index `i` on.
pub open spec fn chars_from(s: Seq<char>, i: usize) -> Seq<char> {
    s.skip(i as int)
}

/// `s` from index `i` on.
pub open spec fn parts_from(s: Seq<PartValue>, i: usize) -> Seq<PartValue> {
    s.skip(i as int)
}

/// `s` after index `i`.
pub open spec fn chars_after(s: Seq<char>, i: usize) -> Seq<char> {
    s.skip(i as int + 1)
}

/// `s` after index `i`.
pub open spec fn parts_after(s: Seq<PartValue>, i: usize) -> Seq<PartValue> {
    s.skip(i as int + 1)
}

/// `o` seen from the other side: `Less` and `Greater` swapped.
pub open spec fn flip(o: Ordering) -> Ordering {
    match o {
        Ordering::Less => Ordering::Greater,
        Ordering::Equal => Ordering::Equal,
        Ordering::Greater => Ordering::Less,
    }
}

/// Lexicographic order of two texts by character (the order of `str` and
/// `String`: by bytes of UTF-8, which orders characters as their scalar
/// values do); a proper prefix comes first.
pub open spec fn text_order(a: Seq<char>, b: Seq<char>) -> Ordering
    decreases a.len(),
{
    if a.len() == 0 {
        if b.len() == 0 {
            Ordering::Equal
        } else {
            Ordering::Less
        }
    } else if b.len() == 0 {
        Ordering::Greater
    } else if a[0] < b[0] {
        Ordering::Less
    } else if a[0] > b[0] {
        Ordering::Greater
    } else {
        text_order(a.drop_first(), b.drop_first())
    }
}

/// Order of two numbers.
pub open spec fn number_order(x: u64, y: u64) -> Ordering {
    if x < y {
        Ordering::Less
    } else if x == y {
        Ordering::Equal
    } else {
        Ordering::Greater
    }
}

/// Order of two parts: numbers by value, texts by characters, and any
/// number before any text.
pub open spec fn part_order(a: PartValue, b: PartValue) -> Ordering {
    match (a, b) {
        (PartValue::Number(x), PartValue::Number(y)) => number_order(x, y),
        (PartValue::Text(x), PartValue::Text(y)) => text_order(x, y),
        (PartValue::Number(_), PartValue::Text(_)) => Ordering::Less,
        (PartValue::Text(_), PartValue::Number(_)) => Ordering::Greater,
    }
}

/// Lexicographic order of two lists of parts; when one is a prefix of the
/// other, the shorter comes first.
pub open spec fn parts_order(p: Seq<PartValue>, q: Seq<PartValue>) -> Ordering
    decreases p.len(),
{
    if p.len() == 0 || q.len() == 0 {
        if p.len() < q.len() {
            Ordering::Less
        } else if p.len() == q.len() {
            Ordering::Equal
        } else {
            Ordering::Greater
        }
    } else if part_order(p[0], q[0]) != Ordering::Equal {
        part_order(p[0], q[0])
    } else {
        parts_order(p.drop_first(), q.drop_first())
    }
}

/// The natural order of two names: the order of their lists of parts.
pub open spec fn natural_order(a: Seq<char>, b: Seq<char>) -> Ordering {
    parts_order(natural_parts_of(a), natural_parts_of(b))
}

proof fn lemma_text_equal(a: Seq<char>, b: Seq<char>)
    ensures
        (text_order(a, b) == Ordering::Equal) == (a == b),
        text_order(b, a) == flip(text_order(a, b)),
    decreases a.len(),
{
    if a.len() > 0 && b.len() > 0 {
        lemma_text_equal(a.drop_first(), b.drop_first());
        if a[0] == b[0] && a.drop_first() == b.drop_first() {
            assert(a =~= seq![a[0]] + a.drop_first());
            assert(b =~= seq![b[0]] + b.drop_first());
        }
    } else if a.len() == 0 && b.len() == 0 {
        assert(a =~= b);
    }
}

proof fn lemma_text_less(a: Seq<char>, b: Seq<char>, c: Seq<char>)
    requires
        text_order(a, b) == Ordering::Less,
        text_order(b, c) == Ordering::Less,
    ensures
        text_order(a, c) == Ordering::Less,
    decreases a.len(),
{
    if a.len() > 0 && b.len() > 0 && c.len() > 0 && a[0] == b[0] && b[0] == c[0] {
        lemma_text_less(a.drop_first(), b.drop_first(), c.drop_first());
    }
}

proof fn lemma_part_equal(a: PartValue, b: PartValue)
    ensures
        (part_order(a, b) == Ordering::Equal) == (a == b),
        part_order(b, a) == flip(part_order(a, b)),
{
    match (a, b) {
        (PartValue::Text(x), PartValue::Text(y)) => lemma_text_equal(x, y),
        _ => {},
    }
}

proof fn lemma_part_less(a: PartValue, b: PartValue, c: PartValue)
    requires
        part_order(a, b) == Ordering::Less,
        part_order(b, c) == Ordering::Less,
    ensures
        part_order(a, c) == Ordering::Less,
{
    match (a, b, c) {
        (PartValue::Text(x), PartValue::Text(y), PartValue::Text(z)) => lemma_text_less(x, y, z),
        _ => {},
    }
}

proof fn lemma_parts_equal(p: Seq<PartValue>, q: Seq<PartValue>)
    ensures
        (parts_order(p, q) == Ordering::Equal) == (p == q),
        parts_order(q, p) == flip(parts_order(p, q)),
    decreases p.len(),
{
    if p.len() > 0 && q.len() > 0 {
        lemma_part_equal(p[0], q[0]);
        lemma_parts_equal(p.drop_first(), q.drop_first());
        if p[0] == q[0] && p.drop_first() == q.drop_first() {
            assert(p =~= seq![p[0]] + p.drop_first());
            assert(q =~= seq![q[0]] + q.drop_first());
        }
    } else if p.len() == 0 && q.len() == 0 {
        assert(p =~= q);
    }
}

proof fn lemma_parts_less(p: Seq<PartValue>, q: Seq<PartValue>, r: Seq<PartValue>)
    requires
        parts_order(p, q) == Ordering::Less,
        parts_order(q, r) == Ordering::Less,
    ensures
        parts_order(p, r) == Ordering::Less,
    decreases p.len(),
{
    if p.len() > 0 && q.len() > 0 && r.len() > 0 {
        lemma_part_equal(p[0], q[0]);
        lemma_part_equal(q[0], r[0]);
        lemma_part_equal(p[0], r[0]);
        if part_order(p[0], q[0]) == Ordering::Less && part_order(q[0], r[0]) == Ordering::Less {
            lemma_part_less(p[0], q[0], r[0]);
        } else if part_order(p[0], q[0]) == Ordering::Equal && part_order(q[0], r[0])
            == Ordering::Equal {
            lemma_parts_less(p.drop_first(), q.drop_first(), r.drop_first());
        }
    }
}

/// Law: every name is in natural order equal to itself.
pub proof fn natural_order_reflexive(a: Seq<char>)
    ensures
        natural_order(a, a) == Ordering::Equal,
{
    lemma_parts_equal(natural_parts_of(a), natural_parts_of(a));
}

/// Law: comparing the other way round reverses the natural order, and two
/// names are ordered equal exactly when they split into the same parts.
pub proof fn natural_order_antisymmetric(a: Seq<char>, b: Seq<char>)
    ensures
        natural_order(b, a) == flip(natural_order(a, b)),
        (natural_order(a, b) == Ordering::Equal) == (natural_parts_of(a) == natural_parts_of(b)),
{
    lemma_parts_equal(natural_parts_of(a), natural_parts_of(b));
}

/// Law: the natural order is transitive: `a <= b <= c` gives `a <= c`, and
/// strictly so when either step is strict.
pub proof fn natural_order_transitive(a: Seq<char>, b: Seq<char>, c: Seq<char>)
    requires
        natural_order(a, b) != Ordering::Greater,
        natural_order(b, c) != Ordering::Greater,
    ensures
        natural_order(a, c) != Ordering::Greater,
        natural_order(a, b) == Ordering::Less || natural_order(b, c) == Ordering::Less
            ==> natural_order(a, c) == Ordering::Less,
{
    let (p, q, r) = (natural_parts_of(a), natural_parts_of(b), natural_parts_of(c));
    lemma_parts_equal(p, q);
    lemma_parts_equal(q, r);
    lemma_parts_equal(p, r);
    if natural_order(a, b) == Ordering::Less && natural_order(b, c) == Ordering::Less {
        lemma_parts_less(p, q, r);
    }
}

/// Whether `a` is a proper prefix of `b`.
pub open spec fn is_proper_prefix(a: Seq<char>, b: Seq<char>) -> bool {
    a.len() < b.len() && a == b.take(a.len() as int)
}

/// Whether `a` and `b` agree before index `i` and `a[i]` is the smaller
/// character there.
pub open spec fn first_smaller_at(a: Seq<char>, b: Seq<char>, i: int) -> bool {
    0 <= i < a.len() && i < b.len() && a.take(i) == b.take(i) && a[i] < b[i]
}

/// Whether `s` holds no ASCII digit.
pub open spec fn has_no_digit(s: Seq<char>) -> bool {
    forall|i: int| 0 <= i < s.len() ==> !is_digit(#[trigger] s[i])
}

proof fn lemma_parts_of_text(s: Seq<char>)
    requires
        has_no_digit(s),
    ensures
        natural_parts_of(s) == if s.len() == 0 {
            Seq::<PartValue>::empty()
        } else {
            seq![PartValue::Text(s)]
        },
{
    if s.len() > 0 {
        lemma_run_len(s, s.len() as int);
        assert(s.take(s.len() as int) =~= s);
        assert(s.skip(s.len() as int) =~= Seq::<char>::empty());
        assert(natural_parts_of(s.skip(s.len() as int)) == Seq::<PartValue>::empty());
        assert(natural_parts_of(s) =~= seq![PartValue::Text(s)]);
    }
}

proof fn lemma_prefix_step(a: Seq<char>, b: Seq<char>)
    requires
        a.len() > 0,
        is_proper_prefix(a, b),
    ensures
        a[0] == b[0],
        is_proper_prefix(a.drop_first(), b.drop_first()),
{
    assert(a[0] == b.take(a.len() as int)[0]);
    assert(a.drop_first() =~= b.drop_first().take(a.drop_first().len() as int));
}

proof fn lemma_smaller_step(a: Seq<char>, b: Seq<char>, i: int)
    requires
        i > 0,
        first_smaller_at(a, b, i),
    ensures
        a[0] == b[0],
        first_smaller_at(a.drop_first(), b.drop_first(), i - 1),
{
    assert(a[0] == a.take(i)[0]);
    assert(b[0] == b.take(i)[0]);
    assert(a.drop_first().take(i - 1) =~= a.take(i).drop_first());
    assert(b.drop_first().take(i - 1) =~= b.take(i).drop_first());
}

/// Law: a text comes before every longer text that it starts.
pub proof fn text_order_prefix_first(a: Seq<char>, b: Seq<char>)
    requires
        is_proper_prefix(a, b),
    ensures
        text_order(a, b) == Ordering::Less,
        text_order(b, a) == Ordering::Greater,
    decreases a.len(),
{
    lemma_text_equal(a, b);
    if a.len() > 0 {
        lemma_prefix_step(a, b);
        text_order_prefix_first(a.drop_first(), b.drop_first());
    }
}

/// Law: where two texts first differ, the smaller character decides,
/// whatever their lengths.
pub proof fn text_order_first_difference(a: Seq<char>, b: Seq<char>, i: int)
    requires
        first_smaller_at(a, b, i),
    ensures
        text_order(a, b) == Ordering::Less,
        text_order(b, a) == Ordering::Greater,
    decreases i,
{
    lemma_text_equal(a, b);
    if i > 0 {
        lemma_smaller_step(a, b, i);
        text_order_first_difference(a.drop_first(), b.drop_first(), i - 1);
    }
}

/// Law: two texts are ordered equal exactly when they are the same.
pub proof fn text_order_equal_iff_same(a: Seq<char>, b: Seq<char>)
    ensures
        (text_order(a, b) == Ordering::Equal) == (a == b),
{
    lemma_text_equal(a, b);
}

/// Law: names without digits are in natural order exactly as in the order
/// of their characters.
pub proof fn natural_order_of_texts(a: Seq<char>, b: Seq<char>)
    requires
        has_no_digit(a),
        has_no_digit(b),
    ensures
        natural_order(a, b) == text_order(a, b),
{
    lemma_parts_of_text(a);
    lemma_parts_of_text(b);
    let p = natural_parts_of(a);
    let q = natural_parts_of(b);
    if p.len() > 0 && q.len() > 0 {
        assert(p.drop_first() =~= Seq::<PartValue>::empty());
        assert(q.drop_first() =~= Seq::<PartValue>::empty());
        assert(part_order(p[0], q[0]) == text_order(a, b));
        lemma_text_equal(a, b);
        assert(parts_order(p.drop_first(), q.drop_first()) == Ordering::Equal);
    } else if p.len() == 0 && q.len() == 0 {
        assert(a =~= b);
        lemma_text_equal(a, b);
    } else if p.len() == 0 {
        assert(a.len() == 0 && b.len() > 0);
        assert(text_order(a, b) == Ordering::Less);
        assert(parts_order(p, q) == Ordering::Less);
    } else {
        assert(b.len() == 0 && a.len() > 0);
        assert(text_order(a, b) == Ordering::Greater);
        assert(parts_order(p, q) == Ordering::Greater);
    }
}

/// The order of two texts, character by character.
fn compare_text(a: &String, b: &String) -> (r: Ordering)
    ensures
        r == text_order(a@, b@),
{
    let x = chars_of(a.as_str());
    let y = chars_of(b.as_str());
    let mut i: usize = 0;
    assert(chars_from(x@, 0) =~= x@);
    assert(chars_from(y@, 0) =~= y@);
    while i < x.len() && i < y.len()
        invariant
            x@ == a@,
            y@ == b@,
            i <= x.len(),
            i <= y.len(),
            text_order(chars_from(x@, i), chars_from(y@, i)) == text_order(a@, b@),
        decreases x.len() - i,
    {
        assert(chars_from(x@, i).drop_first() =~= chars_after(x@, i));
        assert(chars_from(y@, i).drop_first() =~= chars_after(y@, i));
        if x[i] < y[i] {
            return Ordering::Less;
        }
        if x[i] > y[i] {
            return Ordering::Greater;
        }
        i = i + 1;
    }
    if i < y.len() {
        Ordering::Less
    } else if i < x.len() {
        Ordering::Greater
    } else {
        Ordering::Equal
    }
}

/// The order of two parts.
fn compare_part(a: &NaturalPart, b: &NaturalPart) -> (r: Ordering)
    ensures
        r == part_order(a@, b@),
{
    match (a, b) {
        (NaturalPart::Number(x), NaturalPart::Number(y)) => {
            if *x < *y {
                Ordering::Less
            } else if *x == *y {
                Ordering::Equal
            } else {
                Ordering::Greater
            }
        },
        (NaturalPart::Text(x), NaturalPart::Text(y)) => compare_text(x, y),
        (NaturalPart::Number(_), NaturalPart::Text(_)) => Ordering::Less,
        (NaturalPart::Text(_), NaturalPart::Number(_)) => Ordering::Greater,
    }
}

/// The natural order of `left` and `right`: their parts compared in turn,
/// numbers by value and texts by characters, a number before a text; when
/// all shared parts are equal, fewer parts come first.
pub fn natural_cmp(left: &str, right: &str) -> (r: Ordering)
    ensures
        r == natural_order(left@, right@),
{
    let left_parts = natural_parts(left);
    let right_parts = natural_parts(right);
    let ghost p = parts_view(left_parts@);
    let ghost q = parts_view(right_parts@);
    let mut i: usize = 0;
    assert(parts_from(p, 0) =~= p);
    assert(parts_from(q, 0) =~= q);
    while i < left_parts.len() && i < right_parts.len()
        invariant
            p == parts_view(left_parts@),
            q == parts_view(right_parts@),
            p == natural_parts_of(left@),
            q == natural_parts_of(right@),
            i <= left_parts.len(),
            i <= right_parts.len(),
            parts_order(parts_from(p, i), parts_from(q, i)) == natural_order(left@, right@),
        decreases left_parts.len() - i,
    {
        assert(parts_from(p, i).drop_first() =~= parts_after(p, i));
        assert(parts_from(q, i).drop_first() =~= parts_after(q, i));
        let o = compare_part(&left_parts[i], &right_parts[i]);
        match o {
            Ordering::Equal => {},
            _ => {
                return o;
            },
        }
        i = i + 1;
    }
    let n = left_parts.len();
    let m = right_parts.len();
    if n < m {
        Ordering::Less
    } else if n == m {
        Ordering::Equal
    } else {
        Ordering::Greater
    }
}

} // verus!
