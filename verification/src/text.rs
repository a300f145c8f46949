//! Character-level text processing: the pieces that name parsing and path
//! building are made of.

use vstd::prelude::*;
use vstd::slice::slice_subrange;
use vstd::string::*;

verus! {

// ── Reading ──────────────────────────────────────────────────────────────────

/// `pat` occurs in `s` at position `at`.
pub open spec fn occurs_at(s: Seq<char>, pat: Seq<char>, at: int) -> bool {
    0 <= at && at + pat.len() <= s.len() && s.subrange(at, at + pat.len()) == pat
}

/// `pat` occurs somewhere in `s`.
pub open spec fn occurs(s: Seq<char>, pat: Seq<char>) -> bool {
    exists|at: int| occurs_at(s, pat, at)
}

pub open spec fn starts(s: Seq<char>, pat: Seq<char>) -> bool {
    occurs_at(s, pat, 0)
}

pub open spec fn ends(s: Seq<char>, pat: Seq<char>) -> bool {
    occurs_at(s, pat, s.len() - pat.len())
}

/// What follows the prefix `pat`.
pub open spec fn after_prefix(s: Seq<char>, pat: Seq<char>) -> Option<Seq<char>> {
    if starts(s, pat) {
        Some(s.skip(pat.len() as int))
    } else {
        None
    }
}

/// What precedes the suffix `pat`.
pub open spec fn before_suffix(s: Seq<char>, pat: Seq<char>) -> Option<Seq<char>> {
    if ends(s, pat) {
        Some(s.take(s.len() - pat.len()))
    } else {
        None
    }
}

/// Position of the first `c`, or the length of `s` if there is none.
pub open spec fn first_index(s: Seq<char>, c: char) -> nat
    decreases s.len(),
{
    if s.len() == 0 || s[0] == c {
        0
    } else {
        1 + first_index(s.drop_first(), c)
    }
}

/// What stands before and behind the first `c`.
pub open spec fn cut(s: Seq<char>, c: char) -> Option<(Seq<char>, Seq<char>)> {
    let at = first_index(s, c) as int;
    if at < s.len() {
        Some((s.take(at), s.skip(at + 1)))
    } else {
        None
    }
}

/// The parts of `s` between the occurrences of `c`.
pub open spec fn parts(s: Seq<char>, c: char) -> Seq<Seq<char>>
    decreases s.len(),
{
    let at = first_index(s, c) as int;
    if 0 <= at < s.len() {
        seq![s.take(at)] + parts(s.skip(at + 1), c)
    } else {
        seq![s]
    }
}

/// First position at which `pat` occurs in `s`, not before `from`.
pub open spec fn first_occurrence(s: Seq<char>, pat: Seq<char>, from: int) -> Option<int>
    decreases s.len() - from,
{
    if from + pat.len() > s.len() {
        None
    } else if occurs_at(s, pat, from) {
        Some(from)
    } else if from < s.len() {
        first_occurrence(s, pat, from + 1)
    } else {
        None
    }
}

pub open spec fn is_digit(c: char) -> bool {
    '0' <= c && c <= '9'
}

pub open spec fn all_digits(s: Seq<char>) -> bool {
    forall|i: int| 0 <= i < s.len() ==> is_digit(#[trigger] s[i])
}

/// The number a string of decimal digits stands for.
pub open spec fn number(s: Seq<char>) -> nat
    decreases s.len(),
{
    if s.len() == 0 {
        0
    } else {
        (number(s.drop_last()) * 10 + (s.last() as nat - '0' as nat)) as nat
    }
}

/// A decimal number: an optional `+`, then one or more digits, with a value
/// that fits in `usize`.
pub open spec fn decimal_value(s: Seq<char>) -> Option<usize> {
    let digits = if s.len() > 0 && s[0] == '+' {
        s.drop_first()
    } else {
        s
    };
    if digits.len() > 0 && all_digits(digits) && number(digits) <= usize::MAX {
        Some(number(digits) as usize)
    } else {
        None
    }
}

/// The characters of a string.
pub fn chars_of(s: &str) -> (v: Vec<char>)
    ensures
        v@ == s@,
{
    let mut v: Vec<char> = Vec::new();
    for c in it: s.chars()
        invariant
            v@ == it.seq().take(it.index() as int),
            it.seq() == s@,
    {
        v.push(c);
    }
    v
}

/// Whether `pat` occurs in `s` at `at`.
pub fn matches_at(s: &[char], pat: &[char], at: usize) -> (b: bool)
    ensures
        b == occurs_at(s@, pat@, at as int),
{
    if at > s.len() || pat.len() > s.len() - at {
        return false;
    }
    let mut i: usize = 0;
    while i < pat.len()
        invariant
            i <= pat.len(),
            at + pat.len() <= s.len(),
            forall|j: int| 0 <= j < i ==> s[at + j] == pat[j],
        decreases pat.len() - i,
    {
        if s[at + i] != pat[i] {
            assert(s@.subrange(at as int, at + pat.len())[i as int] == s[at + i]);
            return false;
        }
        i = i + 1;
    }
    assert(s@.subrange(at as int, at + pat.len()) =~= pat@);
    true
}

/// Whether the characters are those of `text`.
pub fn same_text(s: &[char], text: &str) -> (b: bool)
    ensures
        b == (s@ == text@),
{
    let pat = chars_of(text);
    let b = s.len() == pat.len() && matches_at(s, pat.as_slice(), 0);
    assert(s@.subrange(0, s.len() as int) =~= s@);
    b
}

/// What follows the prefix `pat`, if `s` starts with it.
pub fn strip_prefix<'a>(s: &'a [char], pat: &str) -> (r: Option<&'a [char]>)
    ensures
        r is Some <==> after_prefix(s@, pat@) is Some,
        r matches Some(rest) ==> after_prefix(s@, pat@) == Some(rest@),
{
    let pat = chars_of(pat);
    if matches_at(s, pat.as_slice(), 0) {
        Some(slice_subrange(s, pat.len(), s.len()))
    } else {
        None
    }
}

/// What precedes the suffix `pat`, if `s` ends with it.
pub fn strip_suffix<'a>(s: &'a [char], pat: &str) -> (r: Option<&'a [char]>)
    ensures
        r is Some <==> before_suffix(s@, pat@) is Some,
        r matches Some(rest) ==> before_suffix(s@, pat@) == Some(rest@),
{
    let pat = chars_of(pat);
    if pat.len() <= s.len() && matches_at(s, pat.as_slice(), s.len() - pat.len()) {
        Some(slice_subrange(s, 0, s.len() - pat.len()))
    } else {
        None
    }
}

proof fn lemma_first_index(s: Seq<char>, c: char)
    ensures
        first_index(s, c) <= s.len(),
        first_index(s, c) < s.len() ==> s[first_index(s, c) as int] == c,
        forall|i: int| 0 <= i < first_index(s, c) ==> s[i] != c,
    decreases s.len(),
{
    if s.len() > 0 && s[0] != c {
        let rest = s.drop_first();
        lemma_first_index(rest, c);
        assert forall|i: int| 0 <= i < first_index(s, c) implies s[i] != c by {
            if i > 0 {
                assert(rest[i - 1] == s[i]);
            }
        }
    }
}

/// The first index is pinned down by what stands there and before it.
pub proof fn lemma_first_index_is(s: Seq<char>, c: char, at: int)
    requires
        0 <= at <= s.len(),
        at < s.len() ==> s[at] == c,
        forall|i: int| 0 <= i < at ==> s[i] != c,
    ensures
        first_index(s, c) == at,
{
    lemma_first_index(s, c);
}

/// Position of the first `c` in `s`, or the length of `s`.
fn index_of(s: &[char], c: char) -> (at: usize)
    ensures
        at == first_index(s@, c),
        at <= s@.len(),
{
    let mut i: usize = 0;
    while i < s.len() && s[i] != c
        invariant
            i <= s.len(),
            forall|j: int| 0 <= j < i ==> s[j] != c,
        decreases s.len() - i,
    {
        i = i + 1;
    }
    proof {
        lemma_first_index_is(s@, c, i as int);
    }
    i
}

/// What stands before and behind the first `c`, if there is one.
pub fn split_once<'a>(s: &'a [char], c: char) -> (r: Option<(&'a [char], &'a [char])>)
    ensures
        r is Some <==> cut(s@, c) is Some,
        r matches Some(p) ==> cut(s@, c) == Some((p.0@, p.1@)),
{
    let at = index_of(s, c);
    if at < s.len() {
        Some((slice_subrange(s, 0, at), slice_subrange(s, at + 1, s.len())))
    } else {
        None
    }
}

/// The parts of `s` between the occurrences of `c`.
pub fn split<'a>(s: &'a [char], c: char) -> (r: Vec<&'a [char]>)
    ensures
        r@.map_values(|p: &'a [char]| p@) == parts(s@, c),
{
    let mut r: Vec<&'a [char]> = Vec::new();
    let mut rest: &'a [char] = s;
    let mut at: usize = index_of(rest, c);
    assert(r@.map_values(|p: &'a [char]| p@) + parts(rest@, c) =~= parts(s@, c));
    while at < rest.len()
        invariant
            at == first_index(rest@, c),
            at <= rest@.len(),
            r@.map_values(|p: &'a [char]| p@) + parts(rest@, c) == parts(s@, c),
        decreases rest@.len(),
    {
        let ghost before = r@.map_values(|p: &'a [char]| p@);
        let ghost old_rest = rest@;
        let head = slice_subrange(rest, 0, at);
        r.push(head);
        rest = slice_subrange(rest, at + 1, rest.len());
        proof {
            assert(r@.map_values(|p: &'a [char]| p@) =~= before.push(head@));
            assert(parts(old_rest, c) == seq![head@] + parts(rest@, c));
            assert(before + (seq![head@] + parts(rest@, c)) =~= before.push(head@) + parts(
                rest@,
                c,
            ));
        }
        at = index_of(rest, c);
    }
    let ghost before = r@.map_values(|p: &'a [char]| p@);
    r.push(rest);
    proof {
        assert(r@.map_values(|p: &'a [char]| p@) =~= before + seq![rest@]);
    }
    r
}

/// First position at which `pat` occurs.
pub fn find(s: &[char], pat: &str) -> (r: Option<usize>)
    ensures
        r is Some <==> first_occurrence(s@, pat@, 0) is Some,
        r matches Some(at) ==> first_occurrence(s@, pat@, 0) == Some(at as int) && occurs_at(
            s@,
            pat@,
            at as int,
        ),
{
    let p = chars_of(pat);
    if p.len() > s.len() {
        return None;
    }
    let mut at: usize = 0;
    while at <= s.len() - p.len()
        invariant
            p@ == pat@,
            p.len() <= s.len(),
            at <= s.len() - p.len() + 1,
            first_occurrence(s@, pat@, 0) == first_occurrence(s@, pat@, at as int),
        decreases s.len() - p.len() + 1 - at,
    {
        if matches_at(s, p.as_slice(), at) {
            return Some(at);
        }
        if at == s.len() {
            assert(pat@.len() == 0);
            assert(s@.subrange(at as int, at as int) =~= pat@);
        }
        at = at + 1;
    }
    None
}

/// The first occurrence is an occurrence with none before it.
pub proof fn lemma_first_occurrence(s: Seq<char>, pat: Seq<char>, from: int)
    requires
        0 <= from,
    ensures
        first_occurrence(s, pat, from) matches Some(at) ==> from <= at && occurs_at(s, pat, at)
            && forall|i: int| from <= i < at ==> !occurs_at(s, pat, i),
        first_occurrence(s, pat, from) is None ==> forall|i: int|
            from <= i ==> !occurs_at(s, pat, i),
    decreases s.len() - from,
{
    if from + pat.len() <= s.len() && !occurs_at(s, pat, from) && from < s.len() {
        lemma_first_occurrence(s, pat, from + 1);
    }
    if from == s.len() && pat.len() == 0 {
        assert(s.subrange(from, from) =~= pat);
    }
}

/// Whether `pat` occurs in `s`.
pub fn contains(s: &[char], pat: &str) -> (b: bool)
    ensures
        b == occurs(s@, pat@),
{
    let r = find(s, pat);
    proof {
        lemma_first_occurrence(s@, pat@, 0);
    }
    r.is_some()
}

/// Whether `s` ends with `pat`.
pub fn ends_with(s: &[char], pat: &str) -> (b: bool)
    ensures
        b == ends(s@, pat@),
{
    strip_suffix(s, pat).is_some()
}

proof fn lemma_number_grows(s: Seq<char>, n: int)
    requires
        all_digits(s),
        0 <= n <= s.len(),
    ensures
        number(s.take(n)) <= number(s),
    decreases s.len() - n,
{
    if n < s.len() {
        let longer = s.take(n + 1);
        assert(longer.drop_last() =~= s.take(n));
        assert(is_digit(s[n]));
        lemma_number_grows(s, n + 1);
    } else {
        assert(s.take(n) =~= s);
    }
}

/// Read a decimal number.
pub fn parse_decimal(s: &[char]) -> (r: Option<usize>)
    ensures
        r == decimal_value(s@),
{
    let digits: &[char] = if s.len() > 0 && s[0] == '+' {
        slice_subrange(s, 1, s.len())
    } else {
        s
    };
    let ghost expected = if s@.len() > 0 && s@[0] == '+' { s@.drop_first() } else { s@ };
    assert(digits@ =~= expected);
    if digits.len() == 0 {
        return None;
    }
    let mut value: usize = 0;
    let mut i: usize = 0;
    assert(digits@.take(0) =~= Seq::<char>::empty());
    while i < digits.len()
        invariant
            i <= digits.len(),
            digits@.len() > 0,
            all_digits(digits@.take(i as int)),
            value == number(digits@.take(i as int)),
            digits@ == (if s@.len() > 0 && s@[0] == '+' { s@.drop_first() } else { s@ }),
        decreases digits.len() - i,
    {
        let c: char = digits[i];
        if c < '0' || c > '9' {
            assert(!is_digit(digits@[i as int]));
            return None;
        }
        let d: usize = c as usize - '0' as usize;
        let ghost upto = digits@.take(i + 1);
        proof {
            assert(upto.drop_last() =~= digits@.take(i as int));
            assert(number(upto) == value * 10 + d);
            assert forall|j: int| 0 <= j < upto.len() implies is_digit(#[trigger] upto[j]) by {
                if j < i {
                    assert(digits@.take(i as int)[j] == upto[j]);
                }
            }
            if all_digits(digits@) {
                lemma_number_grows(digits@, i + 1);
            }
        }
        if value > (usize::MAX - d) / 10 {
            assert(value * 10 + d > usize::MAX);
            return None;
        }
        value = value * 10 + d;
        i = i + 1;
    }
    assert(digits@.take(digits@.len() as int) =~= digits@);
    Some(value)
}

// ── Writing ──────────────────────────────────────────────────────────────────

/// The decimal digit for `d`.
pub open spec fn digit_char(d: nat) -> char {
    ('0' as nat + d) as char
}

/// The decimal notation of `n`.
pub open spec fn decimal(n: nat) -> Seq<char>
    decreases n,
{
    if n < 10 {
        seq![digit_char(n)]
    } else {
        decimal(n / 10).push(digit_char(n % 10))
    }
}

fn digit_text(d: u64) -> (t: &'static str)
    requires
        d < 10,
    ensures
        t@ == seq![digit_char(d as nat)],
{
    proof {
        reveal_strlit("0");
        reveal_strlit("1");
        reveal_strlit("2");
        reveal_strlit("3");
        reveal_strlit("4");
        reveal_strlit("5");
        reveal_strlit("6");
        reveal_strlit("7");
        reveal_strlit("8");
        reveal_strlit("9");
    }
    let t: &'static str = match d {
        0 => "0",
        1 => "1",
        2 => "2",
        3 => "3",
        4 => "4",
        5 => "5",
        6 => "6",
        7 => "7",
        8 => "8",
        _ => "9",
    };
    assert(t@ =~= seq![digit_char(d as nat)]);
    t
}

/// Append the decimal notation of `n` to `out`.
pub fn push_decimal(out: &mut String, n: u64)
    ensures
        final(out)@ == old(out)@ + decimal(n as nat),
    decreases n,
{
    let ghost before = out@;
    if n >= 10 {
        push_decimal(out, n / 10);
    }
    out.append(digit_text(n % 10));
    proof {
        if n < 10 {
            assert(before + seq![digit_char(n as nat)] == before + decimal(n as nat));
        } else {
            assert((before + decimal((n / 10) as nat)) + seq![digit_char((n % 10) as nat)]
                =~= before + decimal(n as nat));
        }
    }
}

/// The decimal notation reads back as the number.
pub proof fn lemma_decimal(n: nat)
    ensures
        decimal(n).len() > 0,
        all_digits(decimal(n)),
        number(decimal(n)) == n,
        n <= usize::MAX ==> decimal_value(decimal(n)) == Some(n as usize),
    decreases n,
{
    if n < 10 {
        assert(decimal(n).drop_last() =~= Seq::<char>::empty());
        assert(number(Seq::<char>::empty()) == 0);
        assert(decimal(n).last() as nat == '0' as nat + n);
    } else {
        lemma_decimal(n / 10);
        assert(decimal(n).drop_last() =~= decimal(n / 10));
        assert(decimal(n).last() as nat == '0' as nat + n % 10);
    }
    assert(is_digit(decimal(n)[0]));
}

// ── Paths ────────────────────────────────────────────────────────────────────

/// `file` relative to the directory `base`, with `/` between them. An absolute
/// `file` stands for itself.
pub open spec fn joined(base: Seq<char>, file: Seq<char>) -> Seq<char> {
    if starts(file, "/"@) {
        file
    } else if base.len() == 0 || ends(base, "/"@) {
        base + file
    } else {
        base + "/"@ + file
    }
}

/// Join a directory and a file name.
pub fn join_path(base: &str, file: &str) -> (p: String)
    ensures
        p@ == joined(base@, file@),
{
    let b = chars_of(base);
    let f = chars_of(file);
    let mut p: String = String::new();
    if strip_prefix(f.as_slice(), "/").is_none() {
        p.append(base);
        if b.len() > 0 && !ends_with(b.as_slice(), "/") {
            p.append("/");
        }
    }
    p.append(file);
    assert(p@ =~= joined(base@, file@));
    p
}

// ── Laws ─────────────────────────────────────────────────────────────────────

/// A prefix is taken off exactly where the text is that prefix, followed by
/// what is left.
pub proof fn law_prefix(s: Seq<char>, pat: Seq<char>, rest: Seq<char>)
    ensures
        after_prefix(s, pat) == Some(rest) <==> s == pat + rest,
        starts(pat + rest, pat),
        starts(s, pat) ==> exists|r: Seq<char>| s == #[trigger] (pat + r),
{
    if after_prefix(s, pat) == Some(rest) {
        assert(s =~= s.subrange(0, pat.len() as int) + s.skip(pat.len() as int));
    }
    assert((pat + rest).subrange(0, pat.len() as int) =~= pat);
    assert((pat + rest).skip(pat.len() as int) =~= rest);
    if starts(s, pat) {
        assert(s =~= pat + s.skip(pat.len() as int));
    }
}

/// A suffix is taken off exactly where the text is what is left, followed by
/// that suffix.
pub proof fn law_suffix(s: Seq<char>, pat: Seq<char>, rest: Seq<char>)
    ensures
        before_suffix(s, pat) == Some(rest) <==> s == rest + pat,
        ends(rest + pat, pat),
        ends(s, pat) ==> exists|r: Seq<char>| s == #[trigger] (r + pat),
{
    let n = s.len() - pat.len();
    if before_suffix(s, pat) == Some(rest) {
        assert(s =~= s.take(n) + s.subrange(n, s.len() as int));
    }
    let t = rest + pat;
    assert(t.subrange(rest.len() as int, t.len() as int) =~= pat);
    assert(t.take(rest.len() as int) =~= rest);
    if ends(s, pat) {
        assert(s =~= s.take(n) + pat);
    }
}

/// A pattern occurs in a text exactly where the text is something, the
/// pattern, and something more.
pub proof fn law_occurs(s: Seq<char>, pat: Seq<char>)
    ensures
        occurs(s, pat) <==> exists|a: Seq<char>, b: Seq<char>| s == #[trigger] (a + pat + b),
{
    if occurs(s, pat) {
        let at = choose|at: int| occurs_at(s, pat, at);
        let (a, b) = (s.take(at), s.skip(at + pat.len()));
        assert(s =~= a + s.subrange(at, at + pat.len()) + b);
        assert(s == a + pat + b);
    }
    if exists|a: Seq<char>, b: Seq<char>| s == #[trigger] (a + pat + b) {
        let (a, b) = choose|a: Seq<char>, b: Seq<char>| s == #[trigger] (a + pat + b);
        assert(s.subrange(a.len() as int, (a.len() + pat.len()) as int) =~= pat);
        assert(occurs_at(s, pat, a.len() as int));
    }
}

/// The pattern is found first at `at` exactly where it stands there, with
/// `at` characters before it, and at no place before that.
pub proof fn law_find(s: Seq<char>, pat: Seq<char>, at: int)
    requires
        0 <= at,
    ensures
        first_occurrence(s, pat, 0) == Some(at) ==> {
            &&& at + pat.len() <= s.len()
            &&& s == s.take(at) + pat + s.skip(at + pat.len())
            &&& forall|i: int|
                0 <= i < at ==> #[trigger] s.subrange(i, i + pat.len()) != pat
        },
        at + pat.len() <= s.len() && s.subrange(at, at + pat.len()) == pat ==> {
            &&& first_occurrence(s, pat, 0) matches Some(i)
            &&& i <= at
        },
{
    lemma_first_occurrence(s, pat, 0);
    if first_occurrence(s, pat, 0) == Some(at) {
        assert(occurs_at(s, pat, at));
        assert(s =~= s.take(at) + s.subrange(at, at + pat.len()) + s.skip(at + pat.len()));
        assert forall|i: int| 0 <= i < at implies #[trigger] s.subrange(i, i + pat.len())
            != pat by {
            assert(!occurs_at(s, pat, i));
        }
    }
    if at + pat.len() <= s.len() && s.subrange(at, at + pat.len()) == pat {
        assert(occurs_at(s, pat, at));
    }
}

/// A text is cut at its first `c` exactly into what stands before it, where
/// there is no `c`, and what stands behind it.
pub proof fn law_cut(s: Seq<char>, c: char, a: Seq<char>, b: Seq<char>)
    ensures
        cut(s, c) == Some((a, b)) <==> s == a + seq![c] + b && !a.contains(c),
        cut(s, c) is None <==> !s.contains(c),
{
    lemma_first_index(s, c);
    let at = first_index(s, c) as int;
    if at < s.len() {
        assert(s.contains(c));
        assert(s =~= s.take(at) + seq![c] + s.skip(at + 1));
        if s.take(at).contains(c) {
            let i = choose|i: int| 0 <= i < at && s.take(at)[i] == c;
            assert(s[i] == c);
        }
    }
    if s == a + seq![c] + b && !a.contains(c) {
        let n = a.len() as int;
        assert(s[n] == c);
        assert forall|i: int| 0 <= i < n implies s[i] != c by {
            assert(s[i] == a[i]);
            assert(a.contains(a[i]));
        }
        lemma_first_index_is(s, c, n);
        assert(s.take(n) =~= a);
        assert(s.skip(n + 1) =~= b);
    }
    if s.contains(c) {
        let i = choose|i: int| 0 <= i < s.len() && s[i] == c;
        assert(at <= i);
    }
}

/// The parts of a text: a text without `c` is one part; what stands before a
/// `c` is a part of its own, followed by the parts of what stands behind it.
pub proof fn law_parts(a: Seq<char>, c: char, b: Seq<char>)
    requires
        !a.contains(c),
    ensures
        parts(a, c) == seq![a],
        parts(a + seq![c] + b, c) == seq![a] + parts(b, c),
{
    law_cut(a, c, a, b);
    let s = a + seq![c] + b;
    law_cut(s, c, a, b);
    lemma_first_index(a, c);
    let at = first_index(a, c) as int;
    if at < a.len() {
        assert(a.contains(a[at]));
    }
}

/// No part holds a `c`.
pub proof fn law_parts_hold_none(s: Seq<char>, c: char)
    ensures
        parts(s, c).len() > 0,
        forall|i: int| 0 <= i < parts(s, c).len() ==> !(#[trigger] parts(s, c)[i]).contains(c),
    decreases s.len(),
{
    lemma_first_index(s, c);
    let at = first_index(s, c) as int;
    if at < s.len() {
        let head = s.take(at);
        law_parts_hold_none(s.skip(at + 1), c);
        if head.contains(c) {
            let i = choose|i: int| 0 <= i < at && head[i] == c;
            assert(s[i] == c);
        }
        assert forall|i: int| 0 <= i < parts(s, c).len() implies !(
        #[trigger] parts(s, c)[i]).contains(c) by {
            if i > 0 {
                assert(parts(s, c)[i] == parts(s.skip(at + 1), c)[i - 1]);
            }
        }
    } else {
        if s.contains(c) {
            let i = choose|i: int| 0 <= i < s.len() && s[i] == c;
            assert(s[i] != c);
        }
    }
}

/// What a digit is: one of the ten characters from `0` on.
pub proof fn law_digit(c: char)
    ensures
        is_digit(c) <==> 48 <= c as int <= 57,
{
}

/// One digit stands for its distance from `0`; one more digit behind a number
/// makes it ten times as large, plus the digit.
pub proof fn law_number(s: Seq<char>, c: char)
    requires
        48 <= c as int <= 57,
    ensures
        number(Seq::<char>::empty()) == 0,
        number(s.push(c)) == 10 * number(s) + (c as int - 48),
        decimal_value(seq![c]) == Some((c as int - 48) as usize),
{
    assert(s.push(c).drop_last() =~= s);
    reveal_with_fuel(number, 2);
    assert(seq![c].drop_last() =~= Seq::<char>::empty());
    assert(number(seq![c]) == c as int - 48);
    assert(all_digits(seq![c]));
}

/// A digit behind the text of a number makes the text of another, as long as it
/// fits the machine's integers.
pub proof fn law_decimal_grows(s: Seq<char>, c: char)
    requires
        decimal_value(s) is Some,
        48 <= c as int <= 57,
    ensures
        ({
            let n = 10 * decimal_value(s)->0 + (c as int - 48);
            decimal_value(s.push(c)) == if n <= usize::MAX {
                Some(n as usize)
            } else {
                None
            }
        }),
{
    let t = s.push(c);
    let plus = s[0] == '+';
    let d = if plus { s.drop_first() } else { s };
    let e = if plus { t.drop_first() } else { t };
    assert(e =~= d.push(c));
    law_number(d, c);
    assert forall|i: int| 0 <= i < e.len() implies is_digit(#[trigger] e[i]) by {
        if i < d.len() {
            assert(is_digit(d[i]));
        }
    }
}

/// The text of a number holds digits only, but for a `+` in front of them.
pub proof fn law_decimal_text(s: Seq<char>)
    requires
        decimal_value(s) is Some,
    ensures
        s.len() > 0,
        48 <= s.last() as int <= 57,
        forall|i: int| 0 < i < s.len() ==> 48 <= (#[trigger] s[i]) as int <= 57,
        s[0] == '+' || 48 <= s[0] as int <= 57,
        s[0] == '+' ==> decimal_value(s.drop_first()) == decimal_value(s),
{
    let plus = s[0] == '+';
    let d = if plus { s.drop_first() } else { s };
    assert forall|i: int| 0 < i < s.len() implies 48 <= (#[trigger] s[i]) as int <= 57 by {
        let j = if plus { i - 1 } else { i };
        assert(is_digit(d[j]));
        assert(d[j] == s[i]);
    }
    assert(is_digit(d[0]));
    assert(is_digit(d[d.len() - 1]));
}

/// A `+` in front of the text of a number that has none makes no difference.
pub proof fn law_decimal_plus(s: Seq<char>)
    requires
        s.len() > 0,
        s[0] != '+',
    ensures
        decimal_value(seq!['+'] + s) == decimal_value(s),
{
    assert((seq!['+'] + s).drop_first() =~= s);
}

/// The notation of a number: its digits, the lowest last, none in front that
/// is not needed; it reads back as the number.
pub proof fn law_decimal(n: nat)
    ensures
        n < 10 ==> decimal(n).len() == 1,
        n >= 10 ==> decimal(n).drop_last() == decimal(n / 10),
        decimal(n).len() > 0,
        decimal(n).last() as int == 48 + n % 10,
        n <= usize::MAX ==> decimal_value(decimal(n)) == Some(n as usize),
{
    lemma_decimal(n);
    if n >= 10 {
        assert(decimal(n).drop_last() =~= decimal(n / 10));
    }
}

/// Different numbers have different notations.
pub proof fn law_decimal_distinct(m: nat, n: nat)
    requires
        m != n,
    ensures
        decimal(m) != decimal(n),
{
    lemma_decimal(m);
    lemma_decimal(n);
}

/// A path below a directory: one slash stands between the two, and none is put
/// where the directory is empty or ends in one; an absolute path stands for
/// itself.
pub proof fn law_joined(base: Seq<char>, file: Seq<char>)
    ensures
        file.len() > 0 && file[0] == '/' ==> joined(base, file) == file,
        (file.len() == 0 || file[0] != '/') && base.len() > 0 && base.last() != '/' ==> joined(
            base,
            file,
        ) == base.push('/') + file,
        (file.len() == 0 || file[0] != '/') && (base.len() == 0 || base.last() == '/') ==> joined(
            base,
            file,
        ) == base + file,
{
    reveal_strlit("/");
    let slash = "/"@;
    assert(slash =~= seq!['/']);
    if file.len() > 0 {
        assert(file.subrange(0, 1)[0] == file[0]);
        if file[0] == '/' {
            assert(file.subrange(0, 1) =~= slash);
        }
    }
    if base.len() > 0 {
        let n = base.len() - 1;
        assert(base.subrange(n, n + 1)[0] == base.last());
        if base.last() == '/' {
            assert(base.subrange(n, n + 1) =~= slash);
        }
    }
    assert(base.push('/') + file =~= base + slash + file);
}

/// A digit taken off the end of the text of a number leaves the text of a
/// number, unless nothing or a mere `+` is left.
pub proof fn law_decimal_shrinks(s: Seq<char>, c: char)
    requires
        decimal_value(s.push(c)) is Some,
        s.len() > 1 || s.len() == 1 && s[0] != '+',
    ensures
        decimal_value(s) is Some,
        decimal_value(s.push(c))->0 as int / 10 == decimal_value(s)->0,
{
    let t = s.push(c);
    let plus = s[0] == '+';
    let d = if plus { s.drop_first() } else { s };
    let e = if plus { t.drop_first() } else { t };
    assert(t[0] == s[0]);
    assert(e =~= d.push(c));
    assert(is_digit(e[e.len() - 1]));
    law_number(d, c);
    assert forall|i: int| 0 <= i < d.len() implies is_digit(#[trigger] d[i]) by {
        assert(d[i] == e[i]);
    }
}

} // verus!
