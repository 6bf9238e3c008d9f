//! Character-sequence utilities shared by the query modules: conversion between
//! `str`/`String` and `Vec<char>`, decimal rendering, lexicographic order,
//! splitting, joining and trimming.
use vstd::prelude::*;

verus! {

/// Three-way result of a comparison.
#[derive(Clone, Copy, Debug, PartialEq, Eq, Structural)]
pub enum Cmp {
    Less,
    Equal,
    Greater,
}

/// Lexicographic order on character sequences: the order of Rust's `str`,
/// since UTF-8 preserves the order of code points.
pub open spec fn lex_le(a: Seq<char>, b: Seq<char>) -> bool
    decreases a.len(),
{
    if a.len() == 0 {
        true
    } else if b.len() == 0 {
        false
    } else if a[0] != b[0] {
        a[0] < b[0]
    } else {
        lex_le(a.drop_first(), b.drop_first())
    }
}

pub open spec fn lex_lt(a: Seq<char>, b: Seq<char>) -> bool {
    lex_le(a, b) && a != b
}

/// Any two sequences are ordered one way or the other.
pub proof fn lemma_lex_total(a: Seq<char>, b: Seq<char>)
    ensures
        lex_le(a, b) || lex_le(b, a),
    decreases a.len(),
{
    if a.len() > 0 && b.len() > 0 && a[0] == b[0] {
        lemma_lex_total(a.drop_first(), b.drop_first());
    }
}

/// The order is transitive.
pub proof fn lemma_lex_trans(a: Seq<char>, b: Seq<char>, c: Seq<char>)
    requires
        lex_le(a, b),
        lex_le(b, c),
    ensures
        lex_le(a, c),
    decreases a.len(),
{
    if a.len() > 0 && b.len() > 0 && c.len() > 0 && a[0] == b[0] && b[0] == c[0] {
        lemma_lex_trans(a.drop_first(), b.drop_first(), c.drop_first());
    }
}

/// The order is antisymmetric.
pub proof fn lemma_lex_antisym(a: Seq<char>, b: Seq<char>)
    requires
        lex_le(a, b),
        lex_le(b, a),
    ensures
        a == b,
    decreases a.len(),
{
    if a.len() > 0 && b.len() > 0 {
        lemma_lex_antisym(a.drop_first(), b.drop_first());
        assert(a =~= seq![a[0]] + a.drop_first());
        assert(b =~= seq![b[0]] + b.drop_first());
    }
}

/// Compares two character sequences lexicographically.
pub fn compare_chars(a: &[char], b: &[char]) -> (r: Cmp)
    ensures
        r == Cmp::Equal <==> a@ == b@,
        r == Cmp::Less <==> lex_lt(a@, b@),
        r == Cmp::Greater <==> lex_lt(b@, a@),
{
    let mut i: usize = 0;
    while i < a.len() && i < b.len() && a[i] == b[i]
        invariant
            i <= a.len(),
            i <= b.len(),
            a@.subrange(0, i as int) == b@.subrange(0, i as int),
        decreases a.len() - i,
    {
        i = i + 1;
    }
    proof {
        lemma_lex_skip_common(a@, b@, i as int);
        lemma_lex_total(a@, b@);
    }
    if i < a.len() && i < b.len() {
        proof {
            assert(a@[i as int] == a@.skip(i as int)[0]);
            assert(b@[i as int] == b@.skip(i as int)[0]);
        }
        if a[i] < b[i] {
            proof { lemma_lex_antisym_neq(a@, b@, i as int); }
            Cmp::Less
        } else {
            proof { lemma_lex_antisym_neq(a@, b@, i as int); }
            Cmp::Greater
        }
    } else if i < b.len() {
        proof { assert(a@.len() != b@.len()); }
        Cmp::Less
    } else if i < a.len() {
        proof { assert(a@.len() != b@.len()); }
        Cmp::Greater
    } else {
        proof { assert(a@ =~= a@.subrange(0, i as int)); assert(b@ =~= b@.subrange(0, i as int)); }
        Cmp::Equal
    }
}

proof fn lemma_lex_skip_common(a: Seq<char>, b: Seq<char>, i: int)
    requires
        0 <= i <= a.len(),
        i <= b.len(),
        a.subrange(0, i) == b.subrange(0, i),
    ensures
        lex_le(a, b) == lex_le(a.skip(i), b.skip(i)),
        lex_le(b, a) == lex_le(b.skip(i), a.skip(i)),
    decreases i,
{
    if i > 0 {
        assert(a[0] == a.subrange(0, i)[0]);
        assert(b[0] == b.subrange(0, i)[0]);
        assert(a.drop_first().subrange(0, i - 1) =~= a.subrange(0, i).drop_first());
        assert(b.drop_first().subrange(0, i - 1) =~= b.subrange(0, i).drop_first());
        lemma_lex_skip_common(a.drop_first(), b.drop_first(), i - 1);
        assert(a.drop_first().skip(i - 1) =~= a.skip(i));
        assert(b.drop_first().skip(i - 1) =~= b.skip(i));
    } else {
        assert(a.skip(0) =~= a);
        assert(b.skip(0) =~= b);
    }
}

proof fn lemma_lex_antisym_neq(a: Seq<char>, b: Seq<char>, i: int)
    requires
        0 <= i < a.len(),
        i < b.len(),
        a[i] != b[i],
    ensures
        a != b,
{
}

/// The characters of a string slice, in order.
pub fn chars_of(s: &str) -> (v: Vec<char>)
    ensures
        v@ == s@,
{
    let mut v: Vec<char> = Vec::new();
    for c in it: s.chars()
        invariant
            v@ == it.seq().take(it.index() as int),
    {
        v.push(c);
    }
    v
}

/// Appends one character to a string with `String::push`. The contract
/// claims that the string's characters afterwards are the earlier ones
/// followed by `c`.
#[verifier::external_body]
fn push_char(s: &mut String, c: char)
    ensures
        final(s)@ == old(s)@.push(c),
{
    s.push(c);
}

/// The string made of the given characters.
pub fn string_from(v: &[char]) -> (s: String)
    ensures
        s@ == v@,
{
    let mut s = String::new();
    let mut i: usize = 0;
    while i < v.len()
        invariant
            i <= v.len(),
            s@ == v@.take(i as int),
        decreases v.len() - i,
    {
        push_char(&mut s, v[i]);
        proof { assert(v@.take(i + 1) =~= v@.take(i as int).push(v@[i as int])); }
        i = i + 1;
    }
    proof { assert(v@.take(v@.len() as int) =~= v@); }
    s
}

/// The decimal digit character for `d < 10`.
pub open spec fn digit_char(d: nat) -> char {
    if d == 0 { '0' }
    else if d == 1 { '1' }
    else if d == 2 { '2' }
    else if d == 3 { '3' }
    else if d == 4 { '4' }
    else if d == 5 { '5' }
    else if d == 6 { '6' }
    else if d == 7 { '7' }
    else if d == 8 { '8' }
    else { '9' }
}

/// The decimal rendering of a natural number, without leading zeros.
pub open spec fn decimal(n: nat) -> Seq<char>
    decreases n,
{
    if n < 10 {
        seq![digit_char(n)]
    } else {
        decimal(n / 10).push(digit_char(n % 10))
    }
}

fn digit_exec(d: usize) -> (c: char)
    requires
        d < 10,
    ensures
        c == digit_char(d as nat),
{
    if d == 0 { '0' }
    else if d == 1 { '1' }
    else if d == 2 { '2' }
    else if d == 3 { '3' }
    else if d == 4 { '4' }
    else if d == 5 { '5' }
    else if d == 6 { '6' }
    else if d == 7 { '7' }
    else if d == 8 { '8' }
    else { '9' }
}

/// Appends the decimal rendering of `n`.
pub fn push_decimal(out: &mut Vec<char>, n: usize)
    ensures
        final(out)@ == old(out)@ + decimal(n as nat),
    decreases n,
{
    if n >= 10 {
        push_decimal(out, n / 10);
    }
    out.push(digit_exec(n % 10));
    proof {
        if n < 10 {
            assert(n % 10 == n);
        }
    }
}

/// Appends all characters of `s`.
pub fn push_all(out: &mut Vec<char>, s: &[char])
    ensures
        final(out)@ == old(out)@ + s@,
{
    let mut i: usize = 0;
    while i < s.len()
        invariant
            i <= s.len(),
            out@ == old(out)@ + s@.take(i as int),
        decreases s.len() - i,
    {
        out.push(s[i]);
        proof { assert(s@.take(i + 1) =~= s@.take(i as int).push(s@[i as int])); }
        i = i + 1;
    }
    proof { assert(s@.take(s@.len() as int) =~= s@); }
}

/// Appends all characters of a string slice.
pub fn push_str(out: &mut Vec<char>, s: &str)
    ensures
        final(out)@ == old(out)@ + s@,
{
    let v = chars_of(s);
    push_all(out, v.as_slice());
}

/// The parts joined with `sep` between consecutive parts.
pub open spec fn join(parts: Seq<Seq<char>>, sep: Seq<char>) -> Seq<char>
    decreases parts.len(),
{
    if parts.len() == 0 {
        seq![]
    } else if parts.len() == 1 {
        parts[0]
    } else {
        join(parts.drop_last(), sep) + sep + parts.last()
    }
}

/// Joins character vectors with a separator.
pub fn join_chars(parts: &Vec<Vec<char>>, sep: &[char]) -> (r: Vec<char>)
    ensures
        r@ == join(parts@.map_values(|p: Vec<char>| p@), sep@),
{
    let ghost views = parts@.map_values(|p: Vec<char>| p@);
    let mut r: Vec<char> = Vec::new();
    let mut i: usize = 0;
    while i < parts.len()
        invariant
            i <= parts.len(),
            views == parts@.map_values(|p: Vec<char>| p@),
            r@ == join(views.take(i as int), sep@),
        decreases parts.len() - i,
    {
        proof { assert(views.take(i + 1).drop_last() =~= views.take(i as int)); }
        if i > 0 {
            push_all(&mut r, sep);
        } else {
            proof { assert(views.take(0) =~= Seq::<Seq<char>>::empty()); }
        }
        push_all(&mut r, parts[i].as_slice());
        i = i + 1;
    }
    proof { assert(views.take(parts.len() as int) =~= views); }
    r
}

/// Whether `s` starts with `prefix`.
pub open spec fn has_prefix(s: Seq<char>, prefix: Seq<char>) -> bool {
    prefix.len() <= s.len() && s.subrange(0, prefix.len() as int) == prefix
}

/// Whether `s` ends with `suffix`.
pub open spec fn has_suffix(s: Seq<char>, suffix: Seq<char>) -> bool {
    suffix.len() <= s.len() && s.subrange(s.len() - suffix.len(), s.len() as int) == suffix
}

pub fn starts_with_chars(s: &[char], prefix: &[char]) -> (r: bool)
    ensures
        r == has_prefix(s@, prefix@),
{
    if prefix.len() > s.len() {
        return false;
    }
    let mut i: usize = 0;
    while i < prefix.len()
        invariant
            prefix.len() <= s.len(),
            i <= prefix.len(),
            s@.subrange(0, i as int) == prefix@.subrange(0, i as int),
        decreases prefix.len() - i,
    {
        if s[i] != prefix[i] {
            proof { assert(s@.subrange(0, prefix@.len() as int)[i as int] == s@[i as int]); }
            return false;
        }
        proof {
            assert(s@.subrange(0, i + 1) =~= s@.subrange(0, i as int).push(s@[i as int]));
            assert(prefix@.subrange(0, i + 1) =~= prefix@.subrange(0, i as int).push(prefix@[i as int]));
        }
        i = i + 1;
    }
    proof { assert(prefix@.subrange(0, prefix@.len() as int) =~= prefix@); }
    true
}

pub fn ends_with_chars(s: &[char], suffix: &[char]) -> (r: bool)
    ensures
        r == has_suffix(s@, suffix@),
{
    if suffix.len() > s.len() {
        return false;
    }
    let off = s.len() - suffix.len();
    let mut i: usize = 0;
    while i < suffix.len()
        invariant
            suffix.len() <= s.len(),
            off == s.len() - suffix.len(),
            i <= suffix.len(),
            s@.subrange(off as int, off + i) == suffix@.subrange(0, i as int),
        decreases suffix.len() - i,
    {
        if s[off + i] != suffix[i] {
            proof { assert(s@.subrange(off as int, s@.len() as int)[i as int] == s@[off + i]); }
            return false;
        }
        proof {
            assert(s@.subrange(off as int, off + i + 1) =~= s@.subrange(off as int, off + i).push(s@[off + i]));
            assert(suffix@.subrange(0, i + 1) =~= suffix@.subrange(0, i as int).push(suffix@[i as int]));
        }
        i = i + 1;
    }
    proof { assert(suffix@.subrange(0, suffix@.len() as int) =~= suffix@); }
    true
}

pub fn ends_with_str(s: &[char], suffix: &str) -> (r: bool)
    ensures
        r == has_suffix(s@, suffix@),
{
    let v = chars_of(suffix);
    ends_with_chars(s, v.as_slice())
}

pub fn starts_with_str(s: &[char], prefix: &str) -> (r: bool)
    ensures
        r == has_prefix(s@, prefix@),
{
    let v = chars_of(prefix);
    starts_with_chars(s, v.as_slice())
}

pub fn eq_str(s: &[char], t: &str) -> (r: bool)
    ensures
        r == (s@ == t@),
{
    let v = chars_of(t);
    compare_chars(s, v.as_slice()) == Cmp::Equal
}

} // verus!
