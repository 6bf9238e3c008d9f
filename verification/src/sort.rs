//! A verified merge sort over values that carry a total preorder.
use vstd::prelude::*;
use vstd::multiset::Multiset;
use vstd::relations::{sorted_by, total_ordering};
use crate::text::{compare_chars, lemma_lex_antisym, lemma_lex_total, lemma_lex_trans, lex_le, Cmp};
use crate::path::views;

verus! {

broadcast use vstd::seq_lib::group_to_multiset_ensures;

/// Values ordered by a total preorder, with an executable test of it.
pub trait Ranked: Sized {
    /// `self` may stand before `other`.
    spec fn ranked_le(&self, other: &Self) -> bool;

    proof fn lemma_ranked_total(a: &Self, b: &Self)
        ensures
            a.ranked_le(b) || b.ranked_le(a),
    ;

    proof fn lemma_ranked_trans(a: &Self, b: &Self, c: &Self)
        requires
            a.ranked_le(b),
            b.ranked_le(c),
        ensures
            a.ranked_le(c),
    ;

    fn ranked_le_exec(&self, other: &Self) -> (r: bool)
        ensures
            r == self.ranked_le(other),
    ;
}

/// Every element may stand before every later one.
pub open spec fn sorted_ranked<T: Ranked>(s: Seq<T>) -> bool {
    forall|i: int, j: int| 0 <= i < j < s.len() ==> #[trigger] s[i].ranked_le(&s[j])
}

/// The elements of `v` in reverse order.
pub fn reverse_vec<T>(v: Vec<T>) -> (r: Vec<T>)
    ensures
        r@ == v@.reverse(),
{
    let ghost orig = v@;
    let mut v = v;
    let mut r: Vec<T> = Vec::new();
    while v.len() > 0
        invariant
            v.len() <= orig.len(),
            v@ == orig.subrange(0, v.len() as int),
            r@ == orig.subrange(v.len() as int, orig.len() as int).reverse(),
        decreases v.len(),
    {
        let x = v.pop().unwrap();
        r.push(x);
        proof {
            assert(r@ =~= orig.subrange(v.len() as int, orig.len() as int).reverse());
        }
    }
    proof { assert(orig.subrange(0, orig.len() as int) =~= orig); }
    r
}

/// The elements of the same rank as `x`.
pub open spec fn same_rank<T: Ranked>(x: T) -> spec_fn(T) -> bool {
    |y: T| y.ranked_le(&x) && x.ranked_le(&y)
}

proof fn lemma_filter_empty<A>(p: spec_fn(A) -> bool)
    ensures
        Seq::<A>::empty().filter(p) == Seq::<A>::empty(),
{
    reveal(Seq::filter);
    assert(Seq::<A>::empty().filter(p) =~= Seq::<A>::empty());
}

proof fn lemma_filter_prepend<A>(x: A, d: Seq<A>, p: spec_fn(A) -> bool)
    ensures
        (seq![x] + d).filter(p) == if p(x) { seq![x] + d.filter(p) } else { d.filter(p) },
{
    Seq::filter_distributes_over_add(seq![x], d, p);
    lemma_filter_empty(p);
    Seq::<A>::empty().lemma_filter_push(x, p);
    assert(Seq::<A>::empty().push(x) =~= seq![x]);
    assert(Seq::<A>::empty() + d.filter(p) =~= d.filter(p));
}

/// Some element of a sorted list has the rank of `x`, so `x`'s rank is at
/// most that of the list's last element.
proof fn lemma_rank_below_last<T: Ranked>(b: Seq<T>, x: T)
    requires
        sorted_ranked(b),
        b.filter(same_rank(x)).len() > 0,
    ensures
        b.len() > 0,
        x.ranked_le(&b.last()),
{
    let f = b.filter(same_rank(x));
    b.lemma_filter_pred(same_rank(x), 0);
    b.lemma_filter_contains_rev(same_rank(x), f[0]);
    let k = choose|k: int| 0 <= k < b.len() && b[k] == f[0];
    if k < b.len() - 1 {
        assert(b[k].ranked_le(&b[b.len() - 1]));
        T::lemma_ranked_trans(&x, &b[k], &b[b.len() - 1]);
    }
}

/// During a merge: for every rank, what is left of both lists followed by
/// what was taken gives the elements of that rank of both inputs, in order.
#[verifier::opaque]
pub open spec fn merge_stable<T: Ranked>(a0: Seq<T>, b0: Seq<T>, a: Seq<T>, b: Seq<T>, desc: Seq<T>) -> bool {
    forall|x: T| #[trigger] same_rank(x) == same_rank(x) ==>
        a0.filter(same_rank(x)) + b0.filter(same_rank(x))
            == a.filter(same_rank(x)) + b.filter(same_rank(x)) + desc.reverse().filter(same_rank(x))
}

proof fn lemma_merge_start<T: Ranked>(a0: Seq<T>, b0: Seq<T>)
    ensures
        merge_stable(a0, b0, a0, b0, Seq::<T>::empty()),
{
    reveal(merge_stable);
    assert forall|x: T| #[trigger] same_rank(x) == same_rank(x) implies
        a0.filter(same_rank(x)) + b0.filter(same_rank(x))
            == a0.filter(same_rank(x)) + b0.filter(same_rank(x)) + Seq::<T>::empty().reverse().filter(same_rank(x)) by {
        lemma_filter_empty(same_rank(x));
        assert(Seq::<T>::empty().reverse() =~= Seq::<T>::empty());
        assert(a0.filter(same_rank(x)) + b0.filter(same_rank(x)) + Seq::<T>::empty()
            =~= a0.filter(same_rank(x)) + b0.filter(same_rank(x)));
    }
}

proof fn lemma_merge_take_b<T: Ranked>(
    a0: Seq<T>, b0: Seq<T>, a: Seq<T>, old_b: Seq<T>, b: Seq<T>, x: T, old_desc: Seq<T>, desc: Seq<T>,
)
    requires
        merge_stable(a0, b0, a, old_b, old_desc),
        old_b == b.push(x),
        desc == old_desc.push(x),
    ensures
        merge_stable(a0, b0, a, b, desc),
{
    reveal(merge_stable);
    assert(desc.reverse() =~= seq![x] + old_desc.reverse());
    assert forall|z: T| #[trigger] same_rank(z) == same_rank(z) implies
        a0.filter(same_rank(z)) + b0.filter(same_rank(z))
            == a.filter(same_rank(z)) + b.filter(same_rank(z)) + desc.reverse().filter(same_rank(z)) by {
        let p = same_rank(z);
        assert(same_rank(z) == same_rank(z));
        b.lemma_filter_push(x, p);
        lemma_filter_prepend(x, old_desc.reverse(), p);
        if p(x) {
            assert(a.filter(p) + b.filter(p).push(x) + old_desc.reverse().filter(p)
                =~= a.filter(p) + b.filter(p) + (seq![x] + old_desc.reverse().filter(p)));
        }
    }
}

proof fn lemma_merge_take_a<T: Ranked>(
    a0: Seq<T>, b0: Seq<T>, old_a: Seq<T>, a: Seq<T>, b: Seq<T>, x: T, old_desc: Seq<T>, desc: Seq<T>,
)
    requires
        merge_stable(a0, b0, old_a, b, old_desc),
        old_a == a.push(x),
        desc == old_desc.push(x),
        sorted_ranked(b),
        b.len() > 0 ==> !x.ranked_le(&b.last()),
    ensures
        merge_stable(a0, b0, a, b, desc),
{
    reveal(merge_stable);
    assert(desc.reverse() =~= seq![x] + old_desc.reverse());
    assert forall|z: T| #[trigger] same_rank(z) == same_rank(z) implies
        a0.filter(same_rank(z)) + b0.filter(same_rank(z))
            == a.filter(same_rank(z)) + b.filter(same_rank(z)) + desc.reverse().filter(same_rank(z)) by {
        let p = same_rank(z);
        assert(same_rank(z) == same_rank(z));
        a.lemma_filter_push(x, p);
        lemma_filter_prepend(x, old_desc.reverse(), p);
        if p(x) {
            if b.filter(p).len() > 0 {
                lemma_rank_below_last(b, z);
                T::lemma_ranked_trans(&x, &z, &b.last());
            }
            assert(a.filter(p).push(x) + b.filter(p) + old_desc.reverse().filter(p)
                =~= a.filter(p) + b.filter(p) + (seq![x] + old_desc.reverse().filter(p)));
        }
    }
}

proof fn lemma_merge_done<T: Ranked>(a0: Seq<T>, b0: Seq<T>, desc: Seq<T>)
    requires
        merge_stable(a0, b0, Seq::<T>::empty(), Seq::<T>::empty(), desc),
    ensures
        forall|x: T| #[trigger] desc.reverse().filter(same_rank(x)) == a0.filter(same_rank(x)) + b0.filter(same_rank(x)),
{
    reveal(merge_stable);
    assert forall|x: T| #[trigger] desc.reverse().filter(same_rank(x)) == a0.filter(same_rank(x)) + b0.filter(same_rank(x)) by {
        let p = same_rank(x);
        assert(same_rank(x) == same_rank(x));
        lemma_filter_empty(p);
        assert(Seq::<T>::empty() + Seq::<T>::empty() + desc.reverse().filter(p) =~= desc.reverse().filter(p));
    }
}

fn merge<T: Ranked>(a: Vec<T>, b: Vec<T>) -> (r: Vec<T>)
    requires
        sorted_ranked(a@),
        sorted_ranked(b@),
    ensures
        r@.to_multiset() == a@.to_multiset().add(b@.to_multiset()),
        sorted_ranked(r@),
        forall|x: T| #[trigger] r@.filter(same_rank(x)) == a@.filter(same_rank(x)) + b@.filter(same_rank(x)),
{
    let ghost total = a@.to_multiset().add(b@.to_multiset());
    let ghost a0 = a@;
    let ghost b0 = b@;
    let mut a = a;
    let mut b = b;
    let mut desc: Vec<T> = Vec::new();
    proof {
        assert(desc@.to_multiset() =~= Multiset::<T>::empty());
        lemma_merge_start(a0, b0);
    }
    while a.len() > 0 || b.len() > 0
        invariant
            sorted_ranked(a@),
            sorted_ranked(b@),
            forall|i: int, j: int| 0 <= i < j < desc@.len() ==> #[trigger] desc@[j].ranked_le(&desc@[i]),
            desc@.len() > 0 ==> forall|k: int| 0 <= k < a@.len() ==> #[trigger] a@[k].ranked_le(&desc@.last()),
            desc@.len() > 0 ==> forall|k: int| 0 <= k < b@.len() ==> #[trigger] b@[k].ranked_le(&desc@.last()),
            desc@.to_multiset().add(a@.to_multiset()).add(b@.to_multiset()) == total,
            merge_stable(a0, b0, a@, b@, desc@),
        decreases a.len() + b.len(),
    {
        let take_b = if a.len() == 0 {
            true
        } else if b.len() == 0 {
            false
        } else {
            a[a.len() - 1].ranked_le_exec(&b[b.len() - 1])
        };
        let ghost old_a = a@;
        let ghost old_b = b@;
        let ghost old_desc = desc@;
        if take_b {
            let x = b.pop().unwrap();
            proof {
                assert(old_b =~= b@.push(x));
                assert forall|k: int| 0 <= k < a@.len() implies #[trigger] a@[k].ranked_le(&x) by {
                    if k < a@.len() - 1 {
                        T::lemma_ranked_trans(&a@[k], &a@[a@.len() - 1], &x);
                    }
                }
                assert forall|k: int| 0 <= k < b@.len() implies #[trigger] b@[k].ranked_le(&x) by {
                    assert(old_b[k] == b@[k]);
                }
            }
            desc.push(x);
            proof {
                assert(desc@.last() == x);
                assert forall|i: int, j: int| 0 <= i < j < desc@.len() implies #[trigger] desc@[j].ranked_le(&desc@[i]) by {
                    if j == desc@.len() - 1 {
                        if i < old_desc.len() - 1 {
                            T::lemma_ranked_trans(&x, &old_desc.last(), &old_desc[i]);
                        }
                    } else {
                        assert(desc@[j] == old_desc[j]);
                    }
                }
                assert(desc@ =~= old_desc.push(x));
                lemma_merge_take_b(a0, b0, a@, old_b, b@, x, old_desc, desc@);
            }
        } else {
            let x = a.pop().unwrap();
            proof {
                assert(old_a =~= a@.push(x));
                assert forall|k: int| 0 <= k < b@.len() implies #[trigger] b@[k].ranked_le(&x) by {
                    T::lemma_ranked_total(&old_a.last(), &old_b.last());
                    if k < b@.len() - 1 {
                        T::lemma_ranked_trans(&b@[k], &b@[b@.len() - 1], &x);
                    }
                }
                assert forall|k: int| 0 <= k < a@.len() implies #[trigger] a@[k].ranked_le(&x) by {
                    assert(old_a[k] == a@[k]);
                }
            }
            desc.push(x);
            proof {
                assert(desc@.last() == x);
                assert forall|i: int, j: int| 0 <= i < j < desc@.len() implies #[trigger] desc@[j].ranked_le(&desc@[i]) by {
                    if j == desc@.len() - 1 {
                        if i < old_desc.len() - 1 {
                            T::lemma_ranked_trans(&x, &old_desc.last(), &old_desc[i]);
                        }
                    } else {
                        assert(desc@[j] == old_desc[j]);
                    }
                }
                assert(desc@ =~= old_desc.push(x));
                lemma_merge_take_a(a0, b0, old_a, a@, b@, x, old_desc, desc@);
            }
        }
    }
    proof {
        assert(a@.to_multiset() =~= Multiset::<T>::empty());
        assert(b@.to_multiset() =~= Multiset::<T>::empty());
        desc@.lemma_reverse_to_multiset();
    }
    let r = reverse_vec(desc);
    proof {
        assert forall|i: int, j: int| 0 <= i < j < r@.len() implies #[trigger] r@[i].ranked_le(&r@[j]) by {
            let n = r@.len() as int;
            assert(r@[i] == desc@[n - 1 - i]);
            assert(r@[j] == desc@[n - 1 - j]);
        }
        assert(a@ =~= Seq::<T>::empty());
        assert(b@ =~= Seq::<T>::empty());
        lemma_merge_done(a0, b0, desc@);
    }
    r
}

/// Sorts by the rank order; among equal ranks the earlier element stays first.
pub fn sort_ranked<T: Ranked>(v: Vec<T>) -> (r: Vec<T>)
    ensures
        r@.to_multiset() == v@.to_multiset(),
        sorted_ranked(r@),
        // stable: the elements of each rank keep their order
        forall|x: T| #[trigger] r@.filter(same_rank(x)) == v@.filter(same_rank(x)),
    decreases v.len(),
{
    if v.len() <= 1 {
        return v;
    }
    let ghost all = v@;
    let mut left = v;
    let mid = left.len() / 2;
    let right = left.split_off(mid);
    proof {
        assert(all =~= left@ + right@);
        vstd::seq_lib::lemma_multiset_commutative(left@, right@);
    }
    let ghost lv = left@;
    let ghost rv = right@;
    let l = sort_ranked(left);
    let r = sort_ranked(right);
    let m = merge(l, r);
    proof {
        assert forall|x: T| #[trigger] m@.filter(same_rank(x)) == all.filter(same_rank(x)) by {
            Seq::filter_distributes_over_add(lv, rv, same_rank(x));
        }
    }
    m
}


/// Lexicographic order on component lists, each component ordered as text:
/// the order of Rust's `Path` for paths made of names.
pub open spec fn comps_le(a: Seq<Seq<char>>, b: Seq<Seq<char>>) -> bool
    decreases a.len(),
{
    if a.len() == 0 {
        true
    } else if b.len() == 0 {
        false
    } else if a[0] != b[0] {
        lex_le(a[0], b[0])
    } else {
        comps_le(a.drop_first(), b.drop_first())
    }
}

pub proof fn lemma_comps_total(a: Seq<Seq<char>>, b: Seq<Seq<char>>)
    ensures
        comps_le(a, b) || comps_le(b, a),
    decreases a.len(),
{
    if a.len() > 0 && b.len() > 0 {
        if a[0] != b[0] {
            lemma_lex_total(a[0], b[0]);
        } else {
            lemma_comps_total(a.drop_first(), b.drop_first());
        }
    }
}

pub proof fn lemma_comps_trans(a: Seq<Seq<char>>, b: Seq<Seq<char>>, c: Seq<Seq<char>>)
    requires
        comps_le(a, b),
        comps_le(b, c),
    ensures
        comps_le(a, c),
    decreases a.len(),
{
    if a.len() > 0 && b.len() > 0 && c.len() > 0 {
        if a[0] == b[0] && b[0] == c[0] {
            lemma_comps_trans(a.drop_first(), b.drop_first(), c.drop_first());
        } else if a[0] == b[0] {
        } else if b[0] == c[0] {
        } else {
            lemma_lex_trans(a[0], b[0], c[0]);
            if a[0] == c[0] {
                lemma_lex_antisym(a[0], b[0]);
            }
        }
    }
}

pub proof fn lemma_comps_antisym(a: Seq<Seq<char>>, b: Seq<Seq<char>>)
    requires
        comps_le(a, b),
        comps_le(b, a),
    ensures
        a == b,
    decreases a.len(),
{
    if a.len() > 0 && b.len() > 0 {
        if a[0] != b[0] {
            lemma_lex_antisym(a[0], b[0]);
        } else {
            lemma_comps_antisym(a.drop_first(), b.drop_first());
            assert(a =~= seq![a[0]] + a.drop_first());
            assert(b =~= seq![b[0]] + b.drop_first());
        }
    }
}

/// Compares two component lists.
pub fn compare_comps(a: &Vec<Vec<char>>, b: &Vec<Vec<char>>) -> (r: Cmp)
    ensures
        r == Cmp::Equal <==> views(a@) == views(b@),
        r == Cmp::Less <==> comps_le(views(a@), views(b@)) && views(a@) != views(b@),
        r == Cmp::Greater <==> comps_le(views(b@), views(a@)) && views(a@) != views(b@),
{
    let ghost va = views(a@);
    let ghost vb = views(b@);
    let mut i: usize = 0;
    while i < a.len() && i < b.len()
        invariant
            va == views(a@),
            vb == views(b@),
            i <= a.len(),
            i <= b.len(),
            va.subrange(0, i as int) == vb.subrange(0, i as int),
        decreases a.len() - i,
    {
        let c = compare_chars(a[i].as_slice(), b[i].as_slice());
        proof {
            assert(va[i as int] == a@[i as int]@);
            assert(vb[i as int] == b@[i as int]@);
            lemma_comps_skip_common(va, vb, i as int);
            assert(va.skip(i as int)[0] == va[i as int]);
            assert(vb.skip(i as int)[0] == vb[i as int]);
            lemma_comps_total(va, vb);
            if va == vb { assert(va[i as int] == vb[i as int]); }
        }
        if c == Cmp::Less {
            return Cmp::Less;
        } else if c == Cmp::Greater {
            return Cmp::Greater;
        }
        proof {
            assert(va.subrange(0, i + 1) =~= va.subrange(0, i as int).push(va[i as int]));
            assert(vb.subrange(0, i + 1) =~= vb.subrange(0, i as int).push(vb[i as int]));
        }
        i = i + 1;
    }
    proof {
        lemma_comps_skip_common(va, vb, i as int);
        lemma_comps_total(va, vb);
    }
    if i < b.len() {
        proof { assert(va.len() != vb.len()); }
        Cmp::Less
    } else if i < a.len() {
        proof { assert(va.len() != vb.len()); }
        Cmp::Greater
    } else {
        proof {
            assert(va =~= va.subrange(0, i as int));
            assert(vb =~= vb.subrange(0, i as int));
        }
        Cmp::Equal
    }
}

proof fn lemma_comps_skip_common(a: Seq<Seq<char>>, b: Seq<Seq<char>>, i: int)
    requires
        0 <= i <= a.len(),
        i <= b.len(),
        a.subrange(0, i) == b.subrange(0, i),
    ensures
        comps_le(a, b) == comps_le(a.skip(i), b.skip(i)),
        comps_le(b, a) == comps_le(b.skip(i), a.skip(i)),
    decreases i,
{
    if i > 0 {
        assert(a[0] == a.subrange(0, i)[0]);
        assert(b[0] == b.subrange(0, i)[0]);
        assert(a.drop_first().subrange(0, i - 1) =~= a.subrange(0, i).drop_first());
        assert(b.drop_first().subrange(0, i - 1) =~= b.subrange(0, i).drop_first());
        lemma_comps_skip_common(a.drop_first(), b.drop_first(), i - 1);
        assert(a.drop_first().skip(i - 1) =~= a.skip(i));
        assert(b.drop_first().skip(i - 1) =~= b.skip(i));
    } else {
        assert(a.skip(0) =~= a);
        assert(b.skip(0) =~= b);
    }
}

/// One part of a sort key.
pub enum KeyPart {
    /// Text, in `str` order.
    Text(Vec<char>),
    /// A path's components, in `Path` order.
    Comps(Vec<Vec<char>>),
    /// A number, ascending.
    Up(usize),
    /// A number, descending.
    Down(usize),
}

/// The mathematical value of a key part.
pub enum PartValue {
    Text(Seq<char>),
    Comps(Seq<Seq<char>>),
    Up(nat),
    Down(nat),
}

pub open spec fn part_value(p: KeyPart) -> PartValue {
    match p {
        KeyPart::Text(t) => PartValue::Text(t@),
        KeyPart::Comps(c) => PartValue::Comps(views(c@)),
        KeyPart::Up(n) => PartValue::Up(n as nat),
        KeyPart::Down(n) => PartValue::Down(n as nat),
    }
}

pub open spec fn key_value(k: Seq<KeyPart>) -> Seq<PartValue> {
    k.map_values(|p: KeyPart| part_value(p))
}

pub open spec fn part_tag(p: PartValue) -> nat {
    match p {
        PartValue::Text(_) => 0,
        PartValue::Comps(_) => 1,
        PartValue::Up(_) => 2,
        PartValue::Down(_) => 3,
    }
}

/// Order of key parts; parts of different sorts are ordered by sort.
pub open spec fn part_le(a: PartValue, b: PartValue) -> bool {
    match (a, b) {
        (PartValue::Text(x), PartValue::Text(y)) => lex_le(x, y),
        (PartValue::Comps(x), PartValue::Comps(y)) => comps_le(x, y),
        (PartValue::Up(x), PartValue::Up(y)) => x <= y,
        (PartValue::Down(x), PartValue::Down(y)) => x >= y,
        _ => part_tag(a) <= part_tag(b),
    }
}

/// Lexicographic order of keys, part by part.
pub open spec fn key_le(a: Seq<PartValue>, b: Seq<PartValue>) -> bool
    decreases a.len(),
{
    if a.len() == 0 {
        true
    } else if b.len() == 0 {
        false
    } else if a[0] != b[0] {
        part_le(a[0], b[0])
    } else {
        key_le(a.drop_first(), b.drop_first())
    }
}

proof fn lemma_part_total(a: PartValue, b: PartValue)
    ensures
        part_le(a, b) || part_le(b, a),
{
    match (a, b) {
        (PartValue::Text(x), PartValue::Text(y)) => lemma_lex_total(x, y),
        (PartValue::Comps(x), PartValue::Comps(y)) => lemma_comps_total(x, y),
        _ => {},
    }
}

proof fn lemma_part_antisym(a: PartValue, b: PartValue)
    requires
        part_le(a, b),
        part_le(b, a),
    ensures
        a == b,
{
    match (a, b) {
        (PartValue::Text(x), PartValue::Text(y)) => lemma_lex_antisym(x, y),
        (PartValue::Comps(x), PartValue::Comps(y)) => lemma_comps_antisym(x, y),
        _ => {},
    }
}

proof fn lemma_part_trans(a: PartValue, b: PartValue, c: PartValue)
    requires
        part_le(a, b),
        part_le(b, c),
    ensures
        part_le(a, c),
{
    match (a, b, c) {
        (PartValue::Text(x), PartValue::Text(y), PartValue::Text(z)) => lemma_lex_trans(x, y, z),
        (PartValue::Comps(x), PartValue::Comps(y), PartValue::Comps(z)) => lemma_comps_trans(x, y, z),
        _ => {},
    }
}

pub proof fn lemma_key_total(a: Seq<PartValue>, b: Seq<PartValue>)
    ensures
        key_le(a, b) || key_le(b, a),
    decreases a.len(),
{
    if a.len() > 0 && b.len() > 0 {
        if a[0] != b[0] {
            lemma_part_total(a[0], b[0]);
        } else {
            lemma_key_total(a.drop_first(), b.drop_first());
        }
    }
}

pub proof fn lemma_key_trans(a: Seq<PartValue>, b: Seq<PartValue>, c: Seq<PartValue>)
    requires
        key_le(a, b),
        key_le(b, c),
    ensures
        key_le(a, c),
    decreases a.len(),
{
    if a.len() > 0 && b.len() > 0 && c.len() > 0 {
        if a[0] == b[0] && b[0] == c[0] {
            lemma_key_trans(a.drop_first(), b.drop_first(), c.drop_first());
        } else if a[0] == b[0] {
        } else if b[0] == c[0] {
        } else {
            lemma_part_trans(a[0], b[0], c[0]);
            if a[0] == c[0] {
                lemma_part_antisym(a[0], b[0]);
            }
        }
    }
}

fn compare_part(a: &KeyPart, b: &KeyPart) -> (r: Cmp)
    ensures
        r == Cmp::Equal <==> part_value(*a) == part_value(*b),
        r == Cmp::Less <==> part_le(part_value(*a), part_value(*b)) && part_value(*a) != part_value(*b),
        r == Cmp::Greater <==> part_le(part_value(*b), part_value(*a)) && part_value(*a) != part_value(*b),
{
    proof {
        lemma_part_total(part_value(*a), part_value(*b));
    }
    match (a, b) {
        (KeyPart::Text(x), KeyPart::Text(y)) => {
            let r = compare_chars(x.as_slice(), y.as_slice());
            proof { if x@ != y@ { assert(part_value(*a) != part_value(*b)); } }
            r
        },
        (KeyPart::Comps(x), KeyPart::Comps(y)) => {
            let r = compare_comps(x, y);
            proof { if views(x@) != views(y@) { assert(part_value(*a) != part_value(*b)); } }
            r
        },
        (KeyPart::Up(x), KeyPart::Up(y)) => {
            if *x < *y { Cmp::Less } else if *x == *y { Cmp::Equal } else { Cmp::Greater }
        },
        (KeyPart::Down(x), KeyPart::Down(y)) => {
            if *x > *y { Cmp::Less } else if *x == *y { Cmp::Equal } else { Cmp::Greater }
        },
        _ => {
            let ta = tag_exec(a);
            let tb = tag_exec(b);
            if ta < tb { Cmp::Less } else { Cmp::Greater }
        },
    }
}

fn tag_exec(p: &KeyPart) -> (r: u8)
    ensures
        r == part_tag(part_value(*p)),
{
    match p {
        KeyPart::Text(_) => 0,
        KeyPart::Comps(_) => 1,
        KeyPart::Up(_) => 2,
        KeyPart::Down(_) => 3,
    }
}

/// Whether key `a` may stand before key `b`.
pub fn key_le_exec(a: &Vec<KeyPart>, b: &Vec<KeyPart>) -> (r: bool)
    ensures
        r == key_le(key_value(a@), key_value(b@)),
{
    let ghost va = key_value(a@);
    let ghost vb = key_value(b@);
    let mut i: usize = 0;
    proof { assert(va.skip(0) =~= va); assert(vb.skip(0) =~= vb); }
    while i < a.len() && i < b.len()
        invariant
            va == key_value(a@),
            vb == key_value(b@),
            i <= a.len(),
            i <= b.len(),
            key_le(va, vb) == key_le(va.skip(i as int), vb.skip(i as int)),
        decreases a.len() - i,
    {
        let c = compare_part(&a[i], &b[i]);
        proof {
            assert(va.skip(i as int)[0] == va[i as int]);
            assert(vb.skip(i as int)[0] == vb[i as int]);
            assert(va.skip(i as int).drop_first() =~= va.skip(i + 1));
            assert(vb.skip(i as int).drop_first() =~= vb.skip(i + 1));
        }
        if c == Cmp::Less {
            return true;
        } else if c == Cmp::Greater {
            return false;
        }
        i = i + 1;
    }
    i == a.len()
}

/// An item with the key that orders it.
pub struct Keyed<T> {
    pub key: Vec<KeyPart>,
    pub item: T,
}

impl<T> Ranked for Keyed<T> {
    open spec fn ranked_le(&self, other: &Self) -> bool {
        key_le(key_value(self.key@), key_value(other.key@))
    }

    proof fn lemma_ranked_total(a: &Self, b: &Self) {
        lemma_key_total(key_value(a.key@), key_value(b.key@));
    }

    proof fn lemma_ranked_trans(a: &Self, b: &Self, c: &Self) {
        lemma_key_trans(key_value(a.key@), key_value(b.key@), key_value(c.key@));
    }

    fn ranked_le_exec(&self, other: &Self) -> (r: bool) {
        key_le_exec(&self.key, &other.key)
    }
}

/// Mapping both sides keeps equal multisets equal.
pub proof fn lemma_map_multiset<A, B>(a: Seq<A>, b: Seq<A>, f: spec_fn(A) -> B)
    requires
        a.to_multiset() == b.to_multiset(),
    ensures
        a.map_values(f).to_multiset() == b.map_values(f).to_multiset(),
    decreases a.len(),
{
    if a.len() == 0 {
        assert(a.to_multiset().len() == 0);
        assert(b.to_multiset().len() == 0);
        assert(b.len() == 0);
        assert(a.map_values(f) =~= b.map_values(f));
    } else {
        let x = a.last();
        let a2 = a.drop_last();
        assert(a =~= a2.push(x));
        assert(a.to_multiset().count(x) > 0);
        assert(b.contains(x));
        let k = choose|k: int| 0 <= k < b.len() && b[k] == x;
        let b2 = b.remove(k);
        assert(b2.to_multiset() == b.to_multiset().remove(x));
        assert(a2.to_multiset() =~= a.to_multiset().remove(x));
        lemma_map_multiset(a2, b2, f);
        let mb = b.map_values(f);
        assert(mb.remove(k) =~= b2.map_values(f));
        assert(mb.remove(k).to_multiset() == mb.to_multiset().remove(mb[k]));
        assert(a.map_values(f) =~= a2.map_values(f).push(f(x)));
        assert(mb.to_multiset().count(f(x)) > 0) by {
            assert(mb[k] == f(x));
            assert(mb.contains(f(x)));
        }
        assert(mb.to_multiset() =~= mb.to_multiset().remove(f(x)).insert(f(x)));
    }
}

/// Sorts items by their keys, keeping the order of items with equal keys.
/// The items come back as a permutation, ordered by key.
pub fn sort_keyed<T>(v: Vec<Keyed<T>>) -> (r: Vec<T>)
    ensures
        r@.to_multiset() == v@.map_values(|k: Keyed<T>| k.item).to_multiset(),
        exists|sorted: Seq<Keyed<T>>|
            sorted.to_multiset() == v@.to_multiset()
            && sorted_ranked(sorted)
            && (forall|x: Keyed<T>| #[trigger] sorted.filter(same_rank(x)) == v@.filter(same_rank(x)))
            && r@ == sorted.map_values(|k: Keyed<T>| k.item),
{
    let sorted = sort_ranked(v);
    let ghost gs = sorted@;
    let mut sorted = sorted;
    let mut rev: Vec<T> = Vec::new();
    while sorted.len() > 0
        invariant
            sorted.len() <= gs.len(),
            sorted@ == gs.subrange(0, sorted.len() as int),
            rev@ == gs.subrange(sorted.len() as int, gs.len() as int).map_values(|k: Keyed<T>| k.item).reverse(),
        decreases sorted.len(),
    {
        let k = sorted.pop().unwrap();
        rev.push(k.item);
        proof {
            assert(rev@ =~= gs.subrange(sorted.len() as int, gs.len() as int).map_values(|k: Keyed<T>| k.item).reverse());
        }
    }
    let r = reverse_vec(rev);
    proof {
        let m = gs.map_values(|k: Keyed<T>| k.item);
        assert(gs.subrange(0, gs.len() as int) =~= gs);
        assert(r@ =~= m);
        lemma_map_multiset(gs, v@, |k: Keyed<T>| k.item);
    }
    r
}


/// Every element's key may stand before every later element's key.
pub open spec fn sorted_by_key<T>(s: Seq<T>, key_of: spec_fn(T) -> Seq<PartValue>) -> bool {
    forall|i: int, j: int| 0 <= i < j < s.len() ==> key_le(#[trigger] key_of(s[i]), #[trigger] key_of(s[j]))
}

/// Sorts items whose keys are given by `key_of`.
pub(crate) fn sort_items<T>(v: Vec<Keyed<T>>, Ghost(key_of): Ghost<spec_fn(T) -> Seq<PartValue>>) -> (r: Vec<T>)
    requires
        forall|i: int| 0 <= i < v@.len() ==> key_value(#[trigger] v@[i].key@) == key_of(v@[i].item),
    ensures
        r@.to_multiset() == v@.map_values(|k: Keyed<T>| k.item).to_multiset(),
        sorted_by_key(r@, key_of),
{
    let ghost orig = v@;
    let r = sort_keyed(v);
    proof {
        let sorted = choose|sorted: Seq<Keyed<T>>|
            sorted.to_multiset() == orig.to_multiset()
            && sorted_ranked(sorted)
            && r@ == sorted.map_values(|k: Keyed<T>| k.item);
        assert forall|i: int| 0 <= i < sorted.len() implies key_value(#[trigger] sorted[i].key@) == key_of(sorted[i].item) by {
            assert(sorted.to_multiset().count(sorted[i]) > 0);
            assert(orig.contains(sorted[i]));
        }
        assert forall|i: int, j: int| 0 <= i < j < r@.len() implies key_le(#[trigger] key_of(r@[i]), #[trigger] key_of(r@[j])) by {
            assert(sorted[i].ranked_le(&sorted[j]));
            assert(r@[i] == sorted[i].item);
            assert(r@[j] == sorted[j].item);
            assert(key_value(sorted[i].key@) == key_of(sorted[i].item));
            assert(key_value(sorted[j].key@) == key_of(sorted[j].item));
        }
    }
    r
}


pub proof fn lemma_key_refl(a: Seq<PartValue>)
    ensures
        key_le(a, a),
    decreases a.len(),
{
    if a.len() > 0 {
        lemma_key_refl(a.drop_first());
    }
}

pub proof fn lemma_key_antisym(a: Seq<PartValue>, b: Seq<PartValue>)
    requires
        key_le(a, b),
        key_le(b, a),
    ensures
        a == b,
    decreases a.len(),
{
    if a.len() > 0 && b.len() > 0 {
        if a[0] != b[0] {
            lemma_part_antisym(a[0], b[0]);
        } else {
            lemma_key_antisym(a.drop_first(), b.drop_first());
            assert(a =~= seq![a[0]] + a.drop_first());
            assert(b =~= seq![b[0]] + b.drop_first());
        }
    }
}

/// The order that a key function induces on items.
pub open spec fn key_order<T>(key_of: spec_fn(T) -> Seq<PartValue>) -> spec_fn(T, T) -> bool {
    |a: T, b: T| key_le(key_of(a), key_of(b))
}

/// A key function that tells all items apart induces a total order.
pub proof fn lemma_key_order_total<T>(key_of: spec_fn(T) -> Seq<PartValue>)
    requires
        forall|a: T, b: T| #[trigger] key_of(a) == #[trigger] key_of(b) ==> a == b,
    ensures
        total_ordering(key_order(key_of)),
{
    let leq = key_order(key_of);
    assert forall|x: T| #[trigger] leq(x, x) by { lemma_key_refl(key_of(x)); }
    assert forall|x: T, y: T| #[trigger] leq(x, y) && #[trigger] leq(y, x) implies x == y by {
        lemma_key_antisym(key_of(x), key_of(y));
    }
    assert forall|x: T, y: T, z: T| #[trigger] leq(x, y) && #[trigger] leq(y, z) implies leq(x, z) by {
        lemma_key_trans(key_of(x), key_of(y), key_of(z));
    }
    assert forall|x: T, y: T| #[trigger] leq(x, y) || #[trigger] leq(y, x) by {
        lemma_key_total(key_of(x), key_of(y));
    }
}

/// Under an antisymmetric order, a list has one sorted arrangement.
pub proof fn lemma_sorted_unique<T>(a: Seq<T>, b: Seq<T>, leq: spec_fn(T, T) -> bool)
    requires
        total_ordering(leq),
        a.to_multiset() == b.to_multiset(),
        sorted_by(a, leq),
        sorted_by(b, leq),
    ensures
        a == b,
    decreases a.len(),
{
    assert(a.len() == a.to_multiset().len());
    assert(b.len() == b.to_multiset().len());
    if a.len() > 0 {
        assert(a.to_multiset().count(a[0]) > 0);
        assert(b.contains(a[0]));
        let k = choose|k: int| 0 <= k < b.len() && b[k] == a[0];
        assert(b.to_multiset().count(b[0]) > 0);
        assert(a.contains(b[0]));
        let m = choose|m: int| 0 <= m < a.len() && a[m] == b[0];
        if k > 0 {
            assert(leq(b[0], b[k]));
        }
        if m > 0 {
            assert(leq(a[0], a[m]));
        }
        assert(a[0] == b[0]);
        assert(a.remove(0) =~= a.drop_first());
        assert(b.remove(0) =~= b.drop_first());
        assert(a.remove(0).to_multiset() == a.to_multiset().remove(a[0]));
        assert(b.remove(0).to_multiset() == b.to_multiset().remove(b[0]));
        lemma_sorted_unique(a.drop_first(), b.drop_first(), leq);
        assert(a =~= seq![a[0]] + a.drop_first());
        assert(b =~= seq![b[0]] + b.drop_first());
    }
}

/// A sorted permutation under a key that tells items apart is the sorted
/// sequence.
pub proof fn lemma_is_sort_by<T>(r: Seq<T>, orig: Seq<T>, key_of: spec_fn(T) -> Seq<PartValue>)
    requires
        forall|a: T, b: T| #[trigger] key_of(a) == #[trigger] key_of(b) ==> a == b,
        r.to_multiset() == orig.to_multiset(),
        sorted_by_key(r, key_of),
    ensures
        r == orig.sort_by(key_order(key_of)),
{
    let leq = key_order(key_of);
    lemma_key_order_total(key_of);
    orig.lemma_sort_by_ensures(leq);
    assert(sorted_by(r, leq)) by {
        assert forall|i: int, j: int| 0 <= i < j < r.len() implies #[trigger] leq(r[i], r[j]) by {
            assert(key_le(key_of(r[i]), key_of(r[j])));
        }
    }
    lemma_sorted_unique(r, orig.sort_by(leq), leq);
}


/// A rearrangement of a list without repeats has no repeats.
pub proof fn lemma_permutation_no_duplicates<T>(a: Seq<T>, b: Seq<T>)
    requires
        a.to_multiset() == b.to_multiset(),
        b.no_duplicates(),
    ensures
        a.no_duplicates(),
{
    b.lemma_multiset_has_no_duplicates();
    a.lemma_multiset_has_no_duplicates_conv();
}

} // verus!
