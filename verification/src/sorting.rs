//! Stable insertion order, stated once for any strict weak order.

use vstd::prelude::*;
use vstd::multiset::Multiset;

verus! {

/// Inserts `x` into `s`: after every element it does not come before, so that
/// equal elements keep their order.
pub open spec fn insert_by<T>(s: Seq<T>, x: T, lt: spec_fn(T, T) -> bool) -> Seq<T>
    decreases s.len(),
{
    if s.len() == 0 {
        seq![x]
    } else if lt(x, s.last()) {
        insert_by(s.drop_last(), x, lt).push(s.last())
    } else {
        s.push(x)
    }
}

/// Stable sort of `s` by `lt` (`slice::sort_by` with the matching comparison).
pub open spec fn sort_by<T>(s: Seq<T>, lt: spec_fn(T, T) -> bool) -> Seq<T>
    decreases s.len(),
{
    if s.len() == 0 {
        seq![]
    } else {
        insert_by(sort_by(s.drop_last(), lt), s.last(), lt)
    }
}

/// `lt` is a strict weak order: irreflexive, transitive, and "not before" is transitive too.
pub open spec fn strict_weak<T>(lt: spec_fn(T, T) -> bool) -> bool {
    &&& forall|a: T| !(#[trigger] lt(a, a))
    &&& forall|a: T, b: T, c: T| #[trigger] lt(a, b) && #[trigger] lt(b, c) ==> lt(a, c)
    &&& forall|a: T, b: T, c: T| !(#[trigger] lt(a, b)) && !(#[trigger] lt(b, c)) ==> !lt(a, c)
}

/// No element comes before an element that precedes it in `s`.
pub open spec fn sorted_by<T>(s: Seq<T>, lt: spec_fn(T, T) -> bool) -> bool {
    forall|i: int, j: int| 0 <= i < j < s.len() ==> !lt(#[trigger] s[j], #[trigger] s[i])
}

/// `insert_by` puts `x` at position `p`: what comes before it is not after it, what comes after it is.
pub open spec fn insert_at<T>(s: Seq<T>, x: T, p: int) -> Seq<T> {
    s.take(p) + seq![x] + s.skip(p)
}

proof fn lemma_insert_shape<T>(s: Seq<T>, x: T, lt: spec_fn(T, T) -> bool)
    ensures
        exists|p: int|
            0 <= p <= s.len() && insert_by(s, x, lt) == insert_at(s, x, p) && (p > 0 ==> !lt(
                x,
                s[p - 1],
            )) && forall|j: int| p <= j < s.len() ==> lt(x, #[trigger] s[j]),
    decreases s.len(),
{
    if s.len() == 0 {
        assert(insert_by(s, x, lt) =~= insert_at(s, x, 0));
    } else if lt(x, s.last()) {
        lemma_insert_shape(s.drop_last(), x, lt);
        let p = choose|p: int|
            0 <= p <= s.drop_last().len() && insert_by(s.drop_last(), x, lt) == insert_at(
                s.drop_last(),
                x,
                p,
            ) && (p > 0 ==> !lt(x, s.drop_last()[p - 1])) && forall|j: int|
                p <= j < s.drop_last().len() ==> lt(x, #[trigger] s.drop_last()[j]);
        assert(insert_by(s, x, lt) =~= insert_at(s, x, p));
        assert forall|j: int| p <= j < s.len() implies lt(x, #[trigger] s[j]) by {
            if j < s.len() - 1 {
                assert(s[j] == s.drop_last()[j]);
            }
        }
    } else {
        let p = s.len() as int;
        assert(insert_by(s, x, lt) =~= insert_at(s, x, p));
    }
}

proof fn lemma_insert_sorted<T>(s: Seq<T>, x: T, lt: spec_fn(T, T) -> bool)
    requires
        strict_weak(lt),
        sorted_by(s, lt),
    ensures
        sorted_by(insert_by(s, x, lt), lt),
        insert_by(s, x, lt).to_multiset() == s.to_multiset().insert(x),
{
    lemma_insert_shape(s, x, lt);
    let p = choose|p: int|
        0 <= p <= s.len() && insert_by(s, x, lt) == insert_at(s, x, p) && (p > 0 ==> !lt(
            x,
            s[p - 1],
        )) && forall|j: int| p <= j < s.len() ==> lt(x, #[trigger] s[j]);
    let r = insert_at(s, x, p);
    assert forall|i: int, j: int| 0 <= i < j < r.len() implies !lt(#[trigger] r[j], #[trigger] r[i]) by {
        if j < p {
            assert(r[i] == s[i] && r[j] == s[j]);
        } else if j == p {
            assert(r[j] == x);
            assert(r[i] == s[i]);
            // x is not before s[p - 1], which is not before s[i].
            if i < p - 1 {
                assert(!lt(s[p - 1], s[i]));
            }
        } else if i < p {
            assert(r[i] == s[i] && r[j] == s[j - 1]);
        } else if i == p {
            assert(r[i] == x && r[j] == s[j - 1]);
            assert(lt(x, s[j - 1]));
            if lt(s[j - 1], x) {
                assert(lt(x, x));
            }
        } else {
            assert(r[i] == s[i - 1] && r[j] == s[j - 1]);
        }
    }
    assert(s =~= s.take(p) + s.skip(p));
    vstd::seq_lib::lemma_multiset_commutative(s.take(p), s.skip(p));
    vstd::seq_lib::lemma_multiset_commutative(s.take(p) + seq![x], s.skip(p));
    vstd::seq_lib::lemma_multiset_commutative(s.take(p), seq![x]);
    assert(seq![x].to_multiset() =~= Multiset::empty().insert(x)) by {
        broadcast use vstd::seq_lib::group_to_multiset_ensures;
        assert(seq![x] =~= Seq::<T>::empty().push(x));
    }
}

/// Law: `sort_by` returns its input reordered (same elements, same
/// multiplicities), sorted: no element is followed by one that comes before it.
pub proof fn law_sort_by<T>(s: Seq<T>, lt: spec_fn(T, T) -> bool)
    requires
        strict_weak(lt),
    ensures
        sorted_by(sort_by(s, lt), lt),
        sort_by(s, lt).to_multiset() == s.to_multiset(),
    decreases s.len(),
{
    broadcast use vstd::seq_lib::group_to_multiset_ensures;

    if s.len() == 0 {
        assert(sort_by(s, lt) =~= s);
    } else {
        law_sort_by(s.drop_last(), lt);
        lemma_insert_sorted(sort_by(s.drop_last(), lt), s.last(), lt);
        assert(s =~= s.drop_last().push(s.last()));
    }
}

/// Where `insert_by` puts `x`: after the last element it does not come before.
pub proof fn lemma_insert_at<T>(s: Seq<T>, x: T, lt: spec_fn(T, T) -> bool, p: int)
    requires
        0 <= p <= s.len(),
        p > 0 ==> !lt(x, s[p - 1]),
        forall|j: int| p <= j < s.len() ==> lt(x, #[trigger] s[j]),
    ensures
        insert_by(s, x, lt) == insert_at(s, x, p),
    decreases s.len(),
{
    if s.len() == 0 {
        assert(insert_by(s, x, lt) =~= insert_at(s, x, p));
    } else if p == s.len() {
        assert(insert_by(s, x, lt) =~= insert_at(s, x, p));
    } else {
        assert(lt(x, s[s.len() - 1]));
        assert forall|j: int| p <= j < s.drop_last().len() implies lt(
            x,
            #[trigger] s.drop_last()[j],
        ) by {
            assert(s.drop_last()[j] == s[j]);
        }
        if p > 0 {
            assert(s.drop_last()[p - 1] == s[p - 1]);
        }
        lemma_insert_at(s.drop_last(), x, lt, p);
        assert(insert_by(s, x, lt) =~= insert_at(s, x, p));
    }
}

// ---------------------------------------------------------------------------
// Lexicographic order of texts, as `str`'s `<` orders them (by code point).
// ---------------------------------------------------------------------------

/// `a` comes strictly before `b` in lexicographic order.
pub open spec fn lex_lt(a: Seq<char>, b: Seq<char>) -> bool
    decreases a.len(),
{
    if a.len() == 0 {
        b.len() > 0
    } else if b.len() == 0 {
        false
    } else if a[0] != b[0] {
        a[0] < b[0]
    } else {
        lex_lt(a.drop_first(), b.drop_first())
    }
}

proof fn lemma_lex_irreflexive(a: Seq<char>)
    ensures
        !lex_lt(a, a),
    decreases a.len(),
{
    if a.len() > 0 {
        lemma_lex_irreflexive(a.drop_first());
    }
}

proof fn lemma_lex_transitive(a: Seq<char>, b: Seq<char>, c: Seq<char>)
    requires
        lex_lt(a, b),
        lex_lt(b, c),
    ensures
        lex_lt(a, c),
    decreases a.len(),
{
    if a.len() > 0 && b.len() > 0 && c.len() > 0 && a[0] == b[0] && b[0] == c[0] {
        lemma_lex_transitive(a.drop_first(), b.drop_first(), c.drop_first());
    }
}

proof fn lemma_lex_total(a: Seq<char>, b: Seq<char>)
    ensures
        a == b || lex_lt(a, b) || lex_lt(b, a),
    decreases a.len(),
{
    if a.len() > 0 && b.len() > 0 && a[0] == b[0] {
        lemma_lex_total(a.drop_first(), b.drop_first());
        if a.drop_first() == b.drop_first() {
            assert(a =~= seq![a[0]] + a.drop_first());
            assert(b =~= seq![b[0]] + b.drop_first());
        }
    } else if a.len() == 0 && b.len() == 0 {
        assert(a =~= b);
    }
}

/// Law: lexicographic order is a strict total order: never `a < a`, transitive,
/// and of two different texts one comes first.
pub proof fn law_lex_order(a: Seq<char>, b: Seq<char>, c: Seq<char>)
    ensures
        !lex_lt(a, a),
        lex_lt(a, b) && lex_lt(b, c) ==> lex_lt(a, c),
        a == b || lex_lt(a, b) || lex_lt(b, a),
        !(lex_lt(a, b) && lex_lt(b, a)),
{
    lemma_lex_irreflexive(a);
    if lex_lt(a, b) && lex_lt(b, c) {
        lemma_lex_transitive(a, b, c);
    }
    lemma_lex_total(a, b);
    if lex_lt(a, b) && lex_lt(b, a) {
        lemma_lex_transitive(a, b, a);
    }
}

proof fn lemma_lex_skip(a: Seq<char>, b: Seq<char>, i: int)
    requires
        0 <= i <= a.len(),
        i <= b.len(),
        forall|q: int| 0 <= q < i ==> a[q] == b[q],
    ensures
        lex_lt(a, b) == lex_lt(a.skip(i), b.skip(i)),
    decreases i,
{
    if i == 0 {
        assert(a.skip(0) =~= a);
        assert(b.skip(0) =~= b);
    } else {
        lemma_lex_skip(a.drop_first(), b.drop_first(), i - 1);
        assert(a.drop_first().skip(i - 1) =~= a.skip(i));
        assert(b.drop_first().skip(i - 1) =~= b.skip(i));
    }
}

/// Compares two texts lexicographically.
pub fn lex_less(a: &[char], b: &[char]) -> (r: bool)
    ensures
        r == lex_lt(a@, b@),
{
    let mut i: usize = 0;
    while i < a.len() && i < b.len()
        invariant
            i <= a@.len(),
            i <= b@.len(),
            forall|q: int| 0 <= q < i ==> a@[q] == b@[q],
        decreases a.len() - i,
    {
        if a[i] != b[i] {
            proof {
                lemma_lex_skip(a@, b@, i as int);
                assert(a@.skip(i as int)[0] == a@[i as int]);
                assert(b@.skip(i as int)[0] == b@[i as int]);
            }
            return a[i] < b[i];
        }
        i = i + 1;
    }
    proof {
        lemma_lex_skip(a@, b@, i as int);
    }
    i < b.len()
}

// ---------------------------------------------------------------------------
// Executable stable sort.
// ---------------------------------------------------------------------------

/// Values with an order of precedence and an executable test of it.
pub trait Ranked: Sized {
    /// `a` is to be listed before `b`.
    spec fn before(a: Self, b: Self) -> bool;

    fn comes_before(&self, other: &Self) -> (r: bool)
        ensures
            r == Self::before(*self, *other),
    ;
}

/// The order of precedence of a `Ranked` type, as a relation.
pub open spec fn ranked<T: Ranked>() -> spec_fn(T, T) -> bool {
    |a: T, b: T| T::before(a, b)
}

/// Stable sort: the result is `sort_by` of the input under the type's precedence.
pub fn sort_ranked<T: Ranked>(v: Vec<T>) -> (r: Vec<T>)
    ensures
        r@ == sort_by(v@, ranked::<T>()),
{
    let ghost orig = v@;
    let mut v = v;
    let mut r: Vec<T> = Vec::new();
    let mut i: usize = 0;
    assert(orig.len() == v.len());
    assert(orig.take(0) =~= Seq::<T>::empty());
    assert(orig.skip(0) =~= orig);
    while v.len() > 0
        invariant
            i + v@.len() == orig.len(),
            orig.len() <= usize::MAX,
            v@ == orig.skip(i as int),
            r@ == sort_by(orig.take(i as int), ranked::<T>()),
        decreases v.len(),
    {
        let x = v.remove(0);
        assert(x == orig[i as int]);
        let mut p: usize = r.len();
        while p > 0 && x.comes_before(&r[p - 1])
            invariant
                p <= r@.len(),
                forall|j: int| p <= j < r@.len() ==> T::before(x, #[trigger] r@[j]),
            decreases p,
        {
            p = p - 1;
        }
        proof {
            lemma_insert_at(r@, x, ranked::<T>(), p as int);
            assert(orig.take(i + 1).drop_last() =~= orig.take(i as int));
        }
        r.insert(p, x);
        assert(r@ =~= insert_at(sort_by(orig.take(i as int), ranked::<T>()), x, p as int));
        i = i + 1;
        assert(v@ =~= orig.skip(i as int));
    }
    assert(orig.take(orig.len() as int) =~= orig);
    r
}

} // verus!
