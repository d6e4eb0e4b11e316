//! Speaker labels: who speaks when.
//!
//! The clustering step hands out arbitrary internal indices. They are renumbered
//! 0, 1, 2... in order of first appearance, so that the interface shows
//! "Hablante 1" and "Hablante 2" and not the clusterer's numbers.

use vstd::prelude::*;

verus! {

/// The distinct labels, in order of first appearance.
pub open spec fn first_seen(labels: Seq<i32>) -> Seq<i32>
    decreases labels.len(),
{
    if labels.len() == 0 {
        seq![]
    } else {
        let init = first_seen(labels.drop_last());
        if init.contains(labels.last()) {
            init
        } else {
            init.push(labels.last())
        }
    }
}

/// Index of the first occurrence of `x` in `s` (or `s.len()` when absent).
pub open spec fn position(s: Seq<i32>, x: i32) -> int
    decreases s.len(),
{
    if s.len() == 0 {
        0
    } else if s[0] == x {
        0
    } else {
        1 + position(s.drop_first(), x)
    }
}

/// The label each entry gets: the rank of its speaker's first appearance.
pub open spec fn renumbered(labels: Seq<i32>) -> Seq<int> {
    Seq::new(labels.len(), |q: int| position(first_seen(labels.take(q + 1)), labels[q]))
}

proof fn lemma_position(s: Seq<i32>, x: i32)
    ensures
        0 <= position(s, x) <= s.len(),
        s.contains(x) ==> position(s, x) < s.len() && s[position(s, x)] == x,
        s.contains(x) ==> forall|k: int| 0 <= k < position(s, x) ==> s[k] != x,
        !s.contains(x) ==> position(s, x) == s.len(),
    decreases s.len(),
{
    if s.len() > 0 && s[0] != x {
        lemma_position(s.drop_first(), x);
        if s.contains(x) {
            let k = choose|k: int| 0 <= k < s.len() && s[k] == x;
            assert(s.drop_first()[k - 1] == x);
        }
        if s.drop_first().contains(x) {
            let k = choose|k: int| 0 <= k < s.drop_first().len() && s.drop_first()[k] == x;
            assert(s[k + 1] == x);
        }
        assert forall|k: int| 0 <= k < position(s, x) && s.contains(x) implies s[k] != x by {
            if k > 0 {
                assert(s[k] == s.drop_first()[k - 1]);
            }
        }
    }
}

/// The distinct labels have no repeats and are exactly the labels that occur.
proof fn lemma_first_seen(labels: Seq<i32>)
    ensures
        first_seen(labels).no_duplicates(),
        forall|x: i32| #[trigger] first_seen(labels).contains(x) <==> labels.contains(x),
    decreases labels.len(),
{
    if labels.len() > 0 {
        let init = first_seen(labels.drop_last());
        lemma_first_seen(labels.drop_last());
        assert forall|x: i32| #[trigger] first_seen(labels).contains(x) <==> labels.contains(x) by {
            if labels.contains(x) && x != labels.last() {
                let k = choose|k: int| 0 <= k < labels.len() && labels[k] == x;
                assert(labels.drop_last().contains(x)) by {
                    assert(labels.drop_last()[k] == x);
                }
            }
            if labels.drop_last().contains(x) {
                let k = choose|k: int| 0 <= k < labels.drop_last().len() && labels.drop_last()[k]
                    == x;
                assert(labels[k] == x);
            }
            if !init.contains(labels.last()) && first_seen(labels).contains(x) {
                let k = choose|k: int| 0 <= k < first_seen(labels).len() && first_seen(labels)[k]
                    == x;
                if k < init.len() {
                    assert(init[k] == x);
                }
            }
            if !init.contains(labels.last()) && init.contains(x) {
                let k = choose|k: int| 0 <= k < init.len() && init[k] == x;
                assert(first_seen(labels)[k] == x);
            }
            if x == labels.last() {
                assert(labels[labels.len() - 1] == x);
                if !init.contains(x) {
                    assert(first_seen(labels)[init.len() as int] == x);
                }
            }
        }
    }
}

/// Law: renumbering keeps who is who. Two entries get the same number exactly
/// when they had the same label, the numbers are `0..k` for `k` distinct
/// speakers, and a speaker seen for the first time gets the next unused number.
pub proof fn law_renumber(labels: Seq<i32>, p: int, q: int)
    requires
        0 <= p < labels.len(),
        0 <= q < labels.len(),
    ensures
        (renumbered(labels)[p] == renumbered(labels)[q]) <==> (labels[p] == labels[q]),
        0 <= renumbered(labels)[q] < first_seen(labels).len(),
        !labels.take(q).contains(labels[q]) ==> renumbered(labels)[q] == first_seen(
            labels.take(q),
        ).len(),
{
    lemma_prefix_consistent(labels, p + 1);
    lemma_prefix_consistent(labels, q + 1);
    lemma_prefix_consistent(labels, labels.len() as int);
    let all = first_seen(labels);
    lemma_first_seen(labels);
    assert(labels.take(labels.len() as int) =~= labels);
    assert(labels.contains(labels[p]));
    assert(labels.contains(labels[q]));
    lemma_position(all, labels[p]);
    lemma_position(all, labels[q]);
    if renumbered(labels)[p] == renumbered(labels)[q] {
        assert(all[position(all, labels[p])] == labels[p]);
    }
    let pre = labels.take(q);
    assert(labels.take(q + 1).drop_last() =~= pre);
    if !pre.contains(labels[q]) {
        lemma_first_seen(pre);
        assert(!first_seen(pre).contains(labels[q]));
        let fq = first_seen(labels.take(q + 1));
        assert(fq == first_seen(pre).push(labels[q]));
        lemma_position(fq, labels[q]);
        lemma_position(first_seen(pre), labels[q]);
        assert forall|k: int| 0 <= k < first_seen(pre).len() implies fq[k] != labels[q] by {
            assert(fq[k] == first_seen(pre)[k]);
        }
        assert(fq[first_seen(pre).len() as int] == labels[q]);
    }
}

/// Each entry's number is its label's position among all distinct labels.
proof fn lemma_prefix_consistent(labels: Seq<i32>, k: int)
    requires
        0 <= k <= labels.len(),
    ensures
        forall|q: int|
            0 <= q < k ==> #[trigger] renumbered(labels)[q] == position(first_seen(labels), labels[q]),
{
    assert forall|q: int| 0 <= q < k implies #[trigger] renumbered(labels)[q] == position(
        first_seen(labels),
        labels[q],
    ) by {
        lemma_number_stable(labels, q);
    }
}

/// An entry's number does not change as later entries are seen.
proof fn lemma_number_stable(labels: Seq<i32>, q: int)
    requires
        0 <= q < labels.len(),
    ensures
        position(first_seen(labels.take(q + 1)), labels[q]) == position(
            first_seen(labels),
            labels[q],
        ),
{
    lemma_prefix_tail(labels, q + 1);
    let f = first_seen(labels.take(q + 1));
    let fl = first_seen(labels);
    lemma_first_seen(labels.take(q + 1));
    assert(labels.take(q + 1).contains(labels[q])) by {
        assert(labels.take(q + 1)[q] == labels[q]);
    }
    lemma_position(f, labels[q]);
    lemma_position(fl, labels[q]);
    let i = position(f, labels[q]);
    assert(fl[i] == labels[q]);
    assert(fl.contains(labels[q]));
    assert forall|k: int| 0 <= k < i implies fl[k] != labels[q] by {
        assert(fl[k] == f[k]);
    }
    if position(fl, labels[q]) < i {
        assert(fl[position(fl, labels[q])] == labels[q]);
    }
}

/// The distinct labels of any prefix are a prefix of the distinct labels of the whole.
proof fn lemma_prefix_tail(labels: Seq<i32>, k: int)
    requires
        0 <= k <= labels.len(),
    ensures
        first_seen(labels.take(k)).len() <= first_seen(labels).len(),
        first_seen(labels.take(k)) == first_seen(labels).take(first_seen(labels.take(k)).len() as int),
    decreases labels.len() - k,
{
    if k < labels.len() {
        lemma_prefix_tail(labels, k + 1);
        let a = labels.take(k);
        let b = labels.take(k + 1);
        assert(b.drop_last() =~= a);
        let fa = first_seen(a);
        let fb = first_seen(b);
        let fl = first_seen(labels);
        if !fa.contains(b.last()) {
            assert(fa =~= fb.take(fa.len() as int));
        }
    } else {
        assert(labels.take(k) =~= labels);
        assert(first_seen(labels).take(first_seen(labels).len() as int) =~= first_seen(labels));
    }
}

/// Index of `x` in `seen`, or `seen.len()` when absent.
fn find(seen: &Vec<i32>, x: i32) -> (r: usize)
    ensures
        r == position(seen@, x),
{
    let mut i: usize = 0;
    assert(seen@.skip(0) =~= seen@);
    while i < seen.len()
        invariant
            i <= seen@.len(),
            position(seen@, x) == i + position(seen@.skip(i as int), x),
        decreases seen.len() - i,
    {
        if seen[i] == x {
            return i;
        }
        assert(seen@.skip(i as int).drop_first() =~= seen@.skip(i + 1));
        i = i + 1;
    }
    i
}

/// Renumbers speaker labels to 0, 1, 2... by order of first appearance.
pub fn renumber(labels: &mut Vec<i32>)
    ensures
        final(labels)@.len() == old(labels)@.len(),
        forall|q: int|
            0 <= q < old(labels)@.len() ==> #[trigger] final(labels)@[q] == renumbered(
                old(labels)@,
            )[q] as i32,
{
    let ghost orig = labels@;
    let mut seen: Vec<i32> = Vec::new();
    let mut q: usize = 0;
    while q < labels.len()
        invariant
            labels@.len() == orig.len(),
            q <= orig.len(),
            seen@ == first_seen(orig.take(q as int)),
            forall|k: int| q <= k < orig.len() ==> #[trigger] labels@[k] == orig[k],
            forall|k: int| 0 <= k < q ==> #[trigger] labels@[k] == renumbered(orig)[k] as i32,
        decreases orig.len() - q,
    {
        let x = labels[q];
        let ghost pre = orig.take(q as int);
        assert(orig.take(q + 1).drop_last() =~= pre);
        assert(orig.take(q + 1).last() == x);
        proof {
            lemma_position(seen@, x);
        }
        let mut idx = find(&seen, x);
        if idx == seen.len() {
            seen.push(x);
            proof {
                lemma_position(seen@, x);
                assert forall|k: int| 0 <= k < idx implies seen@[k] != x by {
                    assert(seen@[k] == first_seen(pre)[k]);
                }
                assert(seen@[idx as int] == x);
            }
        }
        proof {
            lemma_position(seen@, x);
        }
        assert(idx == position(first_seen(orig.take(q + 1)), x));
        labels.set(q, idx as i32);
        q = q + 1;
    }
}

/// Number of distinct labels.
pub fn count_distinct(labels: &[i32]) -> (r: usize)
    ensures
        r == labels@.to_set().len(),
{
    let mut seen: Vec<i32> = Vec::new();
    let mut q: usize = 0;
    while q < labels.len()
        invariant
            q <= labels@.len(),
            seen@ == first_seen(labels@.take(q as int)),
        decreases labels.len() - q,
    {
        let x = labels[q];
        assert(labels@.take(q + 1).drop_last() =~= labels@.take(q as int));
        proof {
            lemma_position(seen@, x);
        }
        let idx = find(&seen, x);
        if idx == seen.len() {
            seen.push(x);
        }
        q = q + 1;
    }
    assert(labels@.take(labels@.len() as int) =~= labels@);
    proof {
        lemma_first_seen(labels@);
        seen@.unique_seq_to_set();
        assert(seen@.to_set() =~= labels@.to_set());
    }
    seen.len()
}

/// The speakers that a list of optional labels names.
pub open spec fn named(speakers: Seq<Option<i32>>) -> Seq<i32>
    decreases speakers.len(),
{
    if speakers.len() == 0 {
        seq![]
    } else {
        match speakers.last() {
            Some(s) => named(speakers.drop_last()).push(s),
            None => named(speakers.drop_last()),
        }
    }
}

/// Number of distinct speakers among blocks that have one.
pub fn count_speakers(speakers: &[Option<i32>]) -> (r: usize)
    ensures
        r == named(speakers@).to_set().len(),
{
    let mut v: Vec<i32> = Vec::new();
    let mut i: usize = 0;
    while i < speakers.len()
        invariant
            i <= speakers@.len(),
            v@ == named(speakers@.take(i as int)),
        decreases speakers.len() - i,
    {
        assert(speakers@.take(i + 1).drop_last() =~= speakers@.take(i as int));
        match speakers[i] {
            Some(s) => v.push(s),
            None => {},
        }
        i = i + 1;
    }
    assert(speakers@.take(speakers@.len() as int) =~= speakers@);
    count_distinct(v.as_slice())
}

} // verus!
