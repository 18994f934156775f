//! Bounded selection of the best candidates with a binary heap.
//!
//! The heap keeps the worst held candidate at its root, so that a new
//! candidate is compared with the root alone. When all candidates are in,
//! the heap is sorted in place, best first.

use vstd::prelude::*;
use vstd::multiset::*;
use vstd::seq_lib::*;
use crate::similarity::{Distance, ScoreIndex};

verus! {

/// Best first: no candidate is followed by a strictly better one.
pub open spec fn sorted_best_first(s: Seq<ScoreIndex>, metric: Distance) -> bool {
    forall|i: int, j: int| 0 <= i <= j < s.len() ==> s[i].key(metric) <= s[j].key(metric)
}

/// `out` holds the `k` best of `input`, best first: it has `min(k, n)`
/// candidates, all taken from `input`, each as often as it occurs there at
/// most, and no candidate left out is strictly better than one taken.
/// Which of several candidates with the same key is taken is left open.
pub open spec fn is_top_k(
    input: Seq<ScoreIndex>,
    k: nat,
    metric: Distance,
    out: Seq<ScoreIndex>,
) -> bool {
    &&& out.len() == if k <= input.len() { k } else { input.len() }
    &&& sorted_best_first(out, metric)
    &&& out.to_multiset().subset_of(input.to_multiset())
    &&& forall|x: ScoreIndex, j: int|
        input.to_multiset().sub(out.to_multiset()).contains(x) && 0 <= j < out.len()
            ==> out[j].key(metric) <= x.key(metric)
}

/// The first `n` entries form a heap with the worst candidate at the root.
pub open spec fn is_heap(s: Seq<ScoreIndex>, metric: Distance, n: int) -> bool {
    forall|i: int| 1 <= i < n ==> s[(i - 1) / 2].key(metric) >= (#[trigger] s[i]).key(metric)
}

proof fn lemma_root_is_worst(s: Seq<ScoreIndex>, metric: Distance, n: int, i: int)
    requires
        is_heap(s, metric, n),
        0 <= i < n <= s.len(),
    ensures
        s[i].key(metric) <= s[0].key(metric),
    decreases i,
{
    if i > 0 {
        lemma_root_is_worst(s, metric, n, (i - 1) / 2);
    }
}

proof fn lemma_swap_keeps_multiset(s: Seq<ScoreIndex>, i: int, j: int)
    requires
        0 <= i < s.len(),
        0 <= j < s.len(),
    ensures
        s.update(i, s[j]).update(j, s[i]).to_multiset() == s.to_multiset(),
{
    broadcast use group_multiset_axioms, group_to_multiset_ensures;
    to_multiset_update(s, i, s[j]);
    to_multiset_update(s.update(i, s[j]), j, s[i]);
    assert(s.to_multiset().count(s[i]) > 0);
    assert(s.to_multiset().count(s[j]) > 0);
    assert(s.update(i, s[j]).update(j, s[i]).to_multiset() =~= s.to_multiset());
}

/// Two sequences with the same candidates have the same bound on their keys.
proof fn lemma_bound_carries_over(a: Seq<ScoreIndex>, b: Seq<ScoreIndex>, metric: Distance, bound: u32)
    requires
        a.to_multiset() == b.to_multiset(),
        forall|i: int| 0 <= i < a.len() ==> (#[trigger] a[i]).key(metric) <= bound,
    ensures
        forall|i: int| 0 <= i < b.len() ==> (#[trigger] b[i]).key(metric) <= bound,
{
    broadcast use group_to_multiset_ensures;
    assert forall|i: int| 0 <= i < b.len() implies (#[trigger] b[i]).key(metric) <= bound by {
        assert(b.contains(b[i]));
        assert(b.to_multiset().count(b[i]) > 0);
        assert(a.contains(b[i]));
        let j = choose|j: int| 0 <= j < a.len() && a[j] == b[i];
        assert(a[j].key(metric) <= bound);
    }
}

fn swap_entries(h: &mut Vec<ScoreIndex>, i: usize, j: usize)
    requires
        i < old(h)@.len(),
        j < old(h)@.len(),
    ensures
        final(h)@ == old(h)@.update(i as int, old(h)@[j as int]).update(j as int, old(h)@[i as int]),
        final(h)@.to_multiset() == old(h)@.to_multiset(),
{
    proof {
        lemma_swap_keeps_multiset(h@, i as int, j as int);
    }
    let a = h[i];
    let b = h[j];
    h[i] = b;
    h[j] = a;
}

/// Moves the last entry up until its parent is no better than it.
fn sift_up(h: &mut Vec<ScoreIndex>, metric: Distance)
    requires
        old(h)@.len() > 0,
        is_heap(old(h)@, metric, old(h)@.len() - 1),
    ensures
        final(h)@.len() == old(h)@.len(),
        is_heap(final(h)@, metric, final(h)@.len() as int),
        final(h)@.to_multiset() == old(h)@.to_multiset(),
{
    let n = h.len();
    let mut pos: usize = n - 1;
    loop
        invariant
            n == h@.len(),
            n == old(h)@.len(),
            pos < n,
            h@.to_multiset() == old(h)@.to_multiset(),
            forall|i: int| 1 <= i < n && i != pos ==> h@[(i - 1) / 2].key(metric) >= (#[trigger] h@[i]).key(metric),
            forall|i: int| 1 <= i < n && (i - 1) / 2 == pos && pos > 0 ==> h@[(pos - 1) / 2].key(metric) >= (#[trigger] h@[i]).key(metric),
        ensures
            n == h@.len(),
            h@.to_multiset() == old(h)@.to_multiset(),
            is_heap(h@, metric, n as int),
        decreases pos,
    {
        if pos == 0 {
            break;
        }
        let parent: usize = (pos - 1) / 2;
        if !h[parent].better_than(&h[pos], metric) {
            break;
        }
        swap_entries(h, pos, parent);
        pos = parent;
    }
}

/// Moves the root of the first `end` entries down until neither child is
/// worse than it.
fn sift_down(h: &mut Vec<ScoreIndex>, metric: Distance, end: usize)
    requires
        0 < end <= old(h)@.len(),
        forall|i: int| 1 <= i < end && (i - 1) / 2 != 0 ==> old(h)@[(i - 1) / 2].key(metric) >= (#[trigger] old(h)@[i]).key(metric),
    ensures
        final(h)@.len() == old(h)@.len(),
        is_heap(final(h)@, metric, end as int),
        final(h)@.take(end as int).to_multiset() == old(h)@.take(end as int).to_multiset(),
        final(h)@.skip(end as int) == old(h)@.skip(end as int),
{
    let mut pos: usize = 0;
    let half: usize = end / 2;
    loop
        invariant
            half == end / 2,
            pos < end <= h@.len(),
            h@.len() == old(h)@.len(),
            h@.take(end as int).to_multiset() == old(h)@.take(end as int).to_multiset(),
            h@.skip(end as int) == old(h)@.skip(end as int),
            forall|i: int| 1 <= i < end && (i - 1) / 2 != pos ==> h@[(i - 1) / 2].key(metric) >= (#[trigger] h@[i]).key(metric),
            forall|i: int| 1 <= i < end && (i - 1) / 2 == pos && pos > 0 ==> h@[(pos - 1) / 2].key(metric) >= (#[trigger] h@[i]).key(metric),
        ensures
            h@.len() == old(h)@.len(),
            h@.take(end as int).to_multiset() == old(h)@.take(end as int).to_multiset(),
            h@.skip(end as int) == old(h)@.skip(end as int),
            is_heap(h@, metric, end as int),
        decreases end - pos,
    {
        if pos >= half {
            break;
        }
        let left: usize = 2 * pos + 1;
        let right: usize = left + 1;
        let worse: usize = if right < end && h[left].better_than(&h[right], metric) {
            right
        } else {
            left
        };
        if !h[pos].better_than(&h[worse], metric) {
            break;
        }
        let ghost before = h@;
        swap_entries(h, pos, worse);
        proof {
            lemma_swap_keeps_multiset(before.take(end as int), pos as int, worse as int);
            assert(h@.take(end as int) =~= before.take(end as int).update(
                pos as int,
                before.take(end as int)[worse as int],
            ).update(worse as int, before.take(end as int)[pos as int]));
            assert(h@.skip(end as int) =~= before.skip(end as int));
        }
        pos = worse;
    }
}

/// From `from` on, no entry is followed by a strictly better one.
spec fn sorted_from(s: Seq<ScoreIndex>, metric: Distance, from: int) -> bool {
    forall|i: int, j: int|
        #![trigger s[i], s[j]]
        from <= i <= j < s.len() ==> s[i].key(metric) <= s[j].key(metric)
}

/// No entry before `end` is worse than one at or after it.
spec fn split_at(s: Seq<ScoreIndex>, metric: Distance, end: int) -> bool {
    forall|i: int, j: int|
        #![trigger s[i], s[j]]
        0 <= i < end <= j < s.len() ==> s[i].key(metric) <= s[j].key(metric)
}

/// One step of the in-place sort: the root of the first `end` entries has
/// gone to the place `end - 1`, and the entries before it were rearranged.
proof fn lemma_sort_step(
    before: Seq<ScoreIndex>,
    swapped: Seq<ScoreIndex>,
    after: Seq<ScoreIndex>,
    metric: Distance,
    end: int,
)
    requires
        1 < end <= before.len(),
        before.len() == swapped.len() == after.len(),
        is_heap(before, metric, end),
        sorted_from(before, metric, end),
        split_at(before, metric, end),
        swapped == before.update(0, before[end - 1]).update(end - 1, before[0]),
        after.take(end - 1).to_multiset() == swapped.take(end - 1).to_multiset(),
        after.skip(end - 1) == swapped.skip(end - 1),
    ensures
        sorted_from(after, metric, end - 1),
        split_at(after, metric, end - 1),
        after.to_multiset() == swapped.to_multiset(),
{
    let last = end - 1;
    let worst = before[0];
    assert forall|j: int| last <= j < after.len() implies after[j] == swapped[j] by {
        assert(after[j] == after.skip(last)[j - last]);
        assert(swapped[j] == swapped.skip(last)[j - last]);
    }
    assert forall|i: int| 0 <= i < swapped.take(last).len() implies (#[trigger] swapped.take(
        last,
    )[i]).key(metric) <= worst.key(metric) by {
        if i == 0 {
            lemma_root_is_worst(before, metric, end, last);
        } else {
            lemma_root_is_worst(before, metric, end, i);
        }
    }
    lemma_bound_carries_over(swapped.take(last), after.take(last), metric, worst.key(metric));
    assert forall|i: int, j: int| 0 <= i < last <= j < after.len() implies after[i].key(metric)
        <= after[j].key(metric) by {
        assert(after[i] == after.take(last)[i]);
        if j > last {
            assert(before[0].key(metric) <= before[j].key(metric));
        }
    }
    assert forall|i: int, j: int| last <= i <= j < after.len() implies after[i].key(metric)
        <= after[j].key(metric) by {
        if i == last && j > last {
            assert(before[0].key(metric) <= before[j].key(metric));
        } else if i > last {
            assert(before[i].key(metric) <= before[j].key(metric));
        }
    }
    lemma_multiset_commutative(after.take(last), after.skip(last));
    lemma_multiset_commutative(swapped.take(last), swapped.skip(last));
    assert(after =~= after.take(last) + after.skip(last));
    assert(swapped =~= swapped.take(last) + swapped.skip(last));
}

/// Sorts a heap in place, best first.
fn sort_heap(h: &mut Vec<ScoreIndex>, metric: Distance)
    requires
        is_heap(old(h)@, metric, old(h)@.len() as int),
    ensures
        final(h)@.len() == old(h)@.len(),
        final(h)@.to_multiset() == old(h)@.to_multiset(),
        sorted_best_first(final(h)@, metric),
{
    let n = h.len();
    let mut end: usize = n;
    while end > 1
        invariant
            end <= n,
            n == h@.len(),
            n == old(h)@.len(),
            h@.to_multiset() == old(h)@.to_multiset(),
            is_heap(h@, metric, end as int),
            sorted_from(h@, metric, end as int),
            split_at(h@, metric, end as int),
        decreases end,
    {
        let ghost before = h@;
        let last: usize = end - 1;
        swap_entries(h, 0, last);
        let ghost swapped = h@;
        sift_down(h, metric, last);
        proof {
            lemma_sort_step(before, swapped, h@, metric, end as int);
        }
        end = last;
    }
    proof {
        assert forall|i: int, j: int| 0 <= i <= j < h@.len() implies h@[i].key(metric) <= h@[j].key(
            metric,
        ) by {
            if i >= end {
                assert(sorted_from(h@, metric, end as int));
            } else if j >= end {
                assert(split_at(h@, metric, end as int));
            }
        }
    }
}

/// The `k` best of the candidates under a metric, best first.
///
/// Every candidate is looked at once; at most `k` are held at any time.
pub fn select_top_k(candidates: &[ScoreIndex], k: usize, metric: Distance) -> (out: Vec<ScoreIndex>)
    ensures
        is_top_k(candidates@, k as nat, metric, out@),
{
    let n = candidates.len();
    let mut heap: Vec<ScoreIndex> = Vec::new();
    let ghost mut dropped: Multiset<ScoreIndex> = Multiset::empty();
    let mut i: usize = 0;
    proof {
        broadcast use group_multiset_axioms, group_to_multiset_ensures;
        assert(candidates@.take(0) =~= Seq::<ScoreIndex>::empty());
        assert(heap@.to_multiset().add(dropped) =~= candidates@.take(0).to_multiset());
    }
    while i < n
        invariant
            i <= n,
            n == candidates@.len(),
            heap@.len() == if k <= i { k } else { i },
            is_heap(heap@, metric, heap@.len() as int),
            heap@.to_multiset().add(dropped) == candidates@.take(i as int).to_multiset(),
            heap@.len() < k ==> dropped.len() == 0,
            forall|x: ScoreIndex, j: int|
                dropped.contains(x) && 0 <= j < heap@.len() ==> heap@[j].key(metric) <= x.key(
                    metric,
                ),
        decreases n - i,
    {
        let c = candidates[i];
        let ghost before = heap@;
        let ghost dropped_before = dropped;
        proof {
            assert(candidates@.take(i + 1) =~= candidates@.take(i as int).push(c));
            to_multiset_build(candidates@.take(i as int), c);
            assert forall|j: int| 0 <= j < before.len() implies (#[trigger] before[j]).key(metric)
                <= before[0].key(metric) by {
                lemma_root_is_worst(before, metric, before.len() as int, j);
            }
        }
        if heap.len() < k {
            heap.push(c);
            sift_up(&mut heap, metric);
            proof {
                broadcast use group_multiset_axioms;
                to_multiset_build(before, c);
                assert(heap@.to_multiset().add(dropped) =~= candidates@.take(i + 1).to_multiset());
                assert forall|x: ScoreIndex| !dropped.contains(x) by {
                    if dropped.count(x) > 0 {
                        assert(dropped.len() > 0) by {
                            assert(dropped =~= dropped.remove(x).insert(x));
                        }
                    }
                }
            }
        } else if k > 0 && c.better_than(&heap[0], metric) {
            let ghost root = heap@[0];
            heap[0] = c;
            let ghost replaced = heap@;
            sift_down(&mut heap, metric, k);
            proof {
                broadcast use group_multiset_axioms;
                dropped = dropped.insert(root);
                assert(replaced.take(k as int) =~= replaced);
                assert(heap@.take(k as int) =~= heap@);
                to_multiset_update(before, 0, c);
                assert(before.to_multiset().count(root) > 0) by {
                    broadcast use group_to_multiset_ensures;
                    assert(before.contains(root));
                }
                assert(heap@.to_multiset().add(dropped) =~= candidates@.take(i + 1).to_multiset());
                assert forall|j: int| 0 <= j < replaced.len() implies (#[trigger] replaced[j]).key(
                    metric,
                ) <= root.key(metric) by {
                    if j > 0 {
                        assert(replaced[j] == before[j]);
                    }
                }
                lemma_bound_carries_over(replaced, heap@, metric, root.key(metric));
                assert forall|x: ScoreIndex, j: int|
                    dropped.contains(x) && 0 <= j < heap@.len() implies heap@[j].key(metric)
                    <= x.key(metric) by {
                    if x != root {
                        assert(dropped_before.contains(x));
                        assert(before[0].key(metric) <= x.key(metric));
                    }
                }
            }
        } else {
            proof {
                broadcast use group_multiset_axioms;
                dropped = dropped.insert(c);
                assert(heap@.to_multiset().add(dropped) =~= candidates@.take(i + 1).to_multiset());
                assert forall|x: ScoreIndex, j: int|
                    dropped.contains(x) && 0 <= j < heap@.len() implies heap@[j].key(metric)
                    <= x.key(metric) by {
                    if x != c {
                        assert(dropped_before.contains(x));
                    }
                }
            }
        }
        i += 1;
    }
    let ghost unsorted = heap@;
    sort_heap(&mut heap, metric);
    proof {
        broadcast use group_multiset_axioms;
        assert(candidates@.take(n as int) =~= candidates@);
        assert(candidates@.to_multiset().sub(heap@.to_multiset()) =~= dropped);
        assert forall|x: ScoreIndex, j: int|
            candidates@.to_multiset().sub(heap@.to_multiset()).contains(x) && 0 <= j
                < heap@.len() implies heap@[j].key(metric) <= x.key(metric) by {
            lemma_bound_carries_over(unsorted, heap@, metric, x.key(metric));
        }
    }
    heap
}

} // verus!
