//! The five nearest of a stream of labelled distances.

use crate::index::INFINITE;
use vstd::multiset::Multiset;
use vstd::prelude::*;

verus! {

/// Slot `i` is the first of those that hold the greatest distance.
pub open spec fn is_worst(slots: Seq<(u32, u8)>, i: int) -> bool {
    &&& 0 <= i < slots.len()
    &&& forall|j: int| 0 <= j < slots.len() ==> (#[trigger] slots[j]).0 <= slots[i].0
    &&& forall|j: int| 0 <= j < i ==> (#[trigger] slots[j]).0 < slots[i].0
}

/// The first slot that holds the greatest distance.
pub open spec fn worst(slots: Seq<(u32, u8)>) -> int {
    choose|i: int| is_worst(slots, i)
}

/// The slots after a distance and its label were offered: a distance that is smaller than the
/// greatest one takes its place.
pub open spec fn offered(slots: Seq<(u32, u8)>, d: u32, label: u8) -> Seq<(u32, u8)> {
    if d < slots[worst(slots)].0 {
        slots.update(worst(slots), (d, label))
    } else {
        slots
    }
}

/// Five slots that hold nothing yet.
pub open spec fn vacant() -> Seq<(u32, u8)> {
    Seq::new(5, |i: int| (INFINITE, 0u8))
}

/// The slots after all of `items` were offered in turn.
pub open spec fn kept(items: Seq<(u32, u8)>) -> Seq<(u32, u8)>
    decreases items.len(),
{
    if items.len() == 0 {
        vacant()
    } else {
        offered(kept(items.drop_last()), items.last().0, items.last().1)
    }
}

/// The sum of the labels in the slots.
pub open spec fn label_sum(slots: Seq<(u32, u8)>) -> int
    decreases slots.len(),
{
    if slots.len() == 0 {
        0
    } else {
        label_sum(slots.drop_last()) + slots.last().1
    }
}

/// The five smallest distances offered so far, with their labels.
pub struct Top5 {
    dists: [u32; 5],
    labs: [u8; 5],
    max_d: u32,
    max_idx: usize,
}

impl Top5 {
    /// The slots.
    pub closed spec fn slots(&self) -> Seq<(u32, u8)> {
        Seq::new(5, |i: int| (self.dists@[i], self.labs@[i]))
    }

    /// The greatest distance and its slot are known.
    pub closed spec fn wf(&self) -> bool {
        &&& is_worst(self.slots(), self.max_idx as int)
        &&& self.max_d == self.slots()[self.max_idx as int].0
    }

    /// Slots that hold nothing yet.
    pub fn new() -> (t: Self)
        ensures
            t.wf(),
            t.slots() == vacant(),
    {
        let t = Top5 { dists: [INFINITE;5], labs: [0;5], max_d: INFINITE, max_idx: 0 };
        assert(t.slots() =~= vacant());
        t
    }

    /// Offers a distance and its label.
    pub fn offer(&mut self, d: u32, label: u8)
        requires
            old(self).wf(),
        ensures
            final(self).wf(),
            final(self).slots() == offered(old(self).slots(), d, label),
    {
        proof {
            lemma_worst_is(self.slots(), self.max_idx as int);
        }
        if d < self.max_d {
            let ghost before = self.slots();
            self.dists[self.max_idx] = d;
            self.labs[self.max_idx] = label;
            assert(self.slots() =~= before.update(self.max_idx as int, (d, label)));
            self.max_d = self.dists[0];
            self.max_idx = 0;
            if self.dists[1] > self.max_d {
                self.max_d = self.dists[1];
                self.max_idx = 1;
            }
            if self.dists[2] > self.max_d {
                self.max_d = self.dists[2];
                self.max_idx = 2;
            }
            if self.dists[3] > self.max_d {
                self.max_d = self.dists[3];
                self.max_idx = 3;
            }
            if self.dists[4] > self.max_d {
                self.max_d = self.dists[4];
                self.max_idx = 4;
            }
        }
    }

    /// The sum of the labels: the number of frauds, where a label is 0 or 1.
    pub fn frauds(&self) -> (n: u32)
        ensures
            n == label_sum(self.slots()),
    {
        proof {
            let s = self.slots();
            reveal_with_fuel(label_sum, 6);
            assert(s.drop_last().drop_last().drop_last().drop_last().drop_last().len() == 0);
        }
        self.labs[0] as u32 + self.labs[1] as u32 + self.labs[2] as u32 + self.labs[3] as u32
            + self.labs[4] as u32
    }
}

/// Two slots that are both the first of the greatest are the same.
proof fn lemma_worst_is(slots: Seq<(u32, u8)>, i: int)
    requires
        is_worst(slots, i),
    ensures
        worst(slots) == i,
{
    let k = worst(slots);
    assert(is_worst(slots, k));
    if k < i {
        assert(slots[k].0 < slots[i].0);
    }
    if i < k {
        assert(slots[i].0 < slots[k].0);
    }
}

/// Slots have a first greatest distance.
proof fn lemma_worst_exists(slots: Seq<(u32, u8)>)
    requires
        slots.len() > 0,
    ensures
        is_worst(slots, worst(slots)),
    decreases slots.len(),
{
    if slots.len() == 1 {
        assert(is_worst(slots, 0));
    } else {
        let front = slots.drop_last();
        lemma_worst_exists(front);
        let w = worst(front);
        if slots.last().0 > front[w].0 {
            assert forall|j: int| 0 <= j < slots.len() - 1 implies (#[trigger] slots[j]).0
                < slots.last().0 by {
                assert(front[j].0 <= front[w].0);
            }
            assert(is_worst(slots, slots.len() - 1));
        } else {
            assert forall|j: int| 0 <= j < slots.len() implies (#[trigger] slots[j]).0
                <= slots[w].0 by {
                if j < slots.len() - 1 {
                    assert(front[j].0 <= front[w].0);
                }
            }
            assert forall|j: int| 0 <= j < w implies (#[trigger] slots[j]).0 < slots[w].0 by {
                assert(front[j].0 < front[w].0);
            }
            assert(is_worst(slots, w));
        }
    }
}

/// What was offered, together with what the slots hold at first.
pub open spec fn candidates(items: Seq<(u32, u8)>) -> Multiset<(u32, u8)> {
    vacant().to_multiset().add(items.to_multiset())
}

/// Of the candidates, `few` are no farther than the others.
pub open spec fn are_nearest(few: Multiset<(u32, u8)>, all: Multiset<(u32, u8)>) -> bool {
    &&& few.subset_of(all)
    &&& forall|x: (u32, u8), y: (u32, u8)|
        #![trigger few.count(x), all.sub(few).count(y)]
        few.count(x) > 0 && all.sub(few).count(y) > 0 ==> x.0 <= y.0
}

proof fn lemma_update_multiset(slots: Seq<(u32, u8)>, i: int, new: (u32, u8))
    requires
        0 <= i < slots.len(),
    ensures
        slots.update(i, new).to_multiset() == slots.to_multiset().remove(slots[i]).insert(new),
{
    assert(slots.update(i, new) =~= slots.remove(i).insert(i, new));
    vstd::seq_lib::to_multiset_remove(slots, i);
    vstd::seq_lib::to_multiset_insert(slots.remove(i), i, new);
}

/// The slots keep the nearest of what was offered: nothing that was left out is nearer than
/// something that was kept.
pub proof fn law_the_nearest_are_kept(items: Seq<(u32, u8)>)
    ensures
        kept(items).len() == 5,
        are_nearest(kept(items).to_multiset(), candidates(items)),
    decreases items.len(),
{
    broadcast use vstd::multiset::group_multiset_axioms;
    broadcast use vstd::seq_lib::group_to_multiset_ensures;

    if items.len() == 0 {
        assert(items.to_multiset() =~= Multiset::empty());
        assert(candidates(items) =~= vacant().to_multiset());
    } else {
        let front = items.drop_last();
        let new = items.last();
        law_the_nearest_are_kept(front);
        let slots = kept(front);
        lemma_worst_exists(slots);
        let w = worst(slots);
        assert(front.push(new) =~= items);
        let all = candidates(front);
        assert(candidates(items) =~= all.insert(new));
        let few = slots.to_multiset();
        assert(slots.contains(slots[w]));
        assert forall|x: (u32, u8)| few.count(x) > 0 implies x.0 <= slots[w].0 by {
            assert(slots.contains(x));
            let j = choose|j: int| 0 <= j < slots.len() && slots[j] == x;
            assert(slots[j].0 <= slots[w].0);
        }
        if new.0 < slots[w].0 {
            lemma_update_multiset(slots, w, new);
            let few2 = few.remove(slots[w]).insert(new);
            assert(kept(items).to_multiset() == few2);
            assert forall|x: (u32, u8), y: (u32, u8)|
                few2.count(x) > 0 && all.insert(new).sub(few2).count(y) > 0 implies x.0 <= y.0 by {
                assert(few.count(slots[w]) > 0);
                assert(few.count(x) > 0 || x == new);
                if y != slots[w] {
                    assert(all.sub(few).count(y) > 0);
                    assert(slots[w].0 <= y.0);
                }
            }
        } else {
            assert forall|x: (u32, u8), y: (u32, u8)|
                few.count(x) > 0 && all.insert(new).sub(few).count(y) > 0 implies x.0 <= y.0 by {
                assert(all.sub(few).count(y) > 0 || y == new);
            }
        }
    }
}

/// A kept distance was offered, or its slot is still vacant.
proof fn lemma_kept_were_offered(items: Seq<(u32, u8)>, x: (u32, u8))
    requires
        kept(items).contains(x),
    ensures
        x == (INFINITE, 0u8) || (x.0 < INFINITE && items.contains(x)),
    decreases items.len(),
{
    let i = choose|i: int| 0 <= i < kept(items).len() && kept(items)[i] == x;
    if items.len() > 0 {
        let front = items.drop_last();
        let slots = kept(front);
        law_the_nearest_are_kept(front);
        lemma_worst_exists(slots);
        if kept(items)[i] != slots[i] {
            assert(x == items.last());
            assert(slots.contains(slots[worst(slots)]));
            lemma_kept_were_offered(front, slots[worst(slots)]);
            assert(items[items.len() - 1] == x);
        } else {
            assert(slots.contains(x));
            lemma_kept_were_offered(front, x);
            if items.drop_last().contains(x) {
                let k = choose|k: int| 0 <= k < front.len() && front[k] == x;
                assert(items[k] == x);
            }
        }
    }
}

/// The sum of labels does not depend on the order of the slots.
proof fn lemma_label_sum_of_multiset(a: Seq<(u32, u8)>, b: Seq<(u32, u8)>)
    requires
        a.to_multiset() == b.to_multiset(),
    ensures
        label_sum(a) == label_sum(b),
    decreases a.len(),
{
    broadcast use vstd::multiset::group_multiset_axioms;
    broadcast use vstd::seq_lib::group_to_multiset_ensures;

    assert(a.len() == a.to_multiset().len());
    assert(b.len() == b.to_multiset().len());
    if a.len() > 0 {
        let x = a.last();
        assert(a.contains(x));
        assert(b.to_multiset().count(x) > 0);
        assert(b.contains(x));
        let i = choose|i: int| 0 <= i < b.len() && b[i] == x;
        let rest = b.remove(i);
        vstd::seq_lib::to_multiset_remove(b, i);
        vstd::seq_lib::to_multiset_remove(a, a.len() - 1);
        assert(a.remove(a.len() - 1) =~= a.drop_last());
        lemma_label_sum_of_multiset(a.drop_last(), rest);
        lemma_label_sum_remove(b, i);
    }
}

proof fn lemma_label_sum_remove(b: Seq<(u32, u8)>, i: int)
    requires
        0 <= i < b.len(),
    ensures
        label_sum(b) == label_sum(b.remove(i)) + b[i].1,
    decreases b.len(),
{
    if i == b.len() - 1 {
        assert(b.remove(i) =~= b.drop_last());
    } else {
        lemma_label_sum_remove(b.drop_last(), i);
        assert(b.remove(i).drop_last() =~= b.drop_last().remove(i));
    }
}

/// Where equal distances carry equal labels, the sum of the labels that are kept does not depend
/// on the order in which the distances are offered.
pub proof fn law_order_does_not_matter(a: Seq<(u32, u8)>, b: Seq<(u32, u8)>)
    requires
        a.to_multiset() == b.to_multiset(),
        forall|i: int, j: int|
            0 <= i < a.len() && 0 <= j < a.len() && (#[trigger] a[i]).0 == (#[trigger] a[j]).0
                ==> a[i].1 == a[j].1,
    ensures
        label_sum(kept(a)) == label_sum(kept(b)),
{
    broadcast use vstd::multiset::group_multiset_axioms;
    broadcast use vstd::seq_lib::group_to_multiset_ensures;

    law_the_nearest_are_kept(a);
    law_the_nearest_are_kept(b);
    let all = candidates(a);
    let ka = kept(a).to_multiset();
    let kb = kept(b).to_multiset();
    assert(ka.len() == 5 && kb.len() == 5);
    if ka != kb {
        assert(!(ka =~= kb));
        lemma_surplus(ka, kb);
        lemma_surplus(kb, ka);
        let x = choose|x: (u32, u8)| ka.count(x) > kb.count(x);
        let y = choose|y: (u32, u8)| kb.count(y) > ka.count(y);
        assert(ka.count(x) > kb.count(x) && kb.count(y) > ka.count(y));
        assert(all.sub(kb).count(x) > 0);
        assert(all.sub(ka).count(y) > 0);
        assert(x.0 <= y.0 && y.0 <= x.0);
        assert(kept(a).contains(x) && kept(b).contains(y));
        lemma_kept_were_offered(a, x);
        lemma_kept_were_offered(b, y);
        if x.0 < INFINITE {
            assert(a.contains(x));
            assert(b.contains(y));
            assert(b.to_multiset().count(y) > 0);
            assert(a.contains(y));
            let i = choose|i: int| 0 <= i < a.len() && a[i] == x;
            let j = choose|j: int| 0 <= j < a.len() && a[j] == y;
            assert(a[i].1 == a[j].1);
        }
        assert(x == y);
    }
    lemma_label_sum_of_multiset(kept(a), kept(b));
}

/// Of two different collections of the same size, each has something that the other has less of.
proof fn lemma_surplus(a: Multiset<(u32, u8)>, b: Multiset<(u32, u8)>)
    requires
        a.len() == b.len(),
        a != b,
    ensures
        exists|x: (u32, u8)| a.count(x) > b.count(x),
{
    broadcast use vstd::multiset::group_multiset_axioms;

    if forall|x: (u32, u8)| a.count(x) <= b.count(x) {
        assert(a.subset_of(b));
        assert(b.sub(a).len() == 0);
        assert forall|x: (u32, u8)| a.count(x) == b.count(x) by {
            assert(b.sub(a).count(x) == b.count(x) - a.count(x));
            assert(b.sub(a).count(x) <= b.sub(a).len());
        }
        assert(a =~= b);
    }
}

/// A choice of at most five places at which there is a distance, such that nothing at another
/// place is nearer. Fewer than five are chosen only where there are no more.
pub open spec fn is_choice_of_nearest(dists: Seq<u32>, chosen: Seq<int>) -> bool {
    &&& chosen.len() <= 5
    &&& forall|c: int, e: int| 0 <= c < e < chosen.len() ==> #[trigger] chosen[c] != #[trigger] chosen[e]
    &&& forall|c: int|
        0 <= c < chosen.len() ==> 0 <= #[trigger] chosen[c] < dists.len() && dists[chosen[c]]
            < 0x7f80_0000
    &&& forall|c: int, k: int|
        0 <= c < chosen.len() && 0 <= k < dists.len() && !chosen.contains(k)
            ==> dists[#[trigger] chosen[c]] <= #[trigger] dists[k]
    &&& chosen.len() < 5 ==> forall|k: int|
        0 <= k < dists.len() && #[trigger] dists[k] < 0x7f80_0000 ==> chosen.contains(k)
}

/// The sum of numbers.
pub open spec fn total(s: Seq<int>) -> int {
    s.fold_left(0int, |sum: int, x: int| sum + x)
}

/// Which item each slot holds; a negative number where the slot is still vacant.
spec fn is_pick(items: Seq<(u32, u8)>, pick: Seq<int>) -> bool {
    let slots = kept(items);
    &&& slots.len() == 5
    &&& pick.len() == 5
    &&& forall|s: int|
        0 <= s < 5 ==> if #[trigger] pick[s] < 0 {
            slots[s] == (INFINITE, 0u8)
        } else {
            pick[s] < items.len() && slots[s] == items[pick[s]] && slots[s].0 < INFINITE
        }
    &&& forall|s: int, t: int|
        0 <= s < t < 5 && #[trigger] pick[s] >= 0 ==> pick[s] != #[trigger] pick[t]
    &&& forall|s: int, k: int|
        0 <= s < 5 && 0 <= k < items.len() && !pick.contains(k) ==> (#[trigger] slots[s]).0 <= (
        #[trigger] items[k]).0
}

proof fn lemma_pick(items: Seq<(u32, u8)>) -> (pick: Seq<int>)
    ensures
        is_pick(items, pick),
    decreases items.len(),
{
    if items.len() == 0 {
        let pick = Seq::new(5, |s: int| -1int);
        assert(is_pick(items, pick));
        pick
    } else {
        let front = items.drop_last();
        let n = items.len() - 1;
        let new = items[n];
        let before = lemma_pick(front);
        let slots = kept(front);
        lemma_worst_exists(slots);
        let w = worst(slots);
        if new.0 < slots[w].0 {
            let pick = before.update(w, n);
            let after = kept(items);
            assert(after == slots.update(w, new));
            assert(slots[w].0 <= INFINITE) by {
                if before[w] < 0 {
                    assert(slots[w] == (INFINITE, 0u8));
                } else {
                    assert(slots[w].0 < INFINITE);
                }
            }
            assert forall|s: int| 0 <= s < 5 implies if #[trigger] pick[s] < 0 {
                after[s] == (INFINITE, 0u8)
            } else {
                pick[s] < items.len() && after[s] == items[pick[s]] && after[s].0 < INFINITE
            } by {
                if s != w {
                    assert(pick[s] == before[s]);
                }
            }
            assert forall|s: int, t: int| 0 <= s < t < 5 && #[trigger] pick[s] >= 0 implies pick[s]
                != #[trigger] pick[t] by {
                assert(s != w ==> pick[s] == before[s]);
                assert(t != w ==> pick[t] == before[t]);
            }
            assert forall|s: int, k: int|
                0 <= s < 5 && 0 <= k < items.len() && !pick.contains(k) implies (
            #[trigger] after[s]).0 <= (#[trigger] items[k]).0 by {
                assert(pick[w] == n);
                assert(k != n);
                assert(items[k] == front[k]);
                assert(slots[s].0 <= slots[w].0);
                if before.contains(k) {
                    let t = choose|t: int| 0 <= t < before.len() && before[t] == k;
                    if t != w {
                        assert(pick[t] == k);
                    }
                    assert(slots[w] == front[k]);
                } else {
                    assert(slots[w].0 <= front[k].0);
                }
            }
            assert(is_pick(items, pick));
            pick
        } else {
            assert(kept(items) == slots);
            assert forall|s: int, k: int|
                0 <= s < 5 && 0 <= k < items.len() && !before.contains(k) implies (
            #[trigger] slots[s]).0 <= (#[trigger] items[k]).0 by {
                if k < n {
                    assert(items[k] == front[k]);
                } else {
                    assert(slots[s].0 <= slots[w].0);
                }
            }
            assert forall|s: int| 0 <= s < 5 implies if #[trigger] before[s] < 0 {
                slots[s] == (INFINITE, 0u8)
            } else {
                before[s] < items.len() && slots[s] == items[before[s]] && slots[s].0 < INFINITE
            } by {
                if before[s] >= 0 {
                    assert(items[before[s]] == front[before[s]]);
                }
            }
            assert(is_pick(items, before));
            before
        }
    }
}

/// The places that are picked, without the vacant slots.
spec fn picked(pick: Seq<int>) -> Seq<int>
    decreases pick.len(),
{
    if pick.len() == 0 {
        Seq::empty()
    } else if pick.last() < 0 {
        picked(pick.drop_last())
    } else {
        picked(pick.drop_last()).push(pick.last())
    }
}

proof fn lemma_picked(pick: Seq<int>)
    requires
        forall|s: int, t: int|
            0 <= s < t < pick.len() && #[trigger] pick[s] >= 0 ==> pick[s] != #[trigger] pick[t],
    ensures
        picked(pick).len() <= pick.len(),
        picked(pick).len() == pick.len() <==> forall|s: int|
            0 <= s < pick.len() ==> #[trigger] pick[s] >= 0,
        forall|k: int| 0 <= k ==> (#[trigger] picked(pick).contains(k) <==> pick.contains(k)),
        forall|c: int| 0 <= c < picked(pick).len() ==> 0 <= #[trigger] picked(pick)[c],
        forall|c: int, e: int|
            0 <= c < e < picked(pick).len() ==> #[trigger] picked(pick)[c]
                != #[trigger] picked(pick)[e],
    decreases pick.len(),
{
    if pick.len() > 0 {
        let front = pick.drop_last();
        let x = pick.last();
        assert(pick[pick.len() - 1] == x);
        assert forall|s: int, t: int|
            0 <= s < t < front.len() && #[trigger] front[s] >= 0 implies front[s]
            != #[trigger] front[t] by {
            assert(pick[s] != pick[t]);
        }
        lemma_picked(front);
        let p = picked(front);
        let q = picked(pick);
        assert forall|k: int| 0 <= k implies (#[trigger] q.contains(k) <==> pick.contains(k)) by {
            if pick.contains(k) {
                let s = choose|s: int| 0 <= s < pick.len() && pick[s] == k;
                if s < front.len() {
                    assert(front[s] == k);
                    assert(p.contains(k));
                    let c = choose|c: int| 0 <= c < p.len() && p[c] == k;
                    assert(q[c] == k);
                } else {
                    assert(q[q.len() - 1] == k);
                }
            }
            if q.contains(k) {
                let c = choose|c: int| 0 <= c < q.len() && q[c] == k;
                if c < p.len() {
                    assert(p[c] == k);
                    assert(p.contains(k));
                    assert(front.contains(k));
                    let s = choose|s: int| 0 <= s < front.len() && front[s] == k;
                    assert(pick[s] == k);
                } else {
                    assert(pick[pick.len() - 1] == k);
                }
            }
        }
        assert forall|c: int, e: int| 0 <= c < e < q.len() implies #[trigger] q[c]
            != #[trigger] q[e] by {
            if e < p.len() {
                assert(p[c] != p[e]);
            } else {
                assert(p.contains(p[c]));
                assert(front.contains(p[c]));
                let s = choose|s: int| 0 <= s < front.len() && front[s] == p[c];
                assert(pick[s] != pick[pick.len() - 1]);
            }
        }
        if q.len() == pick.len() {
            assert forall|s: int| 0 <= s < pick.len() implies #[trigger] pick[s] >= 0 by {
                if s < front.len() {
                    assert(front[s] >= 0);
                }
            }
        }
        if forall|s: int| 0 <= s < pick.len() ==> #[trigger] pick[s] >= 0 {
            assert forall|s: int| 0 <= s < front.len() implies #[trigger] front[s] >= 0 by {
                assert(pick[s] >= 0);
            }
        }
    }
}

/// The labels in the slots add up to those of the places that are picked.
proof fn lemma_picked_labels(items: Seq<(u32, u8)>, slots: Seq<(u32, u8)>, pick: Seq<int>)
    requires
        slots.len() == pick.len(),
        forall|s: int|
            0 <= s < pick.len() ==> if #[trigger] pick[s] < 0 {
                slots[s].1 == 0
            } else {
                slots[s].1 == items[pick[s]].1
            },
    ensures
        label_sum(slots) == total(picked(pick).map_values(|k: int| items[k].1 as int)),
    decreases pick.len(),
{
    let f = |k: int| items[k].1 as int;
    if pick.len() == 0 {
        assert(picked(pick).map_values(f) =~= Seq::<int>::empty());
    } else {
        let front = pick.drop_last();
        assert(pick[pick.len() - 1] == pick.last());
        assert forall|s: int| 0 <= s < front.len() implies if #[trigger] front[s] < 0 {
            slots.drop_last()[s].1 == 0
        } else {
            slots.drop_last()[s].1 == items[front[s]].1
        } by {
            assert(pick[s] == front[s]);
        }
        lemma_picked_labels(items, slots.drop_last(), front);
        if pick.last() >= 0 {
            let p = picked(front);
            assert(picked(pick).map_values(f) =~= p.map_values(f).push(f(pick.last())));
            assert(p.map_values(f).push(f(pick.last())).drop_last() =~= p.map_values(f));
        }
    }
}

/// Of any items that are offered, the labels are added up of five at which there is a distance, or
/// of as many as there are, such that none of the others is nearer.
pub proof fn law_the_labels_of_the_nearest_add_up(items: Seq<(u32, u8)>, dists: Seq<u32>)
    requires
        dists.len() == items.len(),
        forall|k: int| 0 <= k < items.len() ==> #[trigger] dists[k] == items[k].0,
    ensures
        exists|chosen: Seq<int>|
            #[trigger] is_choice_of_nearest(dists, chosen) && label_sum(kept(items)) == total(
                chosen.map_values(|k: int| items[k].1 as int),
            ),
{
    let pick = lemma_pick(items);
    let slots = kept(items);
    let chosen = picked(pick);
    lemma_picked(pick);
    lemma_picked_labels(items, slots, pick);
    assert forall|c: int| 0 <= c < chosen.len() implies 0 <= #[trigger] chosen[c] < dists.len()
        && dists[chosen[c]] < 0x7f80_0000 by {
        assert(chosen.contains(chosen[c]));
        let s = choose|s: int| 0 <= s < pick.len() && pick[s] == chosen[c];
        assert(pick[s] >= 0);
    }
    assert forall|c: int, k: int|
        0 <= c < chosen.len() && 0 <= k < dists.len() && !chosen.contains(k) implies dists[
        #[trigger] chosen[c]] <= #[trigger] dists[k] by {
        assert(chosen.contains(chosen[c]));
        let s = choose|s: int| 0 <= s < pick.len() && pick[s] == chosen[c];
        assert(pick[s] >= 0);
        assert(!pick.contains(k));
        assert(slots[s].0 <= items[k].0);
    }
    if chosen.len() < 5 {
        let s = choose|s: int| 0 <= s < pick.len() && #[trigger] pick[s] < 0;
        assert(pick[s] < 0);
        assert forall|k: int|
            0 <= k < dists.len() && #[trigger] dists[k] < 0x7f80_0000 implies chosen.contains(k) by {
            if !pick.contains(k) {
                assert(slots[s].0 <= items[k].0);
            }
        }
    }
    assert(is_choice_of_nearest(dists, chosen));
}


/// A distance takes the place of the first of the greatest ones, and only where it is smaller: what
/// came earlier is kept before an equal distance that comes later, and the other slots stay as they
/// are.
pub proof fn law_the_first_of_the_greatest_gives_way(
    slots: Seq<(u32, u8)>,
    d: u32,
    label: u8,
    i: int,
)
    requires
        0 <= i < slots.len(),
        forall|j: int| 0 <= j < slots.len() ==> (#[trigger] slots[j]).0 <= slots[i].0,
        forall|j: int| 0 <= j < i ==> (#[trigger] slots[j]).0 < slots[i].0,
    ensures
        slots[i].0 <= d ==> offered(slots, d, label) == slots,
        d < slots[i].0 ==> offered(slots, d, label).len() == slots.len(),
        d < slots[i].0 ==> offered(slots, d, label)[i] == (d, label),
        d < slots[i].0 ==> forall|j: int|
            0 <= j < slots.len() && j != i ==> #[trigger] offered(slots, d, label)[j] == slots[j],
{
    assert(is_worst(slots, i));
    let w = worst(slots);
    assert(is_worst(slots, w));
    assert(w == i) by {
        if w < i {
            assert(slots[w].0 < slots[i].0);
        } else if i < w {
            assert(slots[i].0 < slots[w].0);
        }
    }
}

/// The slots hold nothing at first, and what is offered later finds them as the earlier offers left
/// them.
pub proof fn law_offers_are_made_in_turn(items: Seq<(u32, u8)>, d: u32, label: u8)
    ensures
        kept(Seq::empty()) == seq![
            (0x7f80_0000u32, 0u8),
            (0x7f80_0000u32, 0u8),
            (0x7f80_0000u32, 0u8),
            (0x7f80_0000u32, 0u8),
            (0x7f80_0000u32, 0u8),
        ],
        kept(items.push((d, label))) == offered(kept(items), d, label),
{
    assert(items.push((d, label)).drop_last() =~= items);
}

} // verus!
