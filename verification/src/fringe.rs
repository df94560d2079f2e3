//! The fringe of the shortest-path search: tentative distances in a binary
//! heap, nearest first.

use vstd::prelude::*;
use vstd::multiset::Multiset;
use crate::node_dist::NodeDist;

verus! {

broadcast use vstd::seq_lib::group_to_multiset_ensures;

/// The position above `at` in a heap.
pub open spec fn parent(at: int) -> int {
    (at - 1) / 2
}

/// Whether every entry but the first is at least as far as the entry above it,
/// except that the entry at `skip` may be nearer than the entry above it.
pub open spec fn ordered_but(entries: Seq<NodeDist>, skip: int) -> bool {
    forall|at: int| 1 <= at < entries.len() && at != skip ==> entries[parent(at)].1 <= (#[trigger] entries[at]).1
}

/// Whether every entry but the first is at least as far as the entry above it.
pub open spec fn heap_ordered(entries: Seq<NodeDist>) -> bool {
    ordered_but(entries, 0)
}

/// In an ordered heap no entry is nearer than the first.
pub proof fn lemma_first_is_nearest(entries: Seq<NodeDist>, at: int)
    requires
        heap_ordered(entries),
        0 <= at < entries.len(),
    ensures
        entries[0].1 <= entries[at].1,
    decreases at,
{
    if at > 0 {
        lemma_first_is_nearest(entries, parent(at));
        assert(entries[parent(at)].1 <= entries[at].1);
    }
}

/// Exchanging two entries keeps the multiset of all entries.
pub proof fn lemma_exchange(entries: Seq<NodeDist>, a: int, b: int)
    requires
        0 <= a < entries.len(),
        0 <= b < entries.len(),
    ensures
        entries.update(a, entries[b]).update(b, entries[a]).to_multiset() == entries.to_multiset(),
{
    broadcast use vstd::multiset::group_multiset_axioms;

    let first = entries.update(a, entries[b]);
    vstd::seq_lib::to_multiset_update(entries, a, entries[b]);
    vstd::seq_lib::to_multiset_update(first, b, entries[a]);
    assert(entries.to_multiset().contains(entries[a]));
    assert(entries.to_multiset().contains(entries[b]));
    assert(first.update(b, entries[a]).to_multiset() =~= entries.to_multiset());
}

/// Moves the entry at `start`, which may be nearer than the entry above it,
/// up to its place.
fn sift_up(entries: &mut Vec<NodeDist>, start: usize)
    requires
        start < old(entries).len(),
        ordered_but(old(entries)@, start as int),
        forall|below: int|
            1 <= start && 1 <= below < old(entries).len() && parent(below) == start ==> old(
                entries,
            )[parent(start as int)].1 <= (#[trigger] old(entries)[below]).1,
    ensures
        heap_ordered(final(entries)@),
        final(entries)@.to_multiset() == old(entries)@.to_multiset(),
{
    let mut at = start;
    while at > 0
        invariant
            at < entries.len(),
            entries.len() == old(entries).len(),
            ordered_but(entries@, at as int),
            forall|below: int|
                1 <= at && 1 <= below < entries.len() && parent(below) == at ==> entries[parent(
                    at as int,
                )].1 <= (#[trigger] entries[below]).1,
            entries@.to_multiset() == old(entries)@.to_multiset(),
        ensures
            heap_ordered(entries@),
            entries@.to_multiset() == old(entries)@.to_multiset(),
        decreases at,
    {
        let above = (at - 1) / 2;
        let lower = entries[at];
        let upper = entries[above];
        if lower.1 < upper.1 {
            proof {
                lemma_exchange(entries@, at as int, above as int);
            }
            let ghost before = entries@;
            entries[at] = upper;
            entries[above] = lower;
            proof {
                assert forall|i: int| 1 <= i < entries.len() && i != above implies entries[parent(
                    i,
                )].1 <= (#[trigger] entries[i]).1 by {
                    if i == at {
                    } else if parent(i) == at {
                        assert(before[parent(at as int)].1 <= before[i].1);
                    } else if parent(i) == above {
                        assert(before[parent(i)].1 <= before[i].1);
                    } else {
                        assert(before[parent(i)].1 <= before[i].1);
                    }
                }
                assert forall|below: int|
                    1 <= above && 1 <= below < entries.len() && parent(below)
                        == above implies entries[parent(above as int)].1 <= (
                #[trigger] entries[below]).1 by {
                    assert(before[parent(above as int)].1 <= before[above as int].1);
                    if below == at {
                    } else {
                        assert(before[parent(below)].1 <= before[below].1);
                    }
                }
            }
            at = above;
        } else {
            break ;
        }
    }
}

/// Moves the entry at the top, which may be farther than the entries below it,
/// down to its place.
fn sift_down(entries: &mut Vec<NodeDist>)
    requires
        forall|at: int|
            1 <= at < old(entries).len() && parent(at) != 0 ==> old(entries)[parent(at)].1 <= (
            #[trigger] old(entries)[at]).1,
    ensures
        heap_ordered(final(entries)@),
        final(entries)@.to_multiset() == old(entries)@.to_multiset(),
{
    let len = entries.len();
    let mut at: usize = 0;
    while len >= 2 && at <= (len - 2) / 2
        invariant
            len == entries.len(),
            at < len || len == 0,
            forall|i: int|
                1 <= i < entries.len() && parent(i) != at ==> entries[parent(i)].1 <= (
                #[trigger] entries[i]).1,
            forall|below: int|
                1 <= at && 1 <= below < entries.len() && parent(below) == at ==> entries[parent(
                    at as int,
                )].1 <= (#[trigger] entries[below]).1,
            entries@.to_multiset() == old(entries)@.to_multiset(),
        ensures
            heap_ordered(entries@),
            entries@.to_multiset() == old(entries)@.to_multiset(),
        decreases len - at,
    {
        let left = 2 * at + 1;
        let right = left + 1;
        let mut nearest = left;
        if right < len && entries[right].1 < entries[left].1 {
            nearest = right;
        }
        let upper = entries[at];
        let lower = entries[nearest];
        if lower.1 < upper.1 {
            proof {
                lemma_exchange(entries@, at as int, nearest as int);
            }
            let ghost before = entries@;
            entries[at] = lower;
            entries[nearest] = upper;
            proof {
                assert(parent(left as int) == at && parent(right as int) == at);
                assert forall|i: int|
                    1 <= i < entries.len() && parent(i) != nearest implies entries[parent(i)].1 <= (
                #[trigger] entries[i]).1 by {
                    if i == nearest {
                    } else if parent(i) == at {
                        assert(i == left || i == right);
                    } else if i == at {
                        assert(before[parent(at as int)].1 <= before[nearest as int].1);
                    } else {
                        assert(before[parent(i)].1 <= before[i].1);
                    }
                }
                assert forall|below: int|
                    1 <= nearest && 1 <= below < entries.len() && parent(below)
                        == nearest implies entries[parent(nearest as int)].1 <= (
                #[trigger] entries[below]).1 by {
                    assert(before[parent(below)].1 <= before[below].1);
                }
            }
            at = nearest;
        } else {
            proof {
                assert(parent(left as int) == at && parent(right as int) == at);
                assert forall|i: int| 1 <= i < entries.len() implies entries[parent(i)].1 <= (
                #[trigger] entries[i]).1 by {
                    if parent(i) == at {
                        assert(i == left || i == right);
                    }
                }
            }
            break ;
        }
    }
    proof {
        assert forall|i: int| 1 <= i < entries.len() implies entries[parent(i)].1 <= (
        #[trigger] entries[i]).1 by {
            if heap_ordered(entries@) {
            } else if parent(i) == at {
                assert(2 * at + 1 <= i);
            }
        }
    }
}

/// A collection of entries that hands out an entry of least distance first.
pub struct Fringe {
    entries: Vec<NodeDist>,
}

impl Fringe {
    /// The entries that wait, as a multiset.
    pub closed spec fn view(&self) -> Multiset<NodeDist> {
        self.entries@.to_multiset()
    }

    /// The entries are ordered as a heap.
    pub closed spec fn well_formed(&self) -> bool {
        heap_ordered(self.entries@)
    }

    /// The empty fringe.
    pub fn new() -> (fringe: Fringe)
        ensures
            fringe.well_formed(),
            fringe@ == Multiset::<NodeDist>::empty(),
    {
        let fringe = Fringe { entries: Vec::new() };
        assert(fringe.entries@.to_multiset().len() == 0);
        assert(fringe.entries@.to_multiset() =~= Multiset::<NodeDist>::empty());
        fringe
    }

    /// How many entries wait.
    pub fn len(&self) -> (count: usize)
        ensures
            count == self@.len(),
    {
        self.entries.len()
    }

    /// Adds `entry`.
    pub fn push(&mut self, entry: NodeDist)
        requires
            old(self).well_formed(),
        ensures
            final(self).well_formed(),
            final(self)@ == old(self)@.insert(entry),
    {
        self.entries.push(entry);
        let last = self.entries.len() - 1;
        proof {
            assert forall|at: int|
                1 <= at < self.entries.len() && at != last implies self.entries[parent(at)].1 <= (
            #[trigger] self.entries[at]).1 by {
                assert(old(self).entries[parent(at)].1 <= old(self).entries[at].1);
            }
        }
        sift_up(&mut self.entries, last);
    }

    /// Takes out an entry whose distance no other entry undercuts; `None` when
    /// the fringe is empty.
    pub fn pop(&mut self) -> (nearest: Option<NodeDist>)
        requires
            old(self).well_formed(),
        ensures
            final(self).well_formed(),
            match nearest {
                Some(entry) => {
                    &&& old(self)@.contains(entry)
                    &&& final(self)@ == old(self)@.remove(entry)
                    &&& forall|other: NodeDist| old(self)@.contains(other) ==> entry.1 <= other.1
                },
                None => old(self)@.len() == 0 && final(self)@ == old(self)@,
            },
    {
        broadcast use vstd::multiset::group_multiset_axioms;

        if self.entries.len() == 0 {
            return None;
        }
        let ghost before = self.entries@;
        let top = self.entries[0];
        let last = self.entries.len() - 1;
        let tail = self.entries[last];
        self.entries[0] = tail;
        self.entries.pop();
        proof {
            let moved = before.update(0, tail);
            vstd::seq_lib::to_multiset_update(before, 0, tail);
            assert(self.entries@ =~= moved.remove(last as int));
            assert(before.to_multiset().contains(top));
            assert(before.to_multiset().contains(tail));
            assert(self.entries@.to_multiset() =~= before.to_multiset().remove(top));
            assert forall|at: int|
                1 <= at < self.entries.len() && parent(at) != 0 implies self.entries[parent(at)].1
                <= (#[trigger] self.entries[at]).1 by {
                assert(before[parent(at)].1 <= before[at].1);
            }
            assert forall|other: NodeDist| before.to_multiset().contains(other) implies top.1
                <= other.1 by {
                let at = choose|at: int| 0 <= at < before.len() && before[at] == other;
                lemma_first_is_nearest(before, at);
            }
        }
        sift_down(&mut self.entries);
        Some(top)
    }
}

} // verus!
