//! A queue of tentative costs that hands out its cheapest entry first.
//!
//! The entries are kept as a binary heap in a vector: the entry at index `i`
//! costs at least as much as the one at index `(i - 1) / 2`, its parent.

use vstd::multiset::Multiset;
use vstd::prelude::*;
use vstd::seq_lib::to_multiset_update;

verus! {

broadcast use vstd::seq_lib::group_to_multiset_ensures;

/// A tentative cost and the position of the node that it was found for.
pub type Entry = (u128, usize);

/// The index of the parent of the entry at index `i`.
pub open spec fn parent(i: int) -> int {
    (i - 1) / 2
}

/// Whether the entry at index `i` costs at least as much as its parent. The
/// first entry has no parent.
pub open spec fn ordered_at(s: Seq<Entry>, i: int) -> bool {
    i == 0 || s[parent(i)].0 <= s[i].0
}

/// Whether every entry costs at least as much as its parent.
pub open spec fn is_heap(s: Seq<Entry>) -> bool {
    forall|i: int| 0 <= i < s.len() ==> #[trigger] ordered_at(s, i)
}

/// Whether every entry costs at least as much as its parent, but for the
/// entry at `hole`, which was just put there and may cost less than its
/// parent; the children of `hole` cost at least as much as its parent.
spec fn is_heap_above(s: Seq<Entry>, hole: int) -> bool {
    &&& forall|i: int| 0 <= i < s.len() && i != hole ==> #[trigger] ordered_at(s, i)
    &&& forall|c: int|
        0 < c < s.len() && hole > 0 && parent(c) == hole ==> s[parent(hole)].0 <= (#[trigger] s[c]).0
}

/// Whether every entry costs at least as much as its parent, but for the
/// children of `hole`, whose parent was just put there and may cost more
/// than they; the children of `hole` cost at least as much as its parent.
spec fn is_heap_below(s: Seq<Entry>, hole: int) -> bool {
    &&& forall|i: int| 0 <= i < s.len() && parent(i) != hole ==> #[trigger] ordered_at(s, i)
    &&& ordered_at(s, hole)
    &&& forall|c: int|
        0 < c < s.len() && hole > 0 && parent(c) == hole ==> s[parent(hole)].0 <= (#[trigger] s[c]).0
}

/// In a heap no entry is cheaper than the first.
pub proof fn lemma_first_is_least(s: Seq<Entry>, i: int)
    requires
        is_heap(s),
        0 <= i < s.len(),
    ensures
        s[0].0 <= s[i].0,
    decreases i,
{
    if i > 0 {
        assert(ordered_at(s, i));
        lemma_first_is_least(s, parent(i));
    }
}

/// Exchanging two entries changes nothing in what the entries are.
proof fn lemma_exchange(s: Seq<Entry>, i: int, j: int)
    requires
        0 <= i < s.len(),
        0 <= j < s.len(),
    ensures
        s.update(i, s[j]).update(j, s[i]).to_multiset() == s.to_multiset(),
{
    broadcast use vstd::multiset::group_multiset_axioms;

    let half = s.update(i, s[j]);
    to_multiset_update(s, i, s[j]);
    to_multiset_update(half, j, s[i]);
    assert(s.to_multiset().count(s[i]) > 0);
    assert(s.to_multiset().count(s[j]) > 0);
    assert(half.update(j, s[i]).to_multiset() =~= s.to_multiset());
}

/// Moves the entry at `start` up, past every parent that costs more.
fn sift_up(entries: &mut Vec<Entry>, start: usize)
    requires
        start < old(entries).len(),
        is_heap_above(old(entries)@, start as int),
    ensures
        is_heap(final(entries)@),
        final(entries)@.to_multiset() == old(entries)@.to_multiset(),
{
    let mut hole = start;
    while hole > 0
        invariant
            hole < entries.len(),
            is_heap_above(entries@, hole as int),
            entries@.to_multiset() == old(entries)@.to_multiset(),
        ensures
            hole < entries.len(),
            is_heap_above(entries@, hole as int),
            ordered_at(entries@, hole as int),
            entries@.to_multiset() == old(entries)@.to_multiset(),
        decreases hole,
    {
        let above = (hole - 1) / 2;
        let low = entries[hole];
        let high = entries[above];
        if high.0 <= low.0 {
            break ;
        }
        let ghost before = entries@;
        entries.set(hole, high);
        entries.set(above, low);
        proof {
            lemma_exchange(before, hole as int, above as int);
            let after = entries@;
            assert forall|i: int| 0 <= i < after.len() && i != above implies #[trigger] ordered_at(
                after,
                i,
            ) by {
                if i != hole {
                    assert(ordered_at(before, i));
                }
            }
            assert forall|c: int|
                0 < c < after.len() && above > 0 && parent(c) == above implies after[parent(
                above as int,
            )].0 <= (#[trigger] after[c]).0 by {
                assert(ordered_at(before, above as int));
                if c != hole {
                    assert(ordered_at(before, c));
                }
            }
        }
        hole = above;
    }
}

/// Moves the entry at `start` down, past every cheaper child.
fn sift_down(entries: &mut Vec<Entry>, start: usize)
    requires
        start < old(entries).len(),
        is_heap_below(old(entries)@, start as int),
    ensures
        is_heap(final(entries)@),
        final(entries)@.to_multiset() == old(entries)@.to_multiset(),
{
    let len = entries.len();
    let mut hole = start;
    while hole < len / 2
        invariant
            len == entries.len(),
            hole < len,
            is_heap_below(entries@, hole as int),
            entries@.to_multiset() == old(entries)@.to_multiset(),
        ensures
            len == entries.len(),
            hole < len,
            is_heap_below(entries@, hole as int),
            forall|c: int|
                0 < c < len && parent(c) == hole ==> entries@[hole as int].0 <= (
                #[trigger] entries@[c]).0,
            entries@.to_multiset() == old(entries)@.to_multiset(),
        decreases len - hole,
    {
        let left = 2 * hole + 1;
        let right = left + 1;
        let least = if right < len && entries[right].0 < entries[left].0 {
            right
        } else {
            left
        };
        let high = entries[hole];
        let low = entries[least];
        assert forall|c: int| 0 < c < len && parent(c) == hole implies c == left || c == right by {}
        if high.0 <= low.0 {
            break ;
        }
        let ghost before = entries@;
        entries.set(hole, low);
        entries.set(least, high);
        proof {
            lemma_exchange(before, hole as int, least as int);
            let after = entries@;
            assert(parent(least as int) == hole);
            assert forall|i: int|
                0 <= i < after.len() && parent(i) != least implies #[trigger] ordered_at(
                after,
                i,
            ) by {
                if i == hole {
                    assert(ordered_at(before, hole as int));
                } else if parent(i) == hole {
                    assert(i == left || i == right);
                } else {
                    assert(ordered_at(before, i));
                }
            }
            assert forall|c: int|
                0 < c < after.len() && least > 0 && parent(c) == least implies after[parent(
                least as int,
            )].0 <= (#[trigger] after[c]).0 by {
                assert(ordered_at(before, c));
            }
        }
        hole = least;
    }
    proof {
        assert forall|i: int| 0 <= i < entries@.len() implies #[trigger] ordered_at(entries@, i) by {
            if i > 0 && parent(i) == hole {
                assert(entries@[hole as int].0 <= entries@[i].0);
            }
        }
    }
}

/// Entries waiting to be settled. One node may wait with several costs at
/// once; nothing is ever merged or dropped on entry.
pub struct MinQueue {
    entries: Vec<Entry>,
}

impl View for MinQueue {
    type V = Multiset<Entry>;

    closed spec fn view(&self) -> Multiset<Entry> {
        self.entries@.to_multiset()
    }
}

impl MinQueue {
    /// The entries are in heap order at all times.
    #[verifier::type_invariant]
    spec fn inv(self) -> bool {
        is_heap(self.entries@)
    }

    /// The queue with no entry.
    pub fn new() -> (queue: MinQueue)
        ensures
            queue@ == Multiset::<Entry>::empty(),
    {
        let queue = MinQueue { entries: Vec::new() };
        assert(queue.entries@ =~= Seq::empty());
        queue
    }

    /// The number of entries that wait.
    pub fn len(&self) -> (n: usize)
        ensures
            n == self@.len(),
    {
        self.entries.len()
    }

    /// Adds an entry.
    pub fn push(&mut self, cost: u128, node: usize)
        ensures
            final(self)@ == old(self)@.insert((cost, node)),
    {
        proof {
            use_type_invariant(&*self);
        }
        let mut entries: Vec<Entry> = Vec::new();
        std::mem::swap(&mut entries, &mut self.entries);
        let ghost before = entries@;
        entries.push((cost, node));
        let last = entries.len() - 1;
        proof {
            assert forall|i: int| 0 <= i < entries@.len() && i != last implies #[trigger] ordered_at(
                entries@,
                i,
            ) by {
                assert(ordered_at(before, i));
            }
        }
        sift_up(&mut entries, last);
        self.entries = entries;
    }

    /// Takes out an entry of least cost, if any entry waits. Among several of
    /// the same least cost, which one leaves is not fixed.
    pub fn pop_min(&mut self) -> (least: Option<Entry>)
        ensures
            match least {
                None => old(self)@.len() == 0 && final(self)@ == old(self)@,
                Some(e) => {
                    &&& old(self)@.contains(e)
                    &&& final(self)@ == old(self)@.remove(e)
                    &&& forall|other: Entry| old(self)@.contains(other) ==> e.0 <= other.0
                },
            },
    {
        proof {
            use_type_invariant(&*self);
        }
        let mut entries: Vec<Entry> = Vec::new();
        std::mem::swap(&mut entries, &mut self.entries);
        let ghost before = entries@;
        let last = match entries.pop() {
            Some(last) => last,
            None => {
                assert(before =~= Seq::empty());
                return None;
            },
        };
        proof {
            assert forall|other: Entry| before.to_multiset().contains(other) implies before[0].0
                <= other.0 by {
                assert(before.contains(other));
                let i = choose|i: int| 0 <= i < before.len() && before[i] == other;
                lemma_first_is_least(before, i);
            }
            assert(before.contains(before[0]));
            assert(before =~= entries@.push(last));
        }
        if entries.len() == 0 {
            proof {
                assert(before.remove(0) =~= entries@);
            }
            self.entries = entries;
            return Some(last);
        }
        let first = entries[0];
        let ghost rest = entries@;
        entries.set(0, last);
        proof {
            broadcast use vstd::multiset::group_multiset_axioms;

            to_multiset_update(rest, 0, last);
            assert(entries@.to_multiset() =~= before.to_multiset().remove(first));
            assert forall|i: int|
                0 <= i < entries@.len() && parent(i) != 0 implies #[trigger] ordered_at(
                entries@,
                i,
            ) by {
                if i > 0 {
                    assert(ordered_at(before, i));
                }
            }
        }
        sift_down(&mut entries, 0);
        self.entries = entries;
        Some(first)
    }
}

} // verus!
