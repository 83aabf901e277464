//! The open set: entries ordered by `(f, seq)`, earliest insertion first
//! among equal estimates.
use vstd::prelude::*;
use crate::grid::Cell;

verus! {

/// A frontier entry: estimated total cost, insertion number, cell.
#[derive(Clone, Copy, Debug, PartialEq, Eq, Structural)]
pub struct Entry {
    pub f: usize,
    pub seq: usize,
    pub cell: Cell,
}

/// `a` comes out no later than `b`.
pub open spec fn key_le(a: Entry, b: Entry) -> bool {
    a.f < b.f || (a.f == b.f && a.seq <= b.seq)
}

pub struct FrontierView {
    pub entries: Seq<Entry>,
    pub next_seq: nat,
}

impl FrontierView {
    /// Insertion numbers are distinct and below the next one to be given.
    pub open spec fn wf(self) -> bool {
        &&& forall|i: int| 0 <= i < self.entries.len() ==> (#[trigger] self.entries[i]).seq < self.next_seq
        &&& forall|i: int, j: int|
            0 <= i < self.entries.len() && 0 <= j < self.entries.len() && i != j ==> (#[trigger] self.entries[i]).seq
                != (#[trigger] self.entries[j]).seq
    }
}

pub struct Frontier {
    entries: Vec<Entry>,
    next_seq: usize,
}

impl View for Frontier {
    type V = FrontierView;

    closed spec fn view(&self) -> FrontierView {
        FrontierView { entries: self.entries@, next_seq: self.next_seq as nat }
    }
}

impl Frontier {
    pub fn new() -> (r: Frontier)
        ensures
            r@.entries.len() == 0,
            r@.next_seq == 0,
            r@.wf(),
    {
        Frontier { entries: Vec::new(), next_seq: 0 }
    }

    pub fn len(&self) -> (r: usize)
        ensures
            r == self@.entries.len(),
    {
        self.entries.len()
    }

    pub fn is_empty(&self) -> (r: bool)
        ensures
            r == (self@.entries.len() == 0),
    {
        self.entries.len() == 0
    }

    /// Inserts `cell` with estimate `f` under the next insertion number.
    pub fn push(&mut self, cell: Cell, f: usize)
        requires
            old(self)@.next_seq < usize::MAX,
            old(self)@.wf(),
        ensures
            final(self)@.wf(),
            final(self)@.entries == old(self)@.entries.push(
                Entry { f, seq: old(self)@.next_seq as usize, cell },
            ),
            final(self)@.next_seq == old(self)@.next_seq + 1,
    {
        let ghost old_entries = self.entries@;
        assert(old_entries == old(self)@.entries);
        assert(self.next_seq == old(self)@.next_seq);
        self.entries.push(Entry { f, seq: self.next_seq, cell });
        self.next_seq = self.next_seq + 1;
        proof {
            assert forall|a: int| 0 <= a < self.entries@.len() implies (#[trigger] self.entries@[a]).seq < self.next_seq by {
                if a < old_entries.len() {
                    assert(self.entries@[a] == old_entries[a]);
                    assert(old_entries[a].seq < old(self)@.next_seq);
                }
            }
            assert forall|a: int, b: int|
                0 <= a < self.entries@.len() && 0 <= b < self.entries@.len() && a != b implies (#[trigger] self.entries@[a]).seq
                    != (#[trigger] self.entries@[b]).seq by {
                if a < old_entries.len() {
                    assert(self.entries@[a] == old_entries[a]);
                    assert(old_entries[a].seq < old(self)@.next_seq);
                }
                if b < old_entries.len() {
                    assert(self.entries@[b] == old_entries[b]);
                    assert(old_entries[b].seq < old(self)@.next_seq);
                }
            }
        }
    }

    /// Whether some entry holds `cell`.
    pub fn contains(&self, cell: Cell) -> (r: bool)
        ensures
            r == (exists|i: int| 0 <= i < self@.entries.len() && (#[trigger] self@.entries[i]).cell == cell),
    {
        let mut i: usize = 0;
        while i < self.entries.len()
            invariant
                i <= self.entries@.len(),
                forall|j: int| 0 <= j < i ==> (#[trigger] self.entries@[j]).cell != cell,
            decreases self.entries@.len() - i,
        {
            if self.entries[i].cell == cell {
                assert(self@.entries[i as int].cell == cell);
                return true;
            }
            i = i + 1;
        }
        false
    }

    /// Removes and returns the entry with the smallest `(f, seq)`, or `None`
    /// when the frontier is empty.
    pub fn pop_min(&mut self) -> (r: Option<Entry>)
        requires
            old(self)@.wf(),
        ensures
            final(self)@.wf(),
            final(self)@.next_seq == old(self)@.next_seq,
            old(self)@.entries.len() == 0 <==> r is None,
            r is None ==> final(self)@ == old(self)@,
            r matches Some(e) ==> {
                &&& exists|i: int|
                    0 <= i < old(self)@.entries.len() && old(self)@.entries[i] == e
                        && final(self)@.entries == old(self)@.entries.remove(i)
                &&& forall|j: int|
                    0 <= j < old(self)@.entries.len() ==> key_le(e, #[trigger] old(self)@.entries[j])
                &&& forall|x: Entry|
                    old(self)@.entries.contains(x) && x != e ==> #[trigger] final(self)@.entries.contains(x)
                &&& forall|x: Entry|
                    #[trigger] final(self)@.entries.contains(x) ==> old(self)@.entries.contains(x)
            },
    {
        let n = self.entries.len();
        if n == 0 {
            return None;
        }
        let mut best: usize = 0;
        let mut i: usize = 1;
        while i < n
            invariant
                n == self.entries@.len(),
                best < i <= n,
                forall|j: int| 0 <= j < i ==> key_le(self.entries@[best as int], #[trigger] self.entries@[j]),
            decreases n - i,
        {
            let a = self.entries[i];
            let b = self.entries[best];
            if a.f < b.f || (a.f == b.f && a.seq < b.seq) {
                best = i;
            }
            i = i + 1;
        }
        let ghost old_entries = self.entries@;
        let e = self.entries.remove(best);
        proof {
            assert(old_entries[best as int] == e);
            assert forall|a: int, b: int|
                0 <= a < self.entries@.len() && 0 <= b < self.entries@.len() && a != b implies (#[trigger] self.entries@[a]).seq
                    != (#[trigger] self.entries@[b]).seq by {
                let a0 = if a < best { a } else { a + 1 };
                let b0 = if b < best { b } else { b + 1 };
                assert(self.entries@[a] == old_entries[a0]);
                assert(self.entries@[b] == old_entries[b0]);
            }
            assert forall|a: int| 0 <= a < self.entries@.len() implies (#[trigger] self.entries@[a]).seq < self.next_seq by {
                let a0 = if a < best { a } else { a + 1 };
                assert(self.entries@[a] == old_entries[a0]);
            }
            assert(self.entries@ == old_entries.remove(best as int));
            assert(old_entries == old(self)@.entries);
            assert(exists|i: int|
                0 <= i < old_entries.len() && old_entries[i] == e
                    && self.entries@ == old_entries.remove(i));
            assert forall|x: Entry| old_entries.contains(x) && x != e implies #[trigger] self.entries@.contains(x) by {
                let k = choose|k: int| 0 <= k < old_entries.len() && old_entries[k] == x;
                if k < best {
                    assert(self.entries@[k] == x);
                } else {
                    assert(self.entries@[k - 1] == x);
                }
            }
            assert forall|x: Entry| #[trigger] self.entries@.contains(x) implies old_entries.contains(x) by {
                let k = choose|k: int| 0 <= k < self.entries@.len() && self.entries@[k] == x;
                if k < best {
                    assert(old_entries[k] == x);
                } else {
                    assert(old_entries[k + 1] == x);
                }
            }
        }
        Some(e)
    }
}

} // verus!
