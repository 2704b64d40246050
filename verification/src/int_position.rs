//! The integer key space: the dense baseline backend.
//!
//! Keys are 32-bit integers assigned densely by slot index, so inserting or
//! deleting renumbers every subsequent record — an O(n) pass on each edit,
//! exactly the cost the key-space abstraction exists to avoid. The backend is
//! kept as the baseline against which the others are compared.

use crate::position::{PosError, Position};
use vstd::prelude::*;

verus! {

/// A key space whose keys are densely assigned 32-bit integers.
pub struct IntPosition {
    records: Vec<(String, i32)>,
}

impl IntPosition {
    /// The key stored at slot `i`.
    pub closed spec fn key_at(&self, i: int) -> int {
        self.records@[i].1 as int
    }

    /// The number of records: the length of the label sequence.
    pub open spec fn count(&self) -> nat {
        self.labels().len()
    }

    /// Every slot's key lies between the slot index and the index plus one.
    /// Keys therefore ascend (not necessarily strictly) in slot order, and
    /// stay clear of the 32-bit bounds as long as the slot count does.
    pub open spec fn keys_wf(&self) -> bool {
        forall|i: int| 0 <= i < self.count() ==> i <= #[trigger] self.key_at(i) <= i + 1
    }

    /// The ordering law, made explicit for this backend: in a well-formed
    /// integer key space the keys ascend in slot order (stably: ties keep
    /// slot order), so the ascending key order of the records is exactly
    /// their slot order, and the labels in slot order equal the labels in
    /// key order.
    pub proof fn lemma_slot_order_is_key_order(&self)
        requires
            self.wf(),
        ensures
            self.sorted_by_keys(),
    {
    }

    /// An empty integer key space.
    fn new() -> (r: Self)
        ensures
            r.wf(),
            r.labels() == Seq::<Seq<char>>::empty(),
            r.count() == 0,
    {
        let r = IntPosition { records: Vec::new() };
        proof {
            assert(r.labels() =~= Seq::<Seq<char>>::empty());
        }
        r
    }
}

impl Position for IntPosition {
    /// The labels in slot order.
    closed spec fn labels(&self) -> Seq<Seq<char>> {
        Seq::new(self.records@.len(), |i: int| self.records@[i].0@)
    }

    open spec fn wf(&self) -> bool {
        self.keys_wf()
    }

    open spec fn keys_fixed(pre: Self, post: Self) -> bool {
        &&& pre.count() == post.count()
        &&& forall|i: int| 0 <= i < pre.count() ==> #[trigger] pre.key_at(i) == post.key_at(i)
    }

    open spec fn sorted_by_keys(&self) -> bool {
        forall|i: int, j: int|
            0 <= i < j < self.count() ==> #[trigger] self.key_at(i) <= #[trigger] self.key_at(j)
    }

    /// A freshly built integer key space assigns keys densely: slot `i`
    /// holds key `i`.
    open spec fn initial_keys(&self) -> bool {
        forall|i: int| 0 <= i < self.count() ==> #[trigger] self.key_at(i) == i
    }

    /// Appending keeps every existing slot's key and gives the new last slot
    /// the old last key plus one (key `1` on an empty space), greater than
    /// every existing key.
    open spec fn keys_after_add(pre: Self, post: Self) -> bool {
        &&& post.count() == pre.count() + 1
        &&& forall|i: int| 0 <= i < pre.count() ==> #[trigger] post.key_at(i) == pre.key_at(i)
        &&& post.key_at(pre.count() as int) == if pre.count() == 0 {
            1int
        } else {
            pre.key_at(pre.count() - 1) + 1
        }
    }

    /// Inserting renumbers: slots left of `idx` keep their keys, every old
    /// slot at `idx` and beyond moves right with its key incremented by one,
    /// and the new slot holds `idx` itself — between its neighbours' keys.
    open spec fn keys_after_insert(pre: Self, post: Self, idx: int) -> bool {
        &&& post.count() == pre.count() + 1
        &&& forall|i: int| 0 <= i < idx ==> #[trigger] post.key_at(i) == pre.key_at(i)
        &&& forall|i: int|
            idx <= i < pre.count() ==> #[trigger] post.key_at(i + 1) == pre.key_at(i) + 1
        &&& post.key_at(idx) == idx
    }

    /// Deleting renumbers symmetrically: slots left of `idx` keep their
    /// keys, and every old slot after `idx` moves left with its key
    /// decremented by one.
    open spec fn keys_after_delete(pre: Self, post: Self, idx: int) -> bool {
        &&& post.count() + 1 == pre.count()
        &&& forall|i: int| 0 <= i < idx ==> #[trigger] post.key_at(i) == pre.key_at(i)
        &&& forall|i: int|
            idx <= i < post.count() ==> #[trigger] post.key_at(i) == pre.key_at(i + 1) - 1
    }

    fn from_keys(keys: Vec<&str>) -> (r: Self) {
        let mut pos = IntPosition::new();
        let n = keys.len();
        let mut i: usize = 0;
        while i < n
            invariant
                i <= n,
                n == keys@.len(),
                n < 0x7FFF_FFFF,
                pos.count() == i,
                pos.initial_keys(),
                pos.labels() == keys.deep_view().take(i as int),
            decreases n - i,
        {
            let k: &str = keys[i];
            let ghost pre = pos;
            pos.records.push((k.to_owned(), i as i32));
            proof {
                assert forall|m: int| 0 <= m < pos.count() implies #[trigger] pos.key_at(m)
                    == m by {
                    if m < i {
                        assert(pos.key_at(m) == pre.key_at(m));
                    }
                }
                assert(keys.deep_view()[i as int] == k@);
                assert(pos.labels() =~= keys.deep_view().take(i + 1 as int));
            }
            i = i + 1;
        }
        proof {
            assert(pos.labels() =~= keys.deep_view());
            assert forall|m: int| 0 <= m < pos.count() implies m <= #[trigger] pos.key_at(m) <= m
                + 1 by {}
        }
        pos
    }

    fn add(&mut self, key: &str) {
        let ghost pre = *self;
        let n = self.records.len();
        if n == 0 {
            self.records.push((key.to_owned(), 1));
        } else {
            proof {
                assert(pre.key_at(n - 1) <= n as int);
            }
            let last: i32 = self.records[n - 1].1;
            self.records.push((key.to_owned(), last + 1));
        }
        proof {
            assert forall|m: int| 0 <= m < self.count() implies m <= #[trigger] self.key_at(m) <= m
                + 1 by {
                if m < n {
                    assert(self.key_at(m) == pre.key_at(m));
                } else if n > 0 {
                    assert(pre.key_at(n - 1) >= n - 1);
                }
            }
            assert(self.labels() =~= pre.labels().push(key@));
            assert forall|i: int| 0 <= i < pre.count() implies #[trigger] self.key_at(i)
                == pre.key_at(i) by {}
            assert(Self::keys_after_add(pre, *self));
        }
    }

    fn insert(&mut self, key: &str, idx: usize) -> (r: Result<(), PosError>) {
        let ghost pre = *self;
        let n = self.records.len();
        if idx > n {
            return Err(PosError::OutOfBounds);
        }
        // Renumber every record at `idx` and beyond, then give the new record
        // the slot index itself as its key.
        let mut j: usize = idx;
        while j < n
            invariant
                idx <= j <= n,
                n == self.records@.len(),
                n < 0x7FFF_FFFF,
                pre.wf(),
                pre.records@.len() == n,
                forall|k: int| 0 <= k < idx ==> self.records@[k] == pre.records@[k],
                forall|k: int|
                    idx <= k < j ==> (#[trigger] self.records@[k]).0 == pre.records@[k].0
                        && self.key_at(k) == pre.key_at(k) + 1,
                forall|k: int| j <= k < n ==> self.records@[k] == pre.records@[k],
            decreases n - j,
        {
            proof {
                assert(pre.key_at(j as int) <= j + 1);
            }
            let v: i32 = self.records[j].1;
            self.records[j].1 = v + 1;
            j = j + 1;
        }
        self.records.insert(idx, (key.to_owned(), idx as i32));
        proof {
            assert forall|m: int| 0 <= m < self.count() implies m <= #[trigger] self.key_at(m) <= m
                + 1 by {
                if m < idx {
                    assert(self.key_at(m) == pre.key_at(m));
                } else if m > idx {
                    assert(self.key_at(m) == pre.key_at(m - 1) + 1);
                }
            }
            assert(self.labels() =~= pre.labels().insert(idx as int, key@));
            assert forall|i: int| 0 <= i < idx implies #[trigger] self.key_at(i) == pre.key_at(
                i,
            ) by {}
            assert forall|i: int| idx <= i < pre.count() implies #[trigger] self.key_at(i + 1)
                == pre.key_at(i) + 1 by {}
            assert(self.key_at(idx as int) == idx as int);
            assert(Self::keys_after_insert(pre, *self, idx as int));
        }
        Ok(())
    }

    fn shift(&mut self, from: usize, to: usize) -> (r: Result<(), PosError>) {
        let ghost pre = *self;
        let n = self.records.len();
        if from >= n || to >= n {
            return Err(PosError::OutOfBounds);
        }
        let label_from: String = self.records[from].0.clone();
        let label_to: String = self.records[to].0.clone();
        self.records[from].0 = label_to;
        self.records[to].0 = label_from;
        proof {
            assert forall|i: int| 0 <= i < self.count() implies #[trigger] self.key_at(i)
                == pre.key_at(i) by {}
            assert(self.labels() =~= pre.labels().update(from as int, pre.labels()[to as int])
                .update(to as int, pre.labels()[from as int]));
        }
        Ok(())
    }

    fn delete(&mut self, idx: usize) -> (r: Result<String, PosError>) {
        let ghost pre = *self;
        let n = self.records.len();
        if idx >= n {
            return Err(PosError::OutOfBounds);
        }
        // Renumber every record after `idx`, then drop the record at `idx`.
        let mut j: usize = idx + 1;
        while j < n
            invariant
                idx + 1 <= j <= n,
                n == self.records@.len(),
                pre.wf(),
                pre.records@.len() == n,
                forall|k: int| 0 <= k <= idx ==> self.records@[k] == pre.records@[k],
                forall|k: int|
                    idx < k < j ==> (#[trigger] self.records@[k]).0 == pre.records@[k].0
                        && self.key_at(k) == pre.key_at(k) - 1,
                forall|k: int| j <= k < n ==> self.records@[k] == pre.records@[k],
            decreases n - j,
        {
            proof {
                assert(pre.key_at(j as int) >= j as int);
            }
            let v: i32 = self.records[j].1;
            self.records[j].1 = v - 1;
            j = j + 1;
        }
        let rec = self.records.remove(idx);
        proof {
            assert forall|m: int| 0 <= m < self.count() implies m <= #[trigger] self.key_at(m) <= m
                + 1 by {
                if m < idx {
                    assert(self.key_at(m) == pre.key_at(m));
                } else {
                    assert(self.key_at(m) == pre.key_at(m + 1) - 1);
                }
            }
            assert(self.labels() =~= pre.labels().remove(idx as int));
            assert(rec.0@ == pre.labels()[idx as int]);
            assert forall|i: int| 0 <= i < idx implies #[trigger] self.key_at(i) == pre.key_at(
                i,
            ) by {}
            assert forall|i: int| idx <= i < self.count() implies #[trigger] self.key_at(i)
                == pre.key_at(i + 1) - 1 by {}
            assert(Self::keys_after_delete(pre, *self, idx as int));
        }
        Ok(rec.0)
    }

    fn keys(&self) -> (r: Vec<String>) {
        let n = self.records.len();
        let mut out: Vec<String> = Vec::new();
        let mut i: usize = 0;
        while i < n
            invariant
                i <= n,
                n == self.records@.len(),
                out@.len() == i,
                forall|j: int| 0 <= j < i ==> #[trigger] out@[j]@ == self.records@[j].0@,
            decreases n - i,
        {
            out.push(self.records[i].0.clone());
            i = i + 1;
        }
        proof {
            assert(out.deep_view() =~= self.labels());
        }
        out
    }

    fn order(&self) -> (r: Vec<String>) {
        // Keys ascend in slot order (wf), and the assignment is stable on
        // ties, so the ascending key order of the records is their slot order.
        proof {
            assert forall|i: int, j: int| 0 <= i < j < self.count() implies #[trigger] self.key_at(
                i,
            ) <= #[trigger] self.key_at(j) by {}
        }
        let n = self.records.len();
        let mut out: Vec<String> = Vec::new();
        let mut i: usize = 0;
        while i < n
            invariant
                i <= n,
                n == self.records@.len(),
                out@.len() == i,
                forall|j: int| 0 <= j < i ==> #[trigger] out@[j]@ == self.records@[j].0@,
            decreases n - i,
        {
            out.push(self.records[i].0.clone());
            i = i + 1;
        }
        proof {
            assert(out.deep_view() =~= self.labels());
        }
        out
    }
}

} // verus!
