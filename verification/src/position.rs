//! The key space interface: an ordered sequence of `(label, key)` records with
//! list-editing operations, implemented by the integer and string backends.
//!
//! Two orderings coexist: *slot order*, the physical sequence position (what
//! [`Position::keys`] returns), and *key order*, the order of the records'
//! keys (what [`Position::order`] returns). Every backend maintains the
//! well-formedness invariant `wf`, which states that keys ascend with slot
//! position; under that invariant the two orderings never diverge, so both
//! accessors return the labels in slot order, and [`Position::shift`] — a
//! pairwise label swap that leaves every slot's key in place — keeps the
//! invariant trivially.
//!
//! Besides the label sequence, every editing operation pins down how the
//! stored keys change, through the per-backend spec functions
//! `initial_keys`, `keys_after_add`, `keys_after_insert`, `keys_after_delete`
//! and `keys_fixed`: which slots keep their keys, and what key a new slot
//! receives.

use vstd::prelude::*;

verus! {

/// The ways an operation on a key space can fail. A failed operation leaves
/// the key space unmodified.
#[derive(Clone, Copy, Debug, PartialEq, Eq)]
pub enum PosError {
    /// The midpoint generator was asked for a key between two boundary points
    /// that are not in strictly ascending order.
    InvalidRange,
    /// A slot index lay outside the record sequence.
    OutOfBounds,
    /// A newly computed key collided with one of its neighbours. Only the
    /// float backend can run out of room this way; the integer and string
    /// backends never produce it.
    PrecisionExhausted,
}

/// A key space: an ordered sequence of `(label, key)` records. Labels are
/// caller-supplied and opaque; keys are assigned by the backend so that they
/// ascend in slot order.
///
/// The slot-count bound in the preconditions of `from_keys`, `add` and
/// `insert` is what the integer backend's 32-bit keys force; the other
/// backends are indifferent to it.
pub trait Position: Sized {
    /// The labels in slot order.
    spec fn labels(&self) -> Seq<Seq<char>>;

    /// The backend's invariant: keys are well formed and ascend in slot order.
    spec fn wf(&self) -> bool;

    /// `post` holds the same key as `pre` at every slot.
    spec fn keys_fixed(pre: Self, post: Self) -> bool;

    /// The keys ascend in slot order, so the labels in slot order are the
    /// labels in ascending key order. Each backend opens this over its own
    /// key type.
    spec fn sorted_by_keys(&self) -> bool;

    /// The keys a freshly built key space holds: each backend opens this to
    /// its own initial assignment (dense slot indices for the integer
    /// backend, the chain of appended midpoints for the string backend).
    spec fn initial_keys(&self) -> bool;

    /// How `post`'s keys relate to `pre`'s after appending one record: every
    /// existing slot keeps its key, and the new last slot holds the backend's
    /// append key, greater than every existing key.
    spec fn keys_after_add(pre: Self, post: Self) -> bool;

    /// How `post`'s keys relate to `pre`'s after inserting at `idx`: slots
    /// left of `idx` keep their keys, the shifted slots carry their keys as
    /// the backend prescribes (unchanged for the string backend, renumbered
    /// by one for the integer backend), and the new slot's key lies strictly
    /// between its old neighbours' keys.
    spec fn keys_after_insert(pre: Self, post: Self, idx: int) -> bool;

    /// How `post`'s keys relate to `pre`'s after deleting slot `idx`: slots
    /// left of `idx` keep their keys, and the shifted slots carry their keys
    /// as the backend prescribes.
    spec fn keys_after_delete(pre: Self, post: Self, idx: int) -> bool;

    /// Builds a key space from an initial label sequence, assigning each label
    /// a key in slot order.
    fn from_keys(keys: Vec<&str>) -> (r: Self)
        requires
            keys@.len() < 0x7FFF_FFFF,
        ensures
            r.wf(),
            r.labels() == keys.deep_view(),
            r.initial_keys(),
    ;

    /// Appends a record after the current last slot, with a key greater than
    /// every existing key.
    fn add(&mut self, key: &str)
        requires
            old(self).wf(),
            old(self).labels().len() < 0x7FFF_FFFF,
        ensures
            final(self).wf(),
            final(self).labels() == old(self).labels().push(key@),
            Self::keys_after_add(*old(self), *final(self)),
    ;

    /// Inserts a record at `idx`, shifting subsequent slots right, with a key
    /// strictly between its new neighbours' keys. Rejects `idx` beyond the end.
    fn insert(&mut self, key: &str, idx: usize) -> (r: Result<(), PosError>)
        requires
            old(self).wf(),
            old(self).labels().len() < 0x7FFF_FFFF,
        ensures
            final(self).wf(),
            idx <= old(self).labels().len() ==> r == Ok::<(), PosError>(())
                && final(self).labels() == old(self).labels().insert(idx as int, key@)
                && Self::keys_after_insert(*old(self), *final(self), idx as int),
            idx > old(self).labels().len() ==> r == Err::<(), PosError>(PosError::OutOfBounds)
                && *final(self) == *old(self),
    ;

    /// Exchanges the labels at the two slots; each slot's key stays in place,
    /// so the invariant that keys ascend with slot position is untouched.
    fn shift(&mut self, from: usize, to: usize) -> (r: Result<(), PosError>)
        requires
            old(self).wf(),
        ensures
            final(self).wf(),
            from < old(self).labels().len() && to < old(self).labels().len() ==> r == Ok::<
                (),
                PosError,
            >(()) && final(self).labels() == old(self).labels().update(
                from as int,
                old(self).labels()[to as int],
            ).update(to as int, old(self).labels()[from as int]) && Self::keys_fixed(
                *old(self),
                *final(self),
            ),
            !(from < old(self).labels().len() && to < old(self).labels().len()) ==> r == Err::<
                (),
                PosError,
            >(PosError::OutOfBounds) && *final(self) == *old(self),
    ;

    /// Deletes the record at `idx`, returning its label and shifting
    /// subsequent slots left.
    fn delete(&mut self, idx: usize) -> (r: Result<String, PosError>)
        requires
            old(self).wf(),
        ensures
            final(self).wf(),
            idx < old(self).labels().len() ==> r is Ok && r->Ok_0@ == old(self).labels()[idx as int]
                && final(self).labels() == old(self).labels().remove(idx as int)
                && Self::keys_after_delete(*old(self), *final(self), idx as int),
            idx >= old(self).labels().len() ==> r == Err::<String, PosError>(PosError::OutOfBounds)
                && *final(self) == *old(self),
    ;

    /// The labels in slot order.
    fn keys(&self) -> (r: Vec<String>)
        ensures
            r.deep_view() == self.labels(),
    ;

    /// The labels in ascending key order. Under `wf` the keys already ascend
    /// in slot order (`sorted_by_keys`), so the slot-order listing is the
    /// key-order listing: the two orderings never diverge under the
    /// operations of this trait.
    fn order(&self) -> (r: Vec<String>)
        requires
            self.wf(),
        ensures
            r.deep_view() == self.labels(),
            self.sorted_by_keys(),
    ;
}

/// Building a key space assigns the given labels in slot order.
pub fn test_from_keys<T: Position>() {
    let data: Vec<&str> = vec!["a", "b", "c", "d"];
    let ghost expected = data.deep_view();
    let pos = T::from_keys(data);
    let ks = pos.keys();
    assert(ks.deep_view() == expected);
}

/// Appending places the new label after the current last slot.
pub fn test_add<T: Position>() {
    let data: Vec<&str> = vec!["a", "b"];
    let ghost initial = data.deep_view();
    let mut pos = T::from_keys(data);
    pos.add("c");
    let ks = pos.keys();
    assert(ks.deep_view() == initial.push("c"@));
}

/// Inserting at a slot shifts the subsequent labels right by one.
pub fn test_insert<T: Position>() {
    let data: Vec<&str> = vec!["a", "b", "c"];
    let ghost initial = data.deep_view();
    let mut pos = T::from_keys(data);
    let r = pos.insert("d", 1);
    assert(r is Ok);
    let ks = pos.keys();
    assert(ks.deep_view() == initial.insert(1, "d"@));
}

/// Shifting exchanges exactly the two labels, leaving the rest in place.
pub fn test_shift<T: Position>() {
    let data: Vec<&str> = vec!["a", "b", "c", "d"];
    let ghost initial = data.deep_view();
    let mut pos = T::from_keys(data);
    let r = pos.shift(1, 3);
    assert(r is Ok);
    let ks = pos.keys();
    assert(ks.deep_view() == initial.update(1, initial[3]).update(3, initial[1]));
}

/// Deleting returns the removed slot's label and shifts the rest left.
pub fn test_delete<T: Position>() {
    let data: Vec<&str> = vec!["a", "b", "c", "d"];
    let ghost initial = data.deep_view();
    let mut pos = T::from_keys(data);
    let deleted = pos.delete(2);
    match deleted {
        Ok(label) => {
            assert(label@ == "c"@);
        },
        Err(_) => {
            assert(false);
        },
    }
    let ks = pos.keys();
    assert(ks.deep_view() == initial.remove(2));
}

} // verus!
