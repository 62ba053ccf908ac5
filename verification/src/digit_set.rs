//! The set of digits not yet placed on a board, backed by
//! `smallset::SmallSet` so that up to nine digits live inline on the stack.
//!
//! The backing set is opaque to the verifier; `digits_of` names its contents,
//! and the trusted wrappers below state what each `SmallSet` operation does to
//! them, as the crate's source shows. Every `DigitSet` is built through these
//! wrappers alone, so the backing array never holds an element twice:
//! `SmallSet::insert` appends only when a scan finds the element absent, and
//! removing the one occurrence of an element therefore removes it entirely.

use smallset::SmallSet;
use vstd::prelude::*;

verus! {

/// Unordered set of digits, each in 0..=8 when held by a well-formed board.
#[verifier::external_body]
pub struct DigitSet {
    inner: SmallSet<[u8; 9]>,
}

/// The digits held by a `DigitSet`.
pub uninterp spec fn digits_of(s: DigitSet) -> Set<u8>;

impl DigitSet {
    /// Relies on smallset::SmallSet::new: a freshly created set holds no
    /// elements.
    #[verifier::external_body]
    pub fn empty() -> (r: DigitSet)
        ensures
            digits_of(r) =~= Set::<u8>::empty(),
    {
        DigitSet { inner: SmallSet::new() }
    }

    /// Relies on smallset::SmallSet::insert: the element is appended when it
    /// is absent and the set is left alone when it is present, so afterwards
    /// the contents are the old contents plus `d`.
    #[verifier::external_body]
    pub fn insert(&mut self, d: u8)
        ensures
            digits_of(*final(self)) =~= digits_of(*old(self)).insert(d),
    {
        self.inner.insert(d);
    }

    /// Relies on smallset::SmallSet::remove: the element's occurrence is
    /// removed when present, so afterwards the contents are the old contents
    /// without `d`.
    #[verifier::external_body]
    pub fn remove(&mut self, d: u8)
        ensures
            digits_of(*final(self)) =~= digits_of(*old(self)).remove(d),
    {
        self.inner.remove(&d);
    }

    /// Relies on smallset::SmallSet::contains: a linear scan that reports
    /// whether `d` is among the elements.
    #[verifier::external_body]
    pub fn contains(&self, d: u8) -> (r: bool)
        ensures
            r == digits_of(*self).contains(d),
    {
        self.inner.contains(&d)
    }

    /// Relies on smallset::SmallSet::clone: the copy holds exactly the
    /// elements of the original.
    #[verifier::external_body]
    pub fn duplicate(&self) -> (r: DigitSet)
        ensures
            digits_of(r) =~= digits_of(*self),
    {
        DigitSet { inner: self.inner.clone() }
    }

    /// The set of all nine digits of the game.
    pub fn full() -> (r: DigitSet)
        ensures
            digits_of(r) =~= Set::new(|d: u8| d < 9),
    {
        let mut r = DigitSet::empty();
        let mut d: u8 = 0;
        while d < 9
            invariant
                d <= 9,
                digits_of(r) =~= Set::new(|e: u8| e < d),
            decreases 9 - d,
        {
            r.insert(d);
            d = d + 1;
        }
        r
    }
}

} // verus!
