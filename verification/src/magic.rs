//! The streaming extraction helpers: pull one named field out of a large
//! map-shaped document and act on each element of the sequence behind it,
//! without materializing the document.
//!
//! The driver that feeds events from a deserializer lives outside the
//! verified library; the decisions it consults stand here.

use vstd::prelude::*;

verus! {

/// Runs a nested extraction on one named field of a map-shaped document:
/// siblings of the named field are skipped unparsed.
pub struct SeedField<T> {
    pub names: &'static [&'static str],
    pub inner: T,
}

impl<T> SeedField<T> {
    /// Aim the inner extraction at the first of `field`.
    pub fn new(field: &'static [&'static str], seed: T) -> (r: SeedField<T>)
        ensures
            r.names@ == field@,
            r.inner == seed,
    {
        SeedField { names: field, inner: seed }
    }

    /// Whether a map key is the field to descend into; every other sibling
    /// is skipped.
    pub fn wants(&self, key: &str) -> (r: bool)
        requires
            self.names@.len() > 0,
        ensures
            r == (key@ == self.names@[0]@),
    {
        crate::strutil::str_eq(key, self.names[0])
    }
}

/// Whether to keep consuming sequence elements, or stop with a result.
pub enum IterState<R> {
    Continue,
    Break(R),
}

/// Folds the per-element verdicts of a sequence walk: the first `Break`
/// short-circuits and its payload is the walk's result.
pub struct ItemAction<R> {
    pub outcome: Option<R>,
}

impl<R> ItemAction<R> {
    /// A walk that has seen no element yet.
    pub fn new() -> (r: ItemAction<R>)
        ensures
            r.outcome is None,
    {
        ItemAction { outcome: None }
    }

    /// Take one element's verdict; the walk stops at the first `Break`.
    pub fn absorb(&mut self, verdict: IterState<R>) -> (stop: bool)
        requires
            old(self).outcome is None,
        ensures
            match verdict {
                IterState::Break(r) => stop && final(self).outcome == Some(r),
                IterState::Continue => !stop && final(self).outcome is None,
            },
    {
        match verdict {
            IterState::Break(r) => {
                self.outcome = Some(r);
                true
            },
            IterState::Continue => false,
        }
    }
}

} // verus!
