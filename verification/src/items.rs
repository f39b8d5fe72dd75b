use vstd::prelude::*;

verus! {

/// Equality between tracked values, as an effect compares them.
///
/// A switch effect compares the computed value against its case table with
/// the value type's own equality; a list effect may instead be given a custom
/// equality over items. Both are modelled by this trait: `eq_spec` is the
/// mathematical relation the contracts speak of, and `item_eq` is the
/// executable test that decides it. The relation is not assumed to be
/// reflexive, symmetric or transitive: the reconciliation contracts hold for
/// any predicate.
pub trait ItemEq: Sized {
    /// The relation itself, as contracts state it.
    spec fn eq_spec(&self, other: &Self) -> bool;

    /// Decides `eq_spec`.
    fn item_eq(&self, other: &Self) -> (r: bool)
        ensures
            r == self.eq_spec(other),
    ;
}

impl ItemEq for u64 {
    open spec fn eq_spec(&self, other: &Self) -> bool {
        self == other
    }

    fn item_eq(&self, other: &Self) -> (r: bool) {
        *self == *other
    }
}

impl ItemEq for i64 {
    open spec fn eq_spec(&self, other: &Self) -> bool {
        self == other
    }

    fn item_eq(&self, other: &Self) -> (r: bool) {
        *self == *other
    }
}

impl ItemEq for bool {
    open spec fn eq_spec(&self, other: &Self) -> bool {
        self == other
    }

    fn item_eq(&self, other: &Self) -> (r: bool) {
        *self == *other
    }
}

} // verus!
