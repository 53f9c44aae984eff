//! Weight functions for the BABE pallet, from its benchmarks.
use vstd::prelude::*;

verus! {

/// Weight of a dispatchable, in weight units.
pub type Weight = u64;

/// Weight functions for pallet_babe.
pub struct WeightInfo<T>(core::marker::PhantomData<T>);

/// The weight of checking an equivocation proof over `x` validators: a
/// base weight and a weight per validator.
pub open spec fn equivocation_proof_weight(x: u32) -> nat {
    (147_333_000 + 13_333_000 * x) as nat
}

impl<T> WeightInfo<T> {
    /// `147_333_000 + 13_333_000 * x` weight units, saturating (which,
    /// for a 32-bit `x`, never happens).
    pub fn check_equivocation_proof(x: u32) -> (w: Weight)
        ensures
            w == equivocation_proof_weight(x),
    {
        let per_validator: Weight = match 13_333_000u64.checked_mul(x as Weight) {
            Some(v) => v,
            None => Weight::MAX,
        };
        (147_333_000 as Weight).saturating_add(per_validator)
    }
}

/// The weight never saturates: it is exact for every validator count and
/// grows by the same amount with each validator.
pub proof fn lemma_weight_linear(x: u32)
    requires
        x < u32::MAX,
    ensures
        equivocation_proof_weight(x) <= u64::MAX,
        equivocation_proof_weight((x + 1) as u32) == equivocation_proof_weight(x) + 13_333_000,
{
}

} // verus!
