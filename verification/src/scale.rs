use vstd::prelude::*;

use crate::json::JsonNumber;

verus! {

/// Whether `f` can scale every value by every scale, and gives the same
/// result for the same arguments.
///
/// Scaling multiplies a decoded value by the descriptor's `scale` in
/// floating point (`(value as f64 * scale as f64) as u64`); floating point
/// stays with the caller, who hands that multiplication in as `f`.
pub open spec fn is_scaling<F: Fn(u64, JsonNumber) -> u64>(f: F) -> bool {
    &&& forall|v: u64, s: JsonNumber| #[trigger] f.requires((v, s))
    &&& forall|v: u64, s: JsonNumber, a: u64, b: u64|
        #[trigger] f.ensures((v, s), a) && #[trigger] f.ensures((v, s), b) ==> a == b
}

/// The value `v` scaled by `s` through `f`.
pub open spec fn scaled<F: Fn(u64, JsonNumber) -> u64>(f: F, v: u64, s: JsonNumber) -> u64 {
    choose|r: u64| f.ensures((v, s), r)
}

/// A result that `f` gives for `v` and `s` is the scaled value: what `f`
/// promises of its results holds of `scaled`.
pub proof fn lemma_scaled_is_result<F: Fn(u64, JsonNumber) -> u64>(f: F, v: u64, s: JsonNumber, r: u64)
    requires
        is_scaling(f),
        f.ensures((v, s), r),
    ensures
        scaled(f, v, s) == r,
{
}

/// Scales `v` by `s` through `f`.
pub fn apply_scale<F: Fn(u64, JsonNumber) -> u64>(f: &F, v: u64, s: JsonNumber) -> (r: u64)
    requires
        is_scaling(*f),
    ensures
        f.ensures((v, s), r),
        r == scaled(*f, v, s),
{
    let r = f(v, s);
    r
}

} // verus!
