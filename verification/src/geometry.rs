use vstd::prelude::*;
use vstd::std_specs::cmp::PartialOrdIs;
use vstd::std_specs::cmp::PartialOrdSpec;

verus! {

/// What `clamp` yields for a type with a known order: `max` when `value`
/// lies above it, else `min` when `value` lies below it, else `value` itself.
pub open spec fn clamped<T: PartialOrd>(value: T, min: T, max: T) -> T {
    if value.is_gt(&max) {
        max
    } else if value.is_lt(&min) {
        min
    } else {
        value
    }
}

/// Confines `value` to the range from `min` to `max`.
///
/// The upper bound is tested first, so with `min` above `max` a value over
/// `max` still comes back as `max`. A value that is neither greater than
/// `max` nor less than `min` (one without an order, such as a not-a-number,
/// among them) is handed back unchanged.
///
/// The first clause speaks of types whose comparisons have a meaning known
/// to the verifier; the second holds of every type, in terms of what `>` and
/// `<` answered.
pub fn clamp<T: PartialOrd>(value: T, min: T, max: T) -> (r: T)
    ensures
        T::obeys_partial_cmp_spec() ==> r == clamped(value, min, max),
        exists|above: bool| #[trigger]
            call_ensures(T::gt, (&value, &max), above) && if above {
                r == max
            } else {
                exists|below: bool| #[trigger]
                    call_ensures(T::lt, (&value, &min), below) && if below {
                        r == min
                    } else {
                        r == value
                    }
            },
{
    if value > max {
        max
    } else if value < min {
        min
    } else {
        value
    }
}

/// A clamped value never lies outside the bounds when the bounds are in order.
pub proof fn lemma_clamp_within(value: i64, min: i64, max: i64)
    requires
        min <= max,
    ensures
        min <= clamped(value, min, max) <= max,
{
}

} // verus!
