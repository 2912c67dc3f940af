//! Division with remainder.

use vstd::prelude::*;
use vstd::std_specs::ops::DivSpec;
use vstd::std_specs::ops::RemSpec;

verus! {

/// Quotient and remainder of one division, for any type that divides.
pub fn div_rem<T: std::ops::Div<Output = T> + std::ops::Rem<Output = T> + Copy>(
    x: T,
    y: T,
) -> (qr: (T, T))
    requires
        x.div_req(y),
        x.rem_req(y),
    ensures
        T::obeys_div_spec() ==> qr.0 == x.div_spec(y),
        T::obeys_rem_spec() ==> qr.1 == x.rem_spec(y),
{
    let quot = x / y;
    let rem = x % y;
    (quot, rem)
}

} // verus!
