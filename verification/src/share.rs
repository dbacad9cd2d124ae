//! Shares of an amount.
use vstd::prelude::*;

use cosmwasm_std::Uint128;

verus! {

/// Multiplies by a ratio with `cosmwasm_std::Uint128::checked_multiply_ratio`: the product is
/// taken in full, then divided and rounded down. There is no result where the denominator is
/// zero, and none where it does not fit.
#[verifier::external_body]
pub(crate) fn multiply_ratio(amount: u128, numerator: u128, denominator: u128) -> (r: Option<u128>)
    ensures
        r == (if denominator == 0 || amount * numerator / denominator as int > u128::MAX {
            None::<u128>
        } else {
            Some((amount * numerator / denominator as int) as u128)
        }),
{
    match Uint128::new(amount).checked_multiply_ratio(numerator, denominator) {
        Ok(share) => Some(share.u128()),
        Err(_) => None,
    }
}

} // verus!
