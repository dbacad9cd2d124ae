//! The coins that come with a message.
use vstd::prelude::*;

use crate::error::{seen, PaymentError, PaymentFailure};
use crate::state::{CoinView, MessageInfo};

verus! {

/// The amount that was paid in `denom`: there has to be exactly one coin, of that
/// denomination, and not zero of it.
pub open spec fn paid(funds: Seq<CoinView>, denom: Seq<char>) -> Result<u128, PaymentFailure> {
    if funds.len() > 1 {
        Err(PaymentFailure::MultipleDenoms)
    } else if funds.len() == 0 || funds[0].amount == 0 {
        Err(PaymentFailure::NoFunds)
    } else if funds[0].denom != denom {
        Err(PaymentFailure::MissingDenom(denom))
    } else {
        Ok(funds[0].amount)
    }
}

/// Takes the payment with `cw_utils::must_pay`: the amount of the only coin, if it is of
/// `denom` and not zero, and otherwise the error that says what is wrong with the funds.
#[verifier::external_body]
pub(crate) fn must_pay(info: &MessageInfo, denom: &str) -> (r: Result<u128, PaymentError>)
    ensures
        seen(r) == paid(info@.funds, denom@),
{
    let sender = cosmwasm_std::Addr::unchecked(info.sender.as_str());
    let funds = info.funds.iter().map(|c| cosmwasm_std::coin(c.amount, c.denom.as_str())).collect();
    match cw_utils::must_pay(&cosmwasm_std::MessageInfo { sender, funds }, denom) {
        Ok(amount) => Ok(amount.u128()),
        Err(cw_utils::PaymentError::MissingDenom(d)) => Err(PaymentError::MissingDenom(d)),
        Err(cw_utils::PaymentError::ExtraDenom(d)) => Err(PaymentError::ExtraDenom(d)),
        Err(cw_utils::PaymentError::MultipleDenoms {  }) => Err(PaymentError::MultipleDenoms {  }),
        Err(cw_utils::PaymentError::NoFunds {  }) => Err(PaymentError::NoFunds {  }),
        Err(cw_utils::PaymentError::NonPayable {  }) => Err(PaymentError::NonPayable {  }),
    }
}

} // verus!
