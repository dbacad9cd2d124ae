//! The ways in which an operation is refused.
use vstd::prelude::*;

verus! {

/// The error type of `cosmwasm_std`, carried through as it came.
#[verifier::external_type_specification]
#[verifier::external_body]
pub struct ExStdError(cosmwasm_std::StdError);

/// Why a value could not be had from storage.
#[derive(Debug, PartialEq)]
pub enum StorageError {
    /// Nothing is stored under the key.
    NotFound(cosmwasm_std::StdError),
    /// Something is stored there, but it does not decode.
    Unreadable(cosmwasm_std::StdError),
}

pub enum StorageFailure {
    NotFound,
    Unreadable,
}

impl View for StorageError {
    type V = StorageFailure;

    open spec fn view(&self) -> StorageFailure {
        match self {
            StorageError::NotFound(_) => StorageFailure::NotFound,
            StorageError::Unreadable(_) => StorageFailure::Unreadable,
        }
    }
}

/// Why a payment was not accepted.
#[derive(Clone, Debug, PartialEq, Eq)]
pub enum PaymentError {
    /// The denomination that had to be sent was not
    MissingDenom(String),
    /// A denomination that is not accepted was sent
    ExtraDenom(String),
    /// More than one denomination was sent
    MultipleDenoms {},
    /// Nothing was sent
    NoFunds {},
    /// The message accepts no funds
    NonPayable {},
}

pub enum PaymentFailure {
    MissingDenom(Seq<char>),
    ExtraDenom(Seq<char>),
    MultipleDenoms,
    NoFunds,
    NonPayable,
}

impl View for PaymentError {
    type V = PaymentFailure;

    open spec fn view(&self) -> PaymentFailure {
        match self {
            PaymentError::MissingDenom(denom) => PaymentFailure::MissingDenom(denom@),
            PaymentError::ExtraDenom(denom) => PaymentFailure::ExtraDenom(denom@),
            PaymentError::MultipleDenoms {  } => PaymentFailure::MultipleDenoms,
            PaymentError::NoFunds {  } => PaymentFailure::NoFunds,
            PaymentError::NonPayable {  } => PaymentFailure::NonPayable,
        }
    }
}

/// The operations whose result may be too large.
#[derive(Clone, Copy, Debug, PartialEq, Eq, Structural)]
pub enum OverflowOperation {
    Add,
    Mul,
}

/// The errors of this contract.
#[derive(Debug, PartialEq)]
pub enum ContractError {
    /// A value could not be had from storage
    Std(StorageError),
    /// The payment was not accepted
    Payment(PaymentError),
    /// A result does not fit
    Overflow { operation: OverflowOperation, left: u128, right: u128 },
    /// A division by zero
    DivideByZero { operand: u128 },
    /// There is no army with this id
    NoArmy { id: u8 },
    /// The game is not open
    NotOpen {},
    /// The game is not over
    NotOver {},
    /// The player has staked with another army
    Traitor {},
    /// There are more armies than a game can have
    TooManyArmies {},
    /// There are more battlefields than a game can have
    TooManyBattlefields {},
    /// There is no army that could have won
    NoArmies {},
    /// The player has been paid
    AlreadyWithdrawn {},
}

pub enum Failure {
    Std(StorageFailure),
    Payment(PaymentFailure),
    Overflow { operation: OverflowOperation, left: u128, right: u128 },
    DivideByZero { operand: u128 },
    NoArmy { id: u8 },
    NotOpen,
    NotOver,
    Traitor,
    TooManyArmies,
    TooManyBattlefields,
    NoArmies,
    AlreadyWithdrawn,
}

impl View for ContractError {
    type V = Failure;

    open spec fn view(&self) -> Failure {
        match *self {
            ContractError::Std(e) => Failure::Std(e@),
            ContractError::Payment(e) => Failure::Payment(e@),
            ContractError::Overflow { operation, left, right } => Failure::Overflow {
                operation,
                left,
                right,
            },
            ContractError::DivideByZero { operand } => Failure::DivideByZero { operand },
            ContractError::NoArmy { id } => Failure::NoArmy { id },
            ContractError::NotOpen {  } => Failure::NotOpen,
            ContractError::NotOver {  } => Failure::NotOver,
            ContractError::Traitor {  } => Failure::Traitor,
            ContractError::TooManyArmies {  } => Failure::TooManyArmies,
            ContractError::TooManyBattlefields {  } => Failure::TooManyBattlefields,
            ContractError::NoArmies {  } => Failure::NoArmies,
            ContractError::AlreadyWithdrawn {  } => Failure::AlreadyWithdrawn,
        }
    }
}

/// A result by the views of what it holds.
pub open spec fn seen<T: View, E: View>(r: Result<T, E>) -> Result<T::V, E::V> {
    match r {
        Ok(v) => Ok(v@),
        Err(e) => Err(e@),
    }
}

/// A result that may hold nothing, by the views of what it holds.
pub open spec fn seen_option<T: View, E: View>(r: Result<Option<T>, E>) -> Result<
    Option<T::V>,
    E::V,
> {
    match r {
        Ok(Some(v)) => Ok(Some(v@)),
        Ok(None) => Ok(None),
        Err(e) => Err(e@),
    }
}

} // verus!
