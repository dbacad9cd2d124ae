//! What comes in with a message and what goes out in reply to one.
use vstd::prelude::*;

use crate::state::{coins, ArmyInfo, BattlefieldInfo, Coin, CoinView, Timestamp};

verus! {

/// The instantiation message data for this contract, used to set initial state
#[derive(Clone, Debug, PartialEq, Eq)]
pub struct InstantiateMsgData {
    /// The list of armies
    pub armies: Vec<ArmyInfo>,
    /// A list of battlefields
    pub battlefields: Vec<BattlefieldInfo>,
    /// The duration of the game
    pub battle_duration: Timestamp,
    /// The denom used for staking in this contract
    pub denom: String,
}

/// A key and a value that a reply publishes.
#[derive(Clone, Debug, PartialEq, Eq)]
pub struct Attribute {
    pub key: String,
    pub value: String,
}

pub struct AttributeView {
    pub key: Seq<char>,
    pub value: Seq<char>,
}

impl View for Attribute {
    type V = AttributeView;

    open spec fn view(&self) -> AttributeView {
        AttributeView { key: self.key@, value: self.value@ }
    }
}

/// An order to the chain's bank.
#[derive(Clone, Debug, PartialEq, Eq)]
pub enum BankMsg {
    /// Pay coins out to an address.
    Send { to_address: String, amount: Vec<Coin> },
}

pub enum BankMsgView {
    Send { to_address: Seq<char>, amount: Seq<CoinView> },
}

impl View for BankMsg {
    type V = BankMsgView;

    open spec fn view(&self) -> BankMsgView {
        match self {
            BankMsg::Send { to_address, amount } => BankMsgView::Send {
                to_address: to_address@,
                amount: coins(amount@),
            },
        }
    }
}

/// What is told about a player
#[derive(Clone, Debug, PartialEq, Eq)]
pub struct PlayerInfo {
    /// How much the player has staked
    pub total_staked: u128,
    /// The battlefields that the player is staked in
    pub battlefields: Vec<u8>,
}

pub struct PlayerInfoView {
    pub total_staked: u128,
    pub battlefields: Seq<u8>,
}

impl View for PlayerInfo {
    type V = PlayerInfoView;

    open spec fn view(&self) -> PlayerInfoView {
        PlayerInfoView { total_staked: self.total_staked, battlefields: self.battlefields@ }
    }
}

/// The reply to a message that was carried out.
#[derive(Clone, Debug, PartialEq, Eq)]
pub struct Response {
    pub messages: Vec<BankMsg>,
    pub attributes: Vec<Attribute>,
}

pub struct ResponseView {
    pub messages: Seq<BankMsgView>,
    pub attributes: Seq<AttributeView>,
}

impl View for Response {
    type V = ResponseView;

    open spec fn view(&self) -> ResponseView {
        ResponseView {
            messages: self.messages@.map_values(|m: BankMsg| m@),
            attributes: self.attributes@.map_values(|a: Attribute| a@),
        }
    }
}

impl ResponseView {
    pub open spec fn empty() -> ResponseView {
        ResponseView { messages: Seq::empty(), attributes: Seq::empty() }
    }

    pub open spec fn attribute(self, key: Seq<char>, value: Seq<char>) -> ResponseView {
        ResponseView { attributes: self.attributes.push(AttributeView { key, value }), ..self }
    }

    pub open spec fn message(self, msg: BankMsgView) -> ResponseView {
        ResponseView { messages: self.messages.push(msg), ..self }
    }
}

impl Response {
    /// A reply that says nothing.
    pub fn new() -> (r: Response)
        ensures
            r@ == ResponseView::empty(),
    {
        let r = Response { messages: Vec::new(), attributes: Vec::new() };
        assert(r@.messages =~= Seq::empty());
        assert(r@.attributes =~= Seq::empty());
        r
    }

    /// Adds an attribute behind those that are there.
    pub fn add_attribute(self, key: &str, value: String) -> (r: Response)
        ensures
            r@ == self@.attribute(key@, value@),
    {
        let Response { messages, attributes } = self;
        let mut attributes = attributes;
        attributes.push(Attribute { key: key.to_owned(), value });
        let r = Response { messages, attributes };
        assert(r@.attributes =~= self@.attribute(key@, value@).attributes);
        r
    }

    /// Adds a message behind those that are there.
    pub fn add_message(self, msg: BankMsg) -> (r: Response)
        ensures
            r@ == self@.message(msg@),
    {
        let Response { messages, attributes } = self;
        let mut messages = messages;
        messages.push(msg);
        let r = Response { messages, attributes };
        assert(r@.messages =~= self@.message(msg@).messages);
        r
    }
}

} // verus!
