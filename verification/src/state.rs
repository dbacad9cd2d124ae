//! The values that the game keeps, and their mathematical views.
use vstd::prelude::*;

verus! {

/// A point in time, or a span of it, in nanoseconds.
#[derive(Clone, Copy, Debug, PartialEq, Eq, Structural)]
pub struct Timestamp {
    pub nanos: u64,
}

impl Timestamp {
    pub open spec fn spec_seconds(self) -> int {
        self.nanos as int / 1_000_000_000
    }

    /// Whole seconds, rounded down.
    pub fn seconds(&self) -> (s: u64)
        ensures
            s == self.spec_seconds(),
    {
        self.nanos / 1_000_000_000
    }
}

/// The block that a message is executed in.
#[derive(Clone, Copy, Debug, PartialEq, Eq, Structural)]
pub struct BlockInfo {
    pub time: Timestamp,
}

/// The environment of a message.
#[derive(Clone, Copy, Debug, PartialEq, Eq, Structural)]
pub struct Env {
    pub block: BlockInfo,
}

/// An amount of one denomination.
#[derive(Clone, Debug, PartialEq, Eq)]
pub struct Coin {
    pub denom: String,
    pub amount: u128,
}

pub struct CoinView {
    pub denom: Seq<char>,
    pub amount: u128,
}

impl View for Coin {
    type V = CoinView;

    open spec fn view(&self) -> CoinView {
        CoinView { denom: self.denom@, amount: self.amount }
    }
}

/// The coins of a list, by their views.
pub open spec fn coins(funds: Seq<Coin>) -> Seq<CoinView> {
    funds.map_values(|c: Coin| c@)
}

/// Who sent a message, and the coins that came with it.
#[derive(Clone, Debug, PartialEq, Eq)]
pub struct MessageInfo {
    pub sender: String,
    pub funds: Vec<Coin>,
}

pub struct MessageInfoView {
    pub sender: Seq<char>,
    pub funds: Seq<CoinView>,
}

impl View for MessageInfo {
    type V = MessageInfoView;

    open spec fn view(&self) -> MessageInfoView {
        MessageInfoView { sender: self.sender@, funds: coins(self.funds@) }
    }
}

/// What is needed to set up an army.
#[derive(Clone, Debug, PartialEq, Eq)]
pub struct ArmyInfo {
    /// The army's name
    pub name: String,
    /// An IPFS URI that describes the army
    pub ipfs_uri: String,
}

/// An army, with what has been staked on it and the points it has won.
#[derive(Clone, Debug, PartialEq, Eq)]
pub struct Army {
    /// The army's name
    pub name: String,
    /// An IPFS URI that describes the army
    pub ipfs_uri: String,
    /// The army's id
    pub id: u8,
    /// The total amount staked on this army
    pub total_staked: u128,
    /// The points that the army has won
    pub victory_points: u8,
}

pub struct ArmyView {
    pub name: Seq<char>,
    pub ipfs_uri: Seq<char>,
    pub id: u8,
    pub total_staked: u128,
    pub victory_points: u8,
}

impl View for Army {
    type V = ArmyView;

    open spec fn view(&self) -> ArmyView {
        ArmyView {
            name: self.name@,
            ipfs_uri: self.ipfs_uri@,
            id: self.id,
            total_staked: self.total_staked,
            victory_points: self.victory_points,
        }
    }
}

/// What is needed to set up a battlefield.
#[derive(Clone, Debug, PartialEq, Eq)]
pub struct BattlefieldInfo {
    /// The battlefield's name
    pub name: String,
    /// An IPFS URI that describes the battlefield
    pub ipfs_uri: String,
    /// The victory points that the battlefield is worth
    pub value: u8,
}

/// A battlefield, with its winner once there is one.
#[derive(Clone, Debug, PartialEq, Eq)]
pub struct Battlefield {
    /// The battlefield's name
    pub name: String,
    /// An IPFS URI that describes the battlefield
    pub ipfs_uri: String,
    /// The battlefield's id
    pub id: u8,
    /// The victory points that the battlefield is worth
    pub value: u8,
    /// The id of the winning army
    pub winner: Option<u8>,
}

pub struct BattlefieldView {
    pub name: Seq<char>,
    pub ipfs_uri: Seq<char>,
    pub id: u8,
    pub value: u8,
    pub winner: Option<u8>,
}

impl View for Battlefield {
    type V = BattlefieldView;

    open spec fn view(&self) -> BattlefieldView {
        BattlefieldView {
            name: self.name@,
            ipfs_uri: self.ipfs_uri@,
            id: self.id,
            value: self.value,
            winner: self.winner,
        }
    }
}

/// The game's configuration.
#[derive(Clone, Debug, PartialEq, Eq)]
pub struct Config {
    /// When the battle began
    pub start: Timestamp,
    /// How long the battle lasts
    pub battle_duration: Timestamp,
    /// The denomination that is staked
    pub denom: String,
}

pub struct ConfigView {
    pub start: Timestamp,
    pub battle_duration: Timestamp,
    pub denom: Seq<char>,
}

impl View for Config {
    type V = ConfigView;

    open spec fn view(&self) -> ConfigView {
        ConfigView {
            start: self.start,
            battle_duration: self.battle_duration,
            denom: self.denom@,
        }
    }
}

/// The phases of the game.
#[derive(Clone, Copy, Debug, PartialEq, Eq, Structural)]
pub enum GamePhase {
    /// Players may stake
    Open,
    /// The game is over
    Closed,
}

impl GamePhase {
    /// The phase as it is stored: whether the game is open.
    pub fn is_open(&self) -> (open: bool)
        ensures
            open == (self is Open),
    {
        match self {
            GamePhase::Open => true,
            GamePhase::Closed => false,
        }
    }

    /// The phase that is stored as `open`.
    pub fn from_open(open: bool) -> (phase: GamePhase)
        ensures
            phase == (if open { GamePhase::Open } else { GamePhase::Closed }),
    {
        if open {
            GamePhase::Open
        } else {
            GamePhase::Closed
        }
    }
}

/// A player's stake with one army on one battlefield.
#[derive(Clone, Debug, PartialEq, Eq)]
pub struct StakeInfo {
    /// The amount staked
    pub amount: u128,
    /// The army that it is staked with
    pub army: u8,
    /// The battlefield that it is staked on
    pub battlefield_id: u8,
    /// The player who staked it
    pub player: String,
}

pub struct StakeInfoView {
    pub amount: u128,
    pub army: u8,
    pub battlefield_id: u8,
    pub player: Seq<char>,
}

impl View for StakeInfo {
    type V = StakeInfoView;

    open spec fn view(&self) -> StakeInfoView {
        StakeInfoView {
            amount: self.amount,
            army: self.army,
            battlefield_id: self.battlefield_id,
            player: self.player@,
        }
    }
}

} // verus!
