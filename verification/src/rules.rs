//! The rules of the game: what each operation makes of the contract's state.
use vstd::prelude::*;

use crate::contract::{ARMY_LIMIT, BATTLEFIELD_LIMIT};
use crate::error::{Failure, OverflowOperation, StorageFailure};
use crate::ledger::{
    all_readable, load_of, may_load_of, pair_rows, put, put_stake, rows, slot, stakes_of, values,
    ContractState, Slot, Table,
};
use crate::msg::{BankMsgView, PlayerInfoView, ResponseView};
use crate::payment::paid;
use crate::state::{
    ArmyInfo, ArmyView, BattlefieldInfo, BattlefieldView, CoinView, ConfigView, MessageInfoView,
    StakeInfoView, Timestamp,
};
use crate::text::decimal;

verus! {

/// A read of storage that an operation refuses to go on without.
pub open spec fn required<V>(r: Result<V, StorageFailure>) -> Result<V, Failure> {
    match r {
        Ok(v) => Ok(v),
        Err(e) => Err(Failure::Std(e)),
    }
}

pub open spec fn checked_sum(left: u128, right: u128) -> Result<u128, Failure> {
    if left + right > u128::MAX {
        Err(Failure::Overflow { operation: OverflowOperation::Add, left, right })
    } else {
        Ok((left + right) as u128)
    }
}

// ---------------------------------------------------------------------------
// Setting the game up
// ---------------------------------------------------------------------------

/// Why a game with so many armies and battlefields is refused, if it is.
pub open spec fn oversized(armies: nat, battlefields: nat) -> Option<Failure> {
    if armies > ARMY_LIMIT {
        Some(Failure::TooManyArmies)
    } else if battlefields > BATTLEFIELD_LIMIT {
        Some(Failure::TooManyBattlefields)
    } else {
        None
    }
}

/// An army that nobody has staked on yet.
pub open spec fn fresh_army(info: ArmyInfo, id: u8) -> ArmyView {
    ArmyView {
        name: info.name@,
        ipfs_uri: info.ipfs_uri@,
        id,
        total_staked: 0,
        victory_points: 0,
    }
}

/// A battlefield that nobody has won yet.
pub open spec fn fresh_battlefield(info: BattlefieldInfo, id: u8) -> BattlefieldView {
    BattlefieldView {
        name: info.name@,
        ipfs_uri: info.ipfs_uri@,
        id,
        value: info.value,
        winner: None,
    }
}

/// The armies after those of the list were given the ids from one on.
pub open spec fn with_armies(t: Table<u8, ArmyView>, infos: Seq<ArmyInfo>) -> Table<u8, ArmyView> {
    Table {
        entries: Map::new(
            |id: u8| 1 <= id <= infos.len() || t.entries.contains_key(id),
            |id: u8|
                if 1 <= id <= infos.len() {
                    Slot::Readable(fresh_army(infos[id - 1], id))
                } else {
                    t.entries[id]
                },
        ),
        ..t
    }
}

/// The battlefields after those of the list were given the ids from one on.
pub open spec fn with_battlefields(
    t: Table<u8, BattlefieldView>,
    infos: Seq<BattlefieldInfo>,
) -> Table<u8, BattlefieldView> {
    Table {
        entries: Map::new(
            |id: u8| 1 <= id <= infos.len() || t.entries.contains_key(id),
            |id: u8|
                if 1 <= id <= infos.len() {
                    Slot::Readable(fresh_battlefield(infos[id - 1], id))
                } else {
                    t.entries[id]
                },
        ),
        ..t
    }
}

/// The state of a game that was set up at `start`.
pub open spec fn set_up(
    c: ContractState,
    name: Seq<char>,
    version: Seq<char>,
    armies: Seq<ArmyInfo>,
    battlefields: Seq<BattlefieldInfo>,
    config: ConfigView,
) -> ContractState {
    ContractState {
        contract_info: Some((name, version)),
        armies: with_armies(c.armies, armies),
        battlefields: with_battlefields(c.battlefields, battlefields),
        phase: Some(Slot::Readable(true)),
        config: Some(Slot::Readable(config)),
        ..c
    }
}

// ---------------------------------------------------------------------------
// Staking
// ---------------------------------------------------------------------------

/// The amount that a message stakes, if the game is open and the payment is in order.
pub open spec fn admitted(c: ContractState, info: MessageInfoView) -> Result<u128, Failure> {
    match required(load_of(c.config)) {
        Err(e) => Err(e),
        Ok(config) => match required(load_of(c.phase)) {
            Err(e) => Err(e),
            Ok(open) => if !open {
                Err(Failure::NotOpen)
            } else {
                match paid(info.funds, config.denom) {
                    Err(e) => Err(Failure::Payment(e)),
                    Ok(amount) => Ok(amount),
                }
            },
        },
    }
}

/// An army with `amount` more staked on it.
pub open spec fn reinforced(army: ArmyView, amount: u128) -> Result<ArmyView, Failure> {
    match checked_sum(army.total_staked, amount) {
        Err(e) => Err(e),
        Ok(total) => Ok(ArmyView { total_staked: total, ..army }),
    }
}

/// A total with `amount` added: one that is not kept yet starts there.
pub open spec fn topped_up(total: Option<u128>, amount: u128) -> Result<u128, Failure> {
    match total {
        None => Ok(amount),
        Some(t) => checked_sum(t, amount),
    }
}

/// An army, which has to exist, with `amount` more staked on it.
pub open spec fn army_entry(c: ContractState, army_id: u8, amount: u128) -> Result<
    ArmyView,
    Failure,
> {
    match required(may_load_of(slot(c.armies.entries, army_id))) {
        Err(e) => Err(e),
        Ok(None) => Err(Failure::NoArmy { id: army_id }),
        Ok(Some(army)) => reinforced(army, amount),
    }
}

/// What is staked on an army on one battlefield, with `amount` added.
pub open spec fn field_entry(
    c: ContractState,
    army_id: u8,
    battlefield_id: u8,
    amount: u128,
) -> Result<u128, Failure> {
    let key = (army_id, battlefield_id);
    match required(may_load_of(slot(c.army_totals_by_battlefield.entries, key))) {
        Err(e) => Err(e),
        Ok(total) => topped_up(total, amount),
    }
}

/// Whether a player has a stake with another army on the battlefield.
pub open spec fn defects(
    c: ContractState,
    player: Seq<char>,
    army_id: u8,
    battlefield_id: u8,
) -> bool {
    exists|a: u8|
        a != army_id && #[trigger] slot(c.stakes.entries, (a, battlefield_id, player)) is Some
}

/// The stake that replaces `stake`, if that is none or one with the same army.
pub open spec fn raised_stake(
    stake: Option<StakeInfoView>,
    player: Seq<char>,
    army_id: u8,
    battlefield_id: u8,
    amount: u128,
) -> Result<StakeInfoView, Failure> {
    match stake {
        None => Ok(StakeInfoView { amount, army: army_id, battlefield_id, player }),
        Some(old) => if old.army != army_id {
            Err(Failure::Traitor)
        } else {
            match checked_sum(old.amount, amount) {
                Err(e) => Err(e),
                Ok(total) => Ok(
                    StakeInfoView { amount: total, army: army_id, battlefield_id, player },
                ),
            }
        },
    }
}

/// A player's stake with an army on a battlefield, with `amount` added. A player can only
/// stake on one side in a battlefield.
pub open spec fn stake_entry(
    c: ContractState,
    player: Seq<char>,
    army_id: u8,
    battlefield_id: u8,
    amount: u128,
) -> Result<StakeInfoView, Failure> {
    if defects(c, player, army_id, battlefield_id) {
        Err(Failure::Traitor)
    } else {
        match required(may_load_of(slot(c.stakes.entries, (army_id, battlefield_id, player)))) {
            Err(e) => Err(e),
            Ok(stake) => raised_stake(stake, player, army_id, battlefield_id, amount),
        }
    }
}

/// What a player has staked with an army, with `amount` added.
pub open spec fn player_entry(
    c: ContractState,
    player: Seq<char>,
    army_id: u8,
    amount: u128,
) -> Result<u128, Failure> {
    match required(may_load_of(slot(c.player_totals_by_army, (player, army_id)))) {
        Err(e) => Err(e),
        Ok(total) => topped_up(total, amount),
    }
}

/// What a stake enters in the books of the armies: its amount, the army, and the army's total
/// on the battlefield.
pub open spec fn army_books(
    c: ContractState,
    info: MessageInfoView,
    army_id: u8,
    battlefield_id: u8,
) -> Result<(u128, ArmyView, u128), Failure> {
    match admitted(c, info) {
        Err(e) => Err(e),
        Ok(amount) => match army_entry(c, army_id, amount) {
            Err(e) => Err(e),
            Ok(army) => match field_entry(c, army_id, battlefield_id, amount) {
                Err(e) => Err(e),
                Ok(total) => Ok((amount, army, total)),
            },
        },
    }
}

/// What a stake enters in the books of the armies, and the stake itself.
pub open spec fn stake_books(
    c: ContractState,
    info: MessageInfoView,
    army_id: u8,
    battlefield_id: u8,
) -> Result<(u128, ArmyView, u128, StakeInfoView), Failure> {
    match army_books(c, info, army_id, battlefield_id) {
        Err(e) => Err(e),
        Ok((amount, army, total)) => match stake_entry(
            c,
            info.sender,
            army_id,
            battlefield_id,
            amount,
        ) {
            Err(e) => Err(e),
            Ok(stake) => Ok((amount, army, total, stake)),
        },
    }
}

pub open spec fn stake_response(army_id: u8, battlefield_id: u8) -> ResponseView {
    ResponseView::empty().attribute("action"@, "stake"@).attribute(
        "army_id"@,
        decimal(army_id as nat),
    ).attribute("battlefield_id"@, decimal(battlefield_id as nat))
}

/// The state that a stake leaves behind, and the reply to it. A stake is entered in all books
/// or in none.
pub open spec fn stake_effect(
    c: ContractState,
    info: MessageInfoView,
    army_id: u8,
    battlefield_id: u8,
) -> (ContractState, Result<ResponseView, Failure>) {
    match stake_books(c, info, army_id, battlefield_id) {
        Err(e) => (c, Err(e)),
        Ok((amount, army, total, stake)) => match player_entry(c, info.sender, army_id, amount) {
            Err(e) => (c, Err(e)),
            Ok(player_total) => (
                ContractState {
                    armies: put(c.armies, army_id, army),
                    army_totals_by_battlefield: put(
                        c.army_totals_by_battlefield,
                        (army_id, battlefield_id),
                        total,
                    ),
                    stakes: put_stake(
                        c.stakes,
                        (army_id, battlefield_id, info.sender),
                        stake,
                    ),
                    player_totals_by_army: c.player_totals_by_army.insert(
                        (info.sender, army_id),
                        Slot::Readable(player_total),
                    ),
                    ..c
                },
                Ok(stake_response(army_id, battlefield_id)),
            ),
        },
    }
}

// ---------------------------------------------------------------------------
// Tallying the scores
// ---------------------------------------------------------------------------

/// Whether the battle has ended: by the clock, in whole seconds.
pub open spec fn battle_over(config: ConfigView, now: Timestamp) -> bool {
    config.start.spec_seconds() + config.battle_duration.spec_seconds() <= now.spec_seconds()
}

/// What is staked on an army on one battlefield, as far as it can be read.
pub open spec fn total_on(c: ContractState, army: u8, field: u8) -> u128 {
    match load_of(slot(c.army_totals_by_battlefield.entries, (army, field))) {
        Ok(total) => total,
        Err(_) => 0,
    }
}

/// Whether an army has more staked on it on the battlefield than every other army.
pub open spec fn wins(c: ContractState, army: u8, field: u8) -> bool {
    forall|a: u8| a != army ==> #[trigger] total_on(c, a, field) < total_on(c, army, field)
}

/// The army that wins a battlefield: the one with the largest stake there. A battlefield on
/// which no army is ahead of all others is a tie, and has no winner.
pub open spec fn victor(c: ContractState, field: u8) -> Option<u8> {
    if exists|w: u8| wins(c, w, field) {
        Some(choose|w: u8| wins(c, w, field))
    } else {
        None
    }
}

/// What is staked on each army on one battlefield, by the army's id.
pub open spec fn field_totals(c: ContractState, field: u8) -> Seq<u128> {
    Seq::new(256, |a: int| total_on(c, a as u8, field))
}

/// The first `n` totals added up, but for that of `winner`.
pub open spec fn lost_below(totals: Seq<u128>, winner: u8, n: nat) -> Result<u128, Failure>
    decreases n,
{
    if n == 0 {
        Ok(0)
    } else {
        match lost_below(totals, winner, (n - 1) as nat) {
            Err(e) => Err(e),
            Ok(sum) => if n - 1 == winner {
                Ok(sum)
            } else {
                checked_sum(sum, totals[n - 1])
            },
        }
    }
}

/// What a battlefield adds to the prize pool: all that is staked there on other armies than
/// the winner. The stakes of a tie go back to the players, so a tie adds nothing.
pub open spec fn dead_stake(c: ContractState, field: u8) -> Result<u128, Failure> {
    match victor(c, field) {
        None => Ok(0),
        Some(w) => lost_below(field_totals(c, field), w, 256),
    }
}

/// How far the tally gets on the battlefields.
pub enum Battle {
    /// It is refused, with the state that it leaves behind.
    Refused(ContractState, Failure),
    /// It is decided, with the state and the prize pool.
    Decided(ContractState, u128),
}

/// An army with the points of a battlefield added, if they fit.
pub open spec fn decorated(army: ArmyView, points: u8) -> Result<ArmyView, Failure> {
    if army.victory_points + points > u8::MAX {
        Err(
            Failure::Overflow {
                operation: OverflowOperation::Add,
                left: army.victory_points as u128,
                right: points as u128,
            },
        )
    } else {
        Ok(ArmyView { victory_points: (army.victory_points + points) as u8, ..army })
    }
}

/// The armies once the points of a battlefield have gone to its winner.
pub open spec fn rewarded(
    armies: Table<u8, ArmyView>,
    winner: Option<u8>,
    points: u8,
) -> Result<Table<u8, ArmyView>, Failure> {
    match winner {
        None => Ok(armies),
        Some(w) => match required(may_load_of(slot(armies.entries, w))) {
            Err(e) => Err(e),
            Ok(None) => Err(Failure::NoArmy { id: w }),
            Ok(Some(army)) => match decorated(army, points) {
                Err(e) => Err(e),
                Ok(new) => Ok(put(armies, w, new)),
            },
        },
    }
}

/// One battlefield: its points go to the army that wins it, the dead stake goes to the prize
/// pool, and the battlefield is saved with its winner.
pub open spec fn battle(c: ContractState, field: BattlefieldView, pool: u128) -> Battle {
    let winner = victor(c, field.id);
    match dead_stake(c, field.id) {
        Err(e) => Battle::Refused(c, e),
        Ok(dead) => match checked_sum(pool, dead) {
            Err(e) => Battle::Refused(c, e),
            Ok(new_pool) => match rewarded(c.armies, winner, field.value) {
                Err(e) => Battle::Refused(c, e),
                Ok(armies) => Battle::Decided(
                    ContractState {
                        armies,
                        battlefields: put(
                            c.battlefields,
                            field.id,
                            BattlefieldView { winner, ..field },
                        ),
                        ..c
                    },
                    new_pool,
                ),
            },
        },
    }
}

/// The battlefields one after the other.
pub open spec fn battles(c: ContractState, fields: Seq<(u8, BattlefieldView)>) -> Battle
    decreases fields.len(),
{
    if fields.len() == 0 {
        Battle::Decided(c, 0)
    } else {
        match battles(c, fields.drop_last()) {
            Battle::Decided(c1, pool) => battle(c1, fields.last().1, pool),
            other => other,
        }
    }
}

/// The battlefields in the order in which they are tallied: from the highest id down.
pub open spec fn tally_order(c: ContractState) -> Seq<(u8, BattlefieldView)> {
    rows(c.battlefields.entries).reverse()
}

/// The army with the most points. The rows go from the highest id down, and the last of
/// those with the most points is taken.
pub open spec fn champion(armies: Seq<(u8, ArmyView)>) -> ArmyView
    recommends
        armies.len() > 0,
    decreases armies.len(),
{
    if armies.len() <= 1 {
        armies[0].1
    } else {
        let best = champion(armies.drop_last());
        if armies.last().1.victory_points >= best.victory_points {
            armies.last().1
        } else {
            best
        }
    }
}

/// The state in which the game is won and closed.
pub open spec fn crowned(c: ContractState, pool: u128) -> ContractState {
    ContractState {
        winner: Some(Slot::Readable(champion(rows(c.armies.entries).reverse()))),
        prize_pool: Some(Slot::Readable(pool)),
        phase: Some(Slot::Readable(false)),
        ..c
    }
}

/// Why a tally is refused before it comes to the battlefields, if it is.
pub open spec fn tally_refusal(c: ContractState, now: Timestamp) -> Option<Failure> {
    match required(load_of(c.config)) {
        Err(e) => Some(e),
        Ok(config) => if !battle_over(config, now) {
            Some(Failure::NotOver)
        } else {
            None
        },
    }
}

/// The state that a tally leaves behind, and the reply to it.
///
/// The battlefields are settled one after the other. Where a tally is refused, those before
/// stay settled: the chain drops the writes of a message that fails.
pub open spec fn tally_effect(c: ContractState, now: Timestamp) -> (
    ContractState,
    Result<ResponseView, Failure>,
) {
    match tally_refusal(c, now) {
        Some(e) => (c, Err(e)),
        None => match battles(c, tally_order(c)) {
            Battle::Refused(c1, e) => (c1, Err(e)),
            Battle::Decided(c1, pool) => if !all_readable(c1.armies) {
                (c1, Err(Failure::Std(StorageFailure::Unreadable)))
            } else if rows(c1.armies.entries).len() == 0 {
                (c1, Err(Failure::NoArmies))
            } else {
                (
                    crowned(c1, pool),
                    Ok(ResponseView::empty().attribute("action"@, "tally"@)),
                )
            },
        },
    }
}

// ---------------------------------------------------------------------------
// Withdrawing
// ---------------------------------------------------------------------------

/// Whether a stake goes back to the player: its army has won the battlefield, or no army
/// has.
pub open spec fn survives(stake: StakeInfoView, field: BattlefieldView) -> bool {
    field.winner is None || field.winner == Some(stake.army)
}

/// What goes back to the player of the stakes of a list.
pub open spec fn refund(c: ContractState, stakes: Seq<StakeInfoView>) -> Result<u128, Failure>
    decreases stakes.len(),
{
    if stakes.len() == 0 {
        Ok(0)
    } else {
        match refund(c, stakes.drop_last()) {
            Err(e) => Err(e),
            Ok(sum) => {
                let stake = stakes.last();
                match required(load_of(slot(c.battlefields.entries, stake.battlefield_id))) {
                    Err(e) => Err(e),
                    Ok(field) => if survives(stake, field) {
                        checked_sum(sum, stake.amount)
                    } else {
                        Ok(sum)
                    },
                }
            },
        }
    }
}

/// What a player gets of the prize pool: the part of it that the player's stake is of all
/// that is staked on the winning army, rounded down.
pub open spec fn winnings(pool: u128, player_total: u128, army_total: u128) -> Result<
    u128,
    Failure,
> {
    if army_total == 0 {
        Err(Failure::DivideByZero { operand: player_total })
    } else if pool * player_total / army_total as int > u128::MAX {
        Err(
            Failure::Overflow {
                operation: OverflowOperation::Mul,
                left: pool,
                right: player_total,
            },
        )
    } else {
        Ok((pool * player_total / army_total as int) as u128)
    }
}

/// What a player gets of the prize pool. A player who has staked, but not with the winning
/// army, gets nothing of it.
pub open spec fn prize(c: ContractState, player: Seq<char>, has_staked: bool) -> Result<
    u128,
    Failure,
> {
    match required(load_of(c.winner)) {
        Err(e) => Err(e),
        Ok(winner) => match required(load_of(c.prize_pool)) {
            Err(e) => Err(e),
            Ok(pool) => match required(
                load_of(slot(c.player_totals_by_army, (player, winner.id))),
            ) {
                Err(e) => if has_staked && e == Failure::Std(StorageFailure::NotFound) {
                    Ok(0)
                } else {
                    Err(e)
                },
                Ok(total) => winnings(pool, total, winner.total_staked),
            },
        },
    }
}

/// The stakes of a player by ascending army and battlefield, if all can be read.
pub open spec fn listed_stakes(c: ContractState, player: Seq<char>) -> Result<
    Seq<StakeInfoView>,
    Failure,
> {
    let t = stakes_of(c.stakes, player);
    if all_readable(t) {
        Ok(values(pair_rows(t.entries)))
    } else {
        Err(Failure::Std(StorageFailure::Unreadable))
    }
}

/// What a player takes out: the refund and the prize.
pub open spec fn payout(c: ContractState, player: Seq<char>) -> Result<u128, Failure> {
    match listed_stakes(c, player) {
        Err(e) => Err(e),
        Ok(stakes) => match refund(c, stakes) {
            Err(e) => Err(e),
            Ok(back) => match prize(c, player, stakes.len() > 0) {
                Err(e) => Err(e),
                Ok(won) => checked_sum(back, won),
            },
        },
    }
}

/// The configuration that a withdrawal goes by, once the game is over.
pub open spec fn closed_game(c: ContractState) -> Result<ConfigView, Failure> {
    match required(load_of(c.config)) {
        Err(e) => Err(e),
        Ok(config) => match required(load_of(c.phase)) {
            Err(e) => Err(e),
            Ok(open) => if open {
                Err(Failure::NotOver)
            } else {
                Ok(config)
            },
        },
    }
}

pub open spec fn withdraw_response(
    player: Seq<char>,
    amount: u128,
    denom: Seq<char>,
) -> ResponseView {
    ResponseView::empty().attribute("action"@, "withdraw"@).message(
        BankMsgView::Send { to_address: player, amount: seq![CoinView { denom, amount }] },
    )
}

/// The state that a withdrawal leaves behind, and the reply to it. What was paid out to a
/// player is kept, and nothing is paid to that player again.
pub open spec fn withdraw_effect(c: ContractState, player: Seq<char>) -> (
    ContractState,
    Result<ResponseView, Failure>,
) {
    match closed_game(c) {
        Err(e) => (c, Err(e)),
        Ok(config) => match required(may_load_of(slot(c.withdrawals, player))) {
            Err(e) => (c, Err(e)),
            Ok(Some(_)) => (c, Err(Failure::AlreadyWithdrawn)),
            Ok(None) => match payout(c, player) {
                Err(e) => (c, Err(e)),
                Ok(amount) => (
                    ContractState {
                        withdrawals: c.withdrawals.insert(player, Slot::Readable(amount)),
                        ..c
                    },
                    Ok(withdraw_response(player, amount, config.denom)),
                ),
            },
        },
    }
}

// ---------------------------------------------------------------------------
// Asking about players
// ---------------------------------------------------------------------------

/// What the stakes of a list come to.
pub open spec fn stakes_total(stakes: Seq<StakeInfoView>) -> Result<u128, Failure>
    decreases stakes.len(),
{
    if stakes.len() == 0 {
        Ok(0)
    } else {
        match stakes_total(stakes.drop_last()) {
            Err(e) => Err(e),
            Ok(sum) => checked_sum(sum, stakes.last().amount),
        }
    }
}

/// How much a player has staked, and on which battlefields.
pub open spec fn player_report(c: ContractState, player: Seq<char>) -> Result<
    PlayerInfoView,
    Failure,
> {
    match listed_stakes(c, player) {
        Err(e) => Err(e),
        Ok(stakes) => match stakes_total(stakes) {
            Err(e) => Err(e),
            Ok(total_staked) => Ok(
                PlayerInfoView {
                    total_staked,
                    battlefields: stakes.map_values(|s: StakeInfoView| s.battlefield_id),
                },
            ),
        },
    }
}

} // verus!
