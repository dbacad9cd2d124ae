//! The contract: its collections and its operations.
use vstd::prelude::*;

use crate::error::{seen, ContractError, Failure, OverflowOperation, StorageError, StorageFailure};
use crate::ledger::{
    all_readable, fits_key, lemma_pairs_contain, load_of, may_load_of, pair_rows, put_stake, rows,
    slot, stake_fits, straight, values, ContractState,
};
use crate::msg::{BankMsg, InstantiateMsgData, PlayerInfo, Response, ResponseView};
use crate::payment::must_pay;
use crate::rules::{
    admitted, army_entry, battle, battles, champion, checked_sum, closed_game, defects,
    field_entry, field_totals, listed_stakes, lost_below, oversized, payout, player_entry,
    player_report, prize, refund, rewarded, set_up, stake_books, stake_effect, stake_entry,
    stakes_total, tally_effect, tally_order, tally_refusal, total_on, victor, wins, with_armies,
    with_battlefields, withdraw_effect, Battle,
};
use crate::share::multiply_ratio;
use crate::state::{
    coins, Army, ArmyInfo, Battlefield, BattlefieldInfo, BattlefieldView, Coin, CoinView, Config,
    ConfigView, Env, GamePhase, MessageInfo, StakeInfo, StakeInfoView,
};
use crate::storage::{
    army_rows, index_by_army, index_by_battlefield, index_by_player, load_army, load_battlefield,
    load_config, load_phase, load_player_total, load_prize_pool, load_winner, may_load_army,
    may_load_army_total, may_load_player_total, may_load_stake, may_load_withdrawal, range_armies,
    range_army_totals, range_battlefields, range_player_stakes, save_army, save_army_total,
    save_battlefield, save_config, save_phase, save_player_total, save_prize_pool, save_stake,
    save_winner, save_withdrawal, set_contract_version, stake_views, unindex_by_army,
    unindex_by_battlefield, unindex_by_player, ReadStore, Store,
};
use crate::tally_laws::law_victor_has_the_largest_stake;
use crate::tally_terms::law_tally_waits_for_the_end;
use crate::terms::held;
use crate::text::u8_to_string;
use crate::walk::{
    army_views, battlefield_rows, battlefield_views, complete, flatten,
    lemma_flattened_battlefields,
};

verus! {

/// The name that the contract is recorded under
pub const CONTRACT_NAME: &'static str = "cw-blotto";

/// The version that the contract is recorded with
pub const CONTRACT_VERSION: &'static str = "0.1.0";

/// The maximum number of armies
pub const ARMY_LIMIT: u32 = 5;

/// The maximum number of battlefields
pub const BATTLEFIELD_LIMIT: u32 = 10;

/// Default limit for query pagination
pub const DEFAULT_LIMIT: u32 = 10;

/// Maximum limit for query pagination
pub const MAX_LIMIT: u32 = 50;

/// The namespaces that the indexes of the stakes have in storage.
#[derive(Clone, Copy, Debug, PartialEq, Eq)]
pub struct StakeIndexes<'a> {
    /// The stakes by army
    pub army: &'a str,
    /// The stakes by battlefield
    pub battlefield_id: &'a str,
    /// The stakes by player
    pub player: &'a str,
}

/// The namespaces that the stakes and their indexes have in storage.
#[derive(Clone, Copy, Debug, PartialEq, Eq)]
pub struct IndexedStakes<'a> {
    /// The stakes (army_id, battlefield_id, player)
    pub primary: &'a str,
    /// Their indexes
    pub idx: StakeIndexes<'a>,
}

/// The contract: the namespaces that its collections have in storage.
#[derive(Clone, Copy, Debug, PartialEq, Eq)]
pub struct BlottoContract<'a> {
    /// Armies by ID
    pub armies: &'a str,
    /// The staked totals for armies by battlefield (army_id, battlefield_id)
    pub army_totals_by_battlefield: &'a str,
    /// The different battlefields
    pub battlefields: &'a str,
    /// The game config
    pub config: &'a str,
    /// The current game phase
    pub phase: &'a str,
    /// The prize pool for winning the war
    pub prize_pool: &'a str,
    /// Total staked amounts for players by army
    pub player_totals_by_army: &'a str,
    /// All the different stakes (army_id, battlefield_id, player), indexed
    pub stakes: IndexedStakes<'a>,
    /// The winning army, set on game end
    pub winner: &'a str,
    /// What was paid out to players who have withdrawn
    pub withdrawals: &'a str,
}

/// What came of a read or a write of storage, with the error of the contract.
fn kept<T>(r: Result<T, StorageError>) -> (s: Result<T, ContractError>)
    ensures
        match r {
            Ok(v) => s == Ok::<T, ContractError>(v),
            Err(e) => s == Err::<T, ContractError>(ContractError::Std(e)),
        },
{
    match r {
        Ok(v) => Ok(v),
        Err(e) => Err(ContractError::Std(e)),
    }
}

/// The sum, or the error that says that it does not fit.
fn checked_add(left: u128, right: u128) -> (r: Result<u128, ContractError>)
    ensures
        seen(r) == checked_sum(left, right),
{
    match left.checked_add(right) {
        Some(sum) => Ok(sum),
        None => Err(
            ContractError::Overflow { operation: OverflowOperation::Add, left, right },
        ),
    }
}

/// Whether the total at `w` is larger than every other.
pub open spec fn leads_in(totals: Seq<u128>, w: int) -> bool {
    forall|j: int| 0 <= j < totals.len() && j != w ==> #[trigger] totals[j] < totals[w]
}

/// The place of the total that is larger than every other, if there is one.
fn leader(totals: &Vec<u128>) -> (r: Option<u8>)
    requires
        totals@.len() == 256,
    ensures
        match r {
            Some(w) => leads_in(totals@, w as int),
            None => forall|w: int| 0 <= w < 256 ==> !#[trigger] leads_in(totals@, w),
        },
{
    let mut best: usize = 0;
    let mut rival: Option<usize> = None;
    let mut i: usize = 1;
    while i < totals.len()
        invariant
            totals@.len() == 256,
            best < i <= 256,
            forall|j: int| 0 <= j < i ==> #[trigger] totals@[j] <= totals@[best as int],
            match rival {
                Some(k) => k < i && k != best && totals@[k as int] == totals@[best as int],
                None => forall|j: int|
                    0 <= j < i && j != best ==> #[trigger] totals@[j] < totals@[best as int],
            },
        decreases totals@.len() - i,
    {
        if totals[i] > totals[best] {
            best = i;
            rival = None;
        } else if totals[i] == totals[best] {
            rival = Some(i);
        }
        i += 1;
    }
    match rival {
        None => Some(best as u8),
        Some(k) => {
            proof {
                assert forall|w: int| 0 <= w < 256 implies !#[trigger] leads_in(totals@, w) by {
                    if leads_in(totals@, w) {
                        if w == best {
                            assert(totals@[k as int] < totals@[w]);
                        } else {
                            assert(totals@[best as int] < totals@[w]);
                        }
                    }
                }
            }
            None
        },
    }
}

/// All totals but that of `winner`, added up.
fn sum_without(totals: &Vec<u128>, winner: u8) -> (r: Result<u128, ContractError>)
    requires
        totals@.len() == 256,
    ensures
        seen(r) == lost_below(totals@, winner, 256),
{
    let mut sum: u128 = 0;
    let mut i: usize = 0;
    while i < totals.len()
        invariant
            totals@.len() == 256,
            i <= 256,
            lost_below(totals@, winner, i as nat) == Ok::<u128, Failure>(sum),
        decreases totals@.len() - i,
    {
        if i != winner as usize {
            proof {
                if lost_below(totals@, winner, (i + 1) as nat) is Err {
                    lemma_loss_stops(totals@, winner, (i + 1) as nat, 256);
                }
            }
            sum = checked_add(sum, totals[i])?;
        }
        i += 1;
    }
    Ok(sum)
}

/// A sum that does not fit at some place does not fit.
proof fn lemma_loss_stops(totals: Seq<u128>, winner: u8, n: nat, m: nat)
    requires
        n <= m,
        lost_below(totals, winner, n) is Err,
    ensures
        lost_below(totals, winner, m) == lost_below(totals, winner, n),
    decreases m,
{
    if n < m {
        lemma_loss_stops(totals, winner, n, (m - 1) as nat);
    }
}

/// An army wins a battlefield exactly where its total leads there.
proof fn lemma_victor(c: ContractState, field: u8)
    ensures
        forall|w: u8| #[trigger]
            leads_in(field_totals(c, field), w as int) <==> victor(c, field) == Some(w),
{
    let totals = field_totals(c, field);
    law_victor_has_the_largest_stake(c, field);
    assert forall|w: u8| #[trigger] leads_in(totals, w as int) <==> victor(c, field) == Some(w) by {
        assert(victor(c, field) == Some(w) <==> wins(c, w, field));
        if leads_in(totals, w as int) {
            assert forall|a: u8| a != w implies #[trigger] total_on(c, a, field) < total_on(
                c,
                w,
                field,
            ) by {
                assert(totals[a as int] < totals[w as int]);
            }
        }
        if wins(c, w, field) {
            assert forall|j: int|
                0 <= j < totals.len() && j != w as int implies #[trigger] totals[j]
                < totals[w as int] by {
                assert(total_on(c, j as u8, field) < total_on(c, w, field));
            }
        }
    }
}

/// The army with the most points, and the last one in the list if several have them.
fn most_decorated(armies: Vec<(u8, Army)>) -> (r: Army)
    requires
        armies@.len() > 0,
    ensures
        r@ == champion(army_rows(armies@)),
{
    let mut best: Option<Army> = None;
    let ghost views = army_rows(armies@);
    for row in it: armies
        invariant
            it.seq() == armies@,
            views == army_rows(armies@),
            it.index() == 0 ==> best is None,
            it.index() > 0 ==> best is Some && best->0@ == champion(
                views.take(it.index() as int),
            ),
    {
        let (_, army) = row;
        proof {
            let next = views.take(it.index() + 1);
            assert(next.drop_last() =~= views.take(it.index() as int));
            assert(next.last() == views[it.index() as int]);
        }
        best = match best {
            None => Some(army),
            Some(b) => if army.victory_points >= b.victory_points {
                Some(army)
            } else {
                Some(b)
            },
        };
    }
    proof {
        assert(views.take(armies@.len() as int) =~= views);
    }
    best.unwrap()
}

/// A tally that has stopped on some battlefields has stopped for good.
proof fn lemma_battles_stop(c: ContractState, fields: Seq<(u8, BattlefieldView)>, n: int)
    requires
        0 <= n <= fields.len(),
        !(battles(c, fields.take(n)) is Decided),
    ensures
        battles(c, fields) == battles(c, fields.take(n)),
    decreases fields.len(),
{
    if n < fields.len() {
        assert(fields.drop_last().take(n) =~= fields.take(n));
        lemma_battles_stop(c, fields.drop_last(), n);
    } else {
        assert(fields.take(n) =~= fields);
    }
}

/// A refund that has failed on some stakes has failed.
proof fn lemma_refund_stops(c: ContractState, stakes: Seq<StakeInfoView>, n: int)
    requires
        0 <= n <= stakes.len(),
        refund(c, stakes.take(n)) is Err,
    ensures
        refund(c, stakes) == refund(c, stakes.take(n)),
    decreases stakes.len(),
{
    if n < stakes.len() {
        assert(stakes.drop_last().take(n) =~= stakes.take(n));
        lemma_refund_stops(c, stakes.drop_last(), n);
    } else {
        assert(stakes.take(n) =~= stakes);
    }
}

/// A sum of stakes that does not fit at some place does not fit.
proof fn lemma_stakes_total_stops(stakes: Seq<StakeInfoView>, n: int)
    requires
        0 <= n <= stakes.len(),
        stakes_total(stakes.take(n)) is Err,
    ensures
        stakes_total(stakes) == stakes_total(stakes.take(n)),
    decreases stakes.len(),
{
    if n < stakes.len() {
        assert(stakes.drop_last().take(n) =~= stakes.take(n));
        lemma_stakes_total_stops(stakes.drop_last(), n);
    } else {
        assert(stakes.take(n) =~= stakes);
    }
}

impl<'a> BlottoContract<'a> {
    /// Whether the collections have the namespaces of this contract.
    pub open spec fn wf(&self) -> bool {
        &&& self.armies@ == "armies"@
        &&& self.army_totals_by_battlefield@ == "army_totals_by_battlefield"@
        &&& self.battlefields@ == "battlefields"@
        &&& self.config@ == "config"@
        &&& self.phase@ == "phase"@
        &&& self.prize_pool@ == "prize_pool"@
        &&& self.player_totals_by_army@ == "player_totals_by_army"@
        &&& self.stakes.primary@ == "stakes"@
        &&& self.stakes.idx.army@ == "army"@
        &&& self.stakes.idx.battlefield_id@ == "battlefield_id"@
        &&& self.stakes.idx.player@ == "player"@
        &&& self.winner@ == "winner"@
        &&& self.withdrawals@ == "withdrawals"@
    }

    pub fn new() -> (contract: Self)
        ensures
            contract.wf(),
    {
        BlottoContract {
            armies: "armies",
            army_totals_by_battlefield: "army_totals_by_battlefield",
            battlefields: "battlefields",
            config: "config",
            phase: "phase",
            prize_pool: "prize_pool",
            player_totals_by_army: "player_totals_by_army",
            stakes: IndexedStakes {
                primary: "stakes",
                idx: StakeIndexes {
                    army: "army",
                    battlefield_id: "battlefield_id",
                    player: "player",
                },
            },
            winner: "winner",
            withdrawals: "withdrawals",
        }
    }

    /// The amount that a message stakes, if the game is open and the payment is in order.
    fn take_payment(&self, store: &ReadStore<'_>, info: &MessageInfo) -> (r: Result<
        u128,
        ContractError,
    >)
        requires
            self.wf(),
        ensures
            seen(r) == admitted(store@, info@),
    {
        // Load Config
        let config = match load_config(store, self.config) {
            Err(e) => return Err(ContractError::Std(e)),
            Ok(config) => config,
        };
        // Check game phase is open
        let phase = match load_phase(store, self.phase) {
            Err(e) => return Err(ContractError::Std(e)),
            Ok(open) => GamePhase::from_open(open),
        };
        if phase != GamePhase::Open {
            return Err(ContractError::NotOpen {  });
        }
        // Validate proper denom was sent and get amount
        match must_pay(info, config.denom.as_str()) {
            Err(e) => Err(ContractError::Payment(e)),
            Ok(amount) => Ok(amount),
        }
    }

    /// An army, which has to exist, with `amount` more staked on it.
    fn army_entry(&self, store: &ReadStore<'_>, army_id: u8, amount: u128) -> (r: Result<
        Army,
        ContractError,
    >)
        requires
            self.wf(),
        ensures
            seen(r) == army_entry(store@, army_id, amount),
    {
        let army = match may_load_army(store, self.armies, army_id) {
            Err(e) => return Err(ContractError::Std(e)),
            Ok(None) => return Err(ContractError::NoArmy { id: army_id }),
            Ok(Some(army)) => army,
        };
        let total_staked = checked_add(army.total_staked, amount)?;
        Ok(Army { total_staked, ..army })
    }

    /// What is staked on an army on one battlefield, with `amount` added.
    fn field_entry(
        &self,
        store: &ReadStore<'_>,
        army_id: u8,
        battlefield_id: u8,
        amount: u128,
    ) -> (r: Result<u128, ContractError>)
        requires
            self.wf(),
        ensures
            seen(r) == field_entry(store@, army_id, battlefield_id, amount),
    {
        let namespace = self.army_totals_by_battlefield;
        match may_load_army_total(store, namespace, army_id, battlefield_id) {
            Err(e) => Err(ContractError::Std(e)),
            Ok(Some(total)) => checked_add(total, amount),
            Ok(None) => Ok(amount),
        }
    }

    /// Whether a player has a stake with another army on the battlefield: it is looked for under
    /// every id that an army can have.
    fn defects(
        &self,
        store: &ReadStore<'_>,
        player: &str,
        army_id: u8,
        battlefield_id: u8,
    ) -> (r: bool)
        requires
            self.wf(),
        ensures
            r == defects(store@, player@, army_id, battlefield_id),
    {
        let mut i: u16 = 0;
        while i < 256
            invariant
                self.wf(),
                i <= 256,
                forall|a: u8|
                    a < i && a != army_id ==> #[trigger] slot(
                        store@.stakes.entries,
                        (a, battlefield_id, player@),
                    ) is None,
            decreases 256 - i,
        {
            let army = i as u8;
            if army != army_id {
                match may_load_stake(store, self.stakes.primary, army, battlefield_id, player) {
                    Ok(None) => {},
                    _ => {
                        let ghost key = (army, battlefield_id, player@);
                        assert(slot(store@.stakes.entries, key) is Some);
                        return true;
                    },
                }
            }
            i += 1;
        }
        false
    }

    /// A player's stake with an army on a battlefield, with `amount` added.
    fn stake_entry(
        &self,
        store: &ReadStore<'_>,
        player: &String,
        army_id: u8,
        battlefield_id: u8,
        amount: u128,
    ) -> (r: Result<StakeInfo, ContractError>)
        requires
            self.wf(),
        ensures
            seen(r) == stake_entry(store@, player@, army_id, battlefield_id, amount),
    {
        let address = player.as_str();
        // Can only stake on one side in a battlefield
        if self.defects(store, address, army_id, battlefield_id) {
            return Err(ContractError::Traitor {  });
        }
        let existing = may_load_stake(
            store,
            self.stakes.primary,
            army_id,
            battlefield_id,
            address,
        );
        let amount = match existing {
            Err(e) => return Err(ContractError::Std(e)),
            Ok(Some(stake)) => {
                if stake.army != army_id {
                    return Err(ContractError::Traitor {  });
                }
                checked_add(stake.amount, amount)?
            },
            Ok(None) => amount,
        };
        Ok(StakeInfo { amount, army: army_id, battlefield_id, player: player.clone() })
    }

    /// Saves a stake and brings the indexes up to date: the entries for what the key held go, and
    /// those for the stake come.
    fn put_stake(
        &self,
        store: &mut Store<'_>,
        army_id: u8,
        battlefield_id: u8,
        player: &str,
        stake: &StakeInfo,
    ) -> (r: Result<(), StorageError>)
        requires
            self.wf(),
            stake@.player == player@,
            stake_fits(old(store)@.stakes, (army_id, battlefield_id, player@)),
        ensures
            match may_load_of(
                slot(old(store)@.stakes.entries, (army_id, battlefield_id, player@)),
            ) {
                Ok(_) => r is Ok && final(store)@ == (ContractState {
                    stakes: put_stake(
                        old(store)@.stakes,
                        (army_id, battlefield_id, player@),
                        stake@,
                    ),
                    ..old(store)@
                }),
                Err(e) => r matches Err(f) && f@ == e && final(store)@ == old(store)@,
            },
    {
        let IndexedStakes { primary, idx } = self.stakes;
        let at = idx.battlefield_id;
        let existing = may_load_stake(
            &store.reader(),
            primary,
            army_id,
            battlefield_id,
            player,
        )?;
        if let Some(old) = existing {
            unindex_by_army(store, primary, idx.army, army_id, battlefield_id, player, &old)?;
            unindex_by_battlefield(store, primary, at, army_id, battlefield_id, player, &old)?;
            unindex_by_player(store, primary, idx.player, army_id, battlefield_id, player, &old)?;
        }
        index_by_army(store, primary, idx.army, army_id, battlefield_id, player, stake)?;
        index_by_battlefield(store, primary, at, army_id, battlefield_id, player, stake)?;
        index_by_player(store, primary, idx.player, army_id, battlefield_id, player, stake)?;
        save_stake(store, primary, army_id, battlefield_id, player, stake)
    }

    /// What a player has staked with an army, with `amount` added.
    fn player_entry(
        &self,
        store: &ReadStore<'_>,
        player: &str,
        army_id: u8,
        amount: u128,
    ) -> (r: Result<u128, ContractError>)
        requires
            self.wf(),
            fits_key(player@),
        ensures
            seen(r) == player_entry(store@, player@, army_id, amount),
    {
        match may_load_player_total(store, self.player_totals_by_army, player, army_id) {
            Err(e) => Err(ContractError::Std(e)),
            Ok(Some(total)) => checked_add(total, amount),
            Ok(None) => Ok(amount),
        }
    }

    /// What a stake enters in the books of the armies, and the stake itself: the amount, the army,
    /// the army's total on the battlefield, and the stake.
    pub fn stake_books(
        &self,
        store: &ReadStore<'_>,
        info: &MessageInfo,
        army_id: u8,
        battlefield_id: u8,
    ) -> (r: Result<(u128, Army, u128, StakeInfo), ContractError>)
        requires
            self.wf(),
        ensures
            match stake_books(store@, info@, army_id, battlefield_id) {
                Ok(entries) => r matches Ok(e) && (e.0, e.1@, e.2, e.3@) == entries,
                Err(e) => r matches Err(f) && f@ == e,
            },
    {
        let amount = self.take_payment(store, info)?;
        // Check if army exists and update total
        let army = self.army_entry(store, army_id, amount)?;
        // Update army balance for battlefield
        let total = self.field_entry(store, army_id, battlefield_id, amount)?;
        // Add to an existing stake of the player, if there is one
        let stake = self.stake_entry(store, &info.sender, army_id, battlefield_id, amount)?;
        Ok((amount, army, total, stake))
    }

    /// Stake troops on a particular battlefield.
    /// Only callable while the game is open.
    pub fn stake(
        &self,
        store: &mut Store<'_>,
        info: &MessageInfo,
        army_id: u8,
        battlefield_id: u8,
    ) -> (r: Result<Response, ContractError>)
        requires
            self.wf(),
            stake_books(old(store)@, info@, army_id, battlefield_id) is Ok ==> stake_fits(
                old(store)@.stakes,
                (army_id, battlefield_id, info@.sender),
            ),
        ensures
            (final(store)@, seen(r)) == stake_effect(old(store)@, info@, army_id, battlefield_id),
    {
        let player = info.sender.as_str();
        let (amount, army, total, stake) = self.stake_books(
            &store.reader(),
            info,
            army_id,
            battlefield_id,
        )?;
        // Increment the player total for the army
        let player_total = self.player_entry(&store.reader(), player, army_id, amount)?;
        // Nothing is written before every entry is known to be in order
        kept(save_army(store, self.armies, army_id, &army))?;
        kept(
            save_army_total(
                store,
                self.army_totals_by_battlefield,
                army_id,
                battlefield_id,
                total,
            ),
        )?;
        kept(self.put_stake(store, army_id, battlefield_id, player, &stake))?;
        kept(
            save_player_total(store, self.player_totals_by_army, player, army_id, player_total),
        )?;
        Ok(
            Response::new().add_attribute("action", "stake".to_owned()).add_attribute(
                "army_id",
                u8_to_string(army_id),
            ).add_attribute("battlefield_id", u8_to_string(battlefield_id)),
        )
    }

    /// Sets up the armies with the ids from one on.
    fn enlist(&self, store: &mut Store<'_>, infos: Vec<ArmyInfo>) -> (r: Result<(), ContractError>)
        requires
            self.wf(),
            infos@.len() <= 255,
        ensures
            r is Ok,
            final(store)@ == (ContractState {
                armies: with_armies(old(store)@.armies, infos@),
                ..old(store)@
            }),
    {
        let mut i: u8 = 0;
        proof {
            assert(with_armies(old(store)@.armies, infos@.take(0)).entries
                =~= old(store)@.armies.entries);
        }
        while (i as usize) < infos.len()
            invariant
                self.wf(),
                infos@.len() <= 255,
                i <= infos@.len(),
                store@ == (ContractState {
                    armies: with_armies(old(store)@.armies, infos@.take(i as int)),
                    ..old(store)@
                }),
            decreases infos@.len() - i,
        {
            let info = &infos[i as usize];
            i += 1;
            let army = Army {
                name: info.name.clone(),
                ipfs_uri: info.ipfs_uri.clone(),
                id: i,
                total_staked: 0,
                victory_points: 0,
            };
            kept(save_army(store, self.armies, i, &army))?;
            proof {
                assert(store@.armies.entries =~= with_armies(
                    old(store)@.armies,
                    infos@.take(i as int),
                ).entries);
            }
        }
        proof {
            assert(infos@.take(i as int) =~= infos@);
        }
        Ok(())
    }

    /// Sets up the battlefields with the ids from one on.
    fn lay_out(&self, store: &mut Store<'_>, infos: Vec<BattlefieldInfo>) -> (r: Result<
        (),
        ContractError,
    >)
        requires
            self.wf(),
            infos@.len() <= 255,
        ensures
            r is Ok,
            final(store)@ == (ContractState {
                battlefields: with_battlefields(old(store)@.battlefields, infos@),
                ..old(store)@
            }),
    {
        let mut i: u8 = 0;
        proof {
            assert(with_battlefields(old(store)@.battlefields, infos@.take(0)).entries
                =~= old(store)@.battlefields.entries);
        }
        while (i as usize) < infos.len()
            invariant
                self.wf(),
                infos@.len() <= 255,
                i <= infos@.len(),
                store@ == (ContractState {
                    battlefields: with_battlefields(
                        old(store)@.battlefields,
                        infos@.take(i as int),
                    ),
                    ..old(store)@
                }),
            decreases infos@.len() - i,
        {
            let info = &infos[i as usize];
            i += 1;
            let field = Battlefield {
                name: info.name.clone(),
                ipfs_uri: info.ipfs_uri.clone(),
                id: i,
                value: info.value,
                winner: None,
            };
            kept(save_battlefield(store, self.battlefields, i, &field))?;
            proof {
                assert(store@.battlefields.entries =~= with_battlefields(
                    old(store)@.battlefields,
                    infos@.take(i as int),
                ).entries);
            }
        }
        proof {
            assert(infos@.take(i as int) =~= infos@);
        }
        Ok(())
    }

    /// Sets the game up: the armies and the battlefields with their ids, the phase, and the
    /// configuration with the time of the block as the start of the battle.
    ///
    /// A game with more armies or battlefields than the limits is refused.
    pub fn instantiate(&self, store: &mut Store<'_>, env: &Env, data: InstantiateMsgData) -> (r:
        Result<Response, ContractError>)
        requires
            self.wf(),
        ensures
            r is Ok <==> data.armies@.len() <= 5 && data.battlefields@.len() <= 10,
            match oversized(data.armies@.len(), data.battlefields@.len()) {
                Some(e) => r matches Err(f) && f@ == e && final(store)@ == old(store)@,
                None => {
                    &&& r matches Ok(response) && response@ == ResponseView::empty()
                    &&& final(store)@ == set_up(
                        old(store)@,
                        CONTRACT_NAME@,
                        CONTRACT_VERSION@,
                        data.armies@,
                        data.battlefields@,
                        ConfigView {
                            start: env.block.time,
                            battle_duration: data.battle_duration,
                            denom: data.denom@,
                        },
                    )
                },
            },
    {
        // Check armies and battlefields do not exceed max length
        if data.armies.len() > ARMY_LIMIT as usize {
            return Err(ContractError::TooManyArmies {  });
        }
        if data.battlefields.len() > BATTLEFIELD_LIMIT as usize {
            return Err(ContractError::TooManyBattlefields {  });
        }
        kept(set_contract_version(store, CONTRACT_NAME, CONTRACT_VERSION))?;
        // Initialize armies and set their totals to zero
        self.enlist(store, data.armies)?;
        // Initialize battlefields
        self.lay_out(store, data.battlefields)?;
        // Set gamephase to open
        kept(save_phase(store, self.phase, GamePhase::Open.is_open()))?;
        // Save config
        let config = Config {
            start: env.block.time,
            battle_duration: data.battle_duration,
            denom: data.denom,
        };
        kept(save_config(store, self.config, &config))?;
        Ok(Response::new())
    }

    /// The battlefields that can be read, from the highest id down.
    fn list_battlefields(&self, store: &ReadStore<'_>) -> (r: Vec<(u8, Battlefield)>)
        requires
            self.wf(),
        ensures
            battlefield_rows(r@) == rows(store@.battlefields.entries).reverse(),
    {
        let walk = range_battlefields(store, self.battlefields);
        proof {
            lemma_flattened_battlefields(walk@);
        }
        flatten(walk)
    }

    /// What is staked on each army on one battlefield, by the army's id.
    fn field_totals(&self, store: &ReadStore<'_>, field: u8) -> (r: Vec<u128>)
        requires
            self.wf(),
            !store@.army_totals_by_battlefield.breaks,
        ensures
            r@ == field_totals(store@, field),
    {
        let ghost entries = store@.army_totals_by_battlefield.entries;
        let rows = flatten(range_army_totals(store, self.army_totals_by_battlefield));
        proof {
            let stored = pair_rows(entries);
            assert(rows@ == stored.reverse());
            assert forall|j: int| 0 <= j < rows@.len() implies load_of(
                slot(entries, (#[trigger] rows@[j]).0),
            ) == Ok::<u128, StorageFailure>(rows@[j].1) by {
                assert(rows@[j] == stored[stored.len() - 1 - j]);
                assert(stored.contains(rows@[j]));
                lemma_pairs_contain(entries, 65536, rows@[j]);
            }
        }
        let mut totals: Vec<u128> = Vec::new();
        while totals.len() < 256
            invariant
                totals@.len() <= 256,
                forall|j: int| 0 <= j < totals@.len() ==> #[trigger] totals@[j] == 0,
            decreases 256 - totals@.len(),
        {
            totals.push(0);
        }
        let mut i: usize = 0;
        while i < rows.len()
            invariant
                i <= rows@.len(),
                totals@.len() == 256,
                entries == store@.army_totals_by_battlefield.entries,
                forall|j: int|
                    0 <= j < rows@.len() ==> load_of(slot(entries, (#[trigger] rows@[j]).0))
                        == Ok::<u128, StorageFailure>(rows@[j].1),
                forall|j: int|
                    0 <= j < 256 ==> #[trigger] totals@[j] == 0 || totals@[j] == total_on(
                        store@,
                        j as u8,
                        field,
                    ),
                forall|j: int|
                    0 <= j < i && (#[trigger] rows@[j]).0.1 == field
                        ==> totals@[rows@[j].0.0 as int] == rows@[j].1,
            decreases rows@.len() - i,
        {
            let ((army, on), total) = rows[i];
            if on == field {
                totals.set(army as usize, total);
            }
            i += 1;
        }
        proof {
            assert forall|a: u8| totals@[a as int] == #[trigger] total_on(store@, a, field) by {
                if let Ok(total) = load_of(slot(entries, (a, field))) {
                    let row = ((a, field), total);
                    let stored = pair_rows(entries);
                    lemma_pairs_contain(entries, 65536, row);
                    let k = choose|k: int| 0 <= k < stored.len() && stored[k] == row;
                    assert(rows@[stored.len() - 1 - k] == row);
                }
            }
            assert forall|j: int| 0 <= j < 256 implies #[trigger] totals@[j] == field_totals(
                store@,
                field,
            )[j] by {
                assert(totals@[(j as u8) as int] == total_on(store@, j as u8, field));
            }
            assert(totals@ =~= field_totals(store@, field));
        }
        totals
    }

    /// Gives the points of a battlefield to its winner, if it has one.
    fn reward(&self, store: &mut Store<'_>, winner: Option<u8>, points: u8) -> (r: Result<
        (),
        ContractError,
    >)
        requires
            self.wf(),
        ensures
            match rewarded(old(store)@.armies, winner, points) {
                Ok(armies) => r is Ok && final(store)@ == (ContractState { armies, ..old(store)@ }),
                Err(e) => r matches Err(f) && f@ == e && final(store)@ == old(store)@,
            },
    {
        let id = match winner {
            None => return Ok(()),
            Some(id) => id,
        };
        let army = match may_load_army(&store.reader(), self.armies, id) {
            Err(e) => return Err(ContractError::Std(e)),
            Ok(None) => return Err(ContractError::NoArmy { id }),
            Ok(Some(army)) => army,
        };
        let victory_points = match army.victory_points.checked_add(points) {
            Some(sum) => sum,
            None => return Err(
                ContractError::Overflow {
                    operation: OverflowOperation::Add,
                    left: army.victory_points as u128,
                    right: points as u128,
                },
            ),
        };
        let army = Army { victory_points, ..army };
        kept(save_army(store, self.armies, id, &army))
    }

    /// Settles one battlefield, and returns the prize pool with the dead stake added.
    fn settle(&self, store: &mut Store<'_>, field: &Battlefield, pool: u128) -> (r: Result<
        u128,
        ContractError,
    >)
        requires
            self.wf(),
            !old(store)@.army_totals_by_battlefield.breaks,
        ensures
            match battle(old(store)@, field@, pool) {
                Battle::Refused(c, e) => r matches Err(f) && f@ == e && final(store)@ == c,
                Battle::Decided(c, new_pool) => r == Ok::<u128, ContractError>(new_pool)
                    && final(store)@ == c,
            },
    {
        // Get all army stakes for battlefield
        let totals = self.field_totals(&store.reader(), field.id);
        // Determine which army won, check for tie
        let winner = leader(&totals);
        proof {
            lemma_victor(old(store)@, field@.id);
            if winner is None {
                if let Some(w) = victor(old(store)@, field@.id) {
                    assert(leads_in(totals@, w as int));
                }
            }
        }
        // Sum the stakes of the others and add them to the prize pool
        let dead_stake = match winner {
            None => 0,
            Some(w) => sum_without(&totals, w)?,
        };
        let pool = checked_add(pool, dead_stake)?;
        // Add up victory points for that army
        self.reward(store, winner, field.value)?;
        // Save battlefield with the winner
        let saved = Battlefield {
            name: field.name.clone(),
            ipfs_uri: field.ipfs_uri.clone(),
            id: field.id,
            value: field.value,
            winner,
        };
        kept(save_battlefield(store, self.battlefields, field.id, &saved))?;
        Ok(pool)
    }

    /// Whether every army can be read, as a list of them and the choice of the winner need.
    pub fn armies_readable(&self, store: &ReadStore<'_>) -> (r: bool)
        requires
            self.wf(),
        ensures
            r == all_readable(store@.armies),
    {
        range_armies(store, self.armies).is_ok()
    }

    /// Whether every battlefield can be read, as a list of them needs.
    pub fn battlefields_readable(&self, store: &ReadStore<'_>) -> (r: bool)
        requires
            self.wf(),
        ensures
            r == all_readable(store@.battlefields),
    {
        complete(&range_battlefields(store, self.battlefields))
    }

    /// Tally the scores and finalize the winner.
    /// Only callable after the battle has ended. The game is closed with it.
    pub fn tally(&self, store: &mut Store<'_>, env: &Env) -> (r: Result<Response, ContractError>)
        requires
            self.wf(),
            tally_refusal(old(store)@, env.block.time) is None && tally_order(old(store)@).len() > 0
                ==> !old(store)@.army_totals_by_battlefield.breaks,
        ensures
            (final(store)@, seen(r)) == tally_effect(old(store)@, env.block.time),
            (r matches Err(e) && e is NotOver) <==> (held(old(store)@.config) matches Some(config)
                && config.start.nanos as int / 1_000_000_000 + config.battle_duration.nanos as int
                / 1_000_000_000 > env.block.time.nanos as int / 1_000_000_000),
    {
        proof {
            law_tally_waits_for_the_end(old(store)@, env.block.time);
        }
        // Load Config
        let config = match load_config(&store.reader(), self.config) {
            Err(e) => return Err(ContractError::Std(e)),
            Ok(config) => config,
        };
        // Check game is over
        if config.start.seconds() + config.battle_duration.seconds() > env.block.time.seconds() {
            return Err(ContractError::NotOver {  });
        }
        // Initialize prize pool
        let mut prize_pool: u128 = 0;
        // Loop through battlefields to determine winners
        let fields = self.list_battlefields(&store.reader());
        let ghost order = tally_order(old(store)@);
        let mut i: usize = 0;
        proof {
            assert(battlefield_rows(fields@).len() == order.len());
            assert(order.take(0) =~= Seq::empty());
        }
        while i < fields.len()
            invariant
                self.wf(),
                i <= fields@.len(),
                order == tally_order(old(store)@),
                battlefield_rows(fields@) == order,
                fields@.len() == order.len(),
                tally_refusal(old(store)@, env.block.time) is None,
                order.len() > 0 ==> !old(store)@.army_totals_by_battlefield.breaks,
                store@.army_totals_by_battlefield == old(store)@.army_totals_by_battlefield,
                battles(old(store)@, order.take(i as int)) == Battle::Decided(store@, prize_pool),
            decreases fields@.len() - i,
        {
            proof {
                let next = order.take(i + 1);
                assert(next.drop_last() =~= order.take(i as int));
                assert(next.last().1 == fields@[i as int].1@);
                law_tally_waits_for_the_end(old(store)@, env.block.time);
                if !(battles(old(store)@, next) is Decided) {
                    lemma_battles_stop(old(store)@, order, i + 1);
                }
            }
            prize_pool = self.settle(store, &fields[i].1, prize_pool)?;
            i += 1;
        }
        proof {
            assert(order.take(i as int) =~= order);
        }
        // Determine over all winner
        let armies = match range_armies(&store.reader(), self.armies) {
            Err(e) => return Err(ContractError::Std(e)),
            Ok(armies) => armies,
        };
        proof {
            assert(army_rows(armies@).len() == rows(store@.armies.entries).len());
        }
        if armies.len() == 0 {
            return Err(ContractError::NoArmies {  });
        }
        let game_winner = most_decorated(armies);
        kept(save_winner(store, self.winner, &game_winner))?;
        // Save the prize pool amount for the winning army
        kept(save_prize_pool(store, self.prize_pool, prize_pool))?;
        // Set gamephase to closed
        kept(save_phase(store, self.phase, GamePhase::Closed.is_open()))?;
        Ok(Response::new().add_attribute("action", "tally".to_owned()))
    }

    /// What goes back to the player of the stakes of a list.
    fn refund_of(&self, store: &ReadStore<'_>, stakes: &Vec<StakeInfo>) -> (r: Result<
        u128,
        ContractError,
    >)
        requires
            self.wf(),
        ensures
            seen(r) == refund(store@, stake_views(stakes@)),
    {
        let mut amount: u128 = 0;
        let ghost views = stake_views(stakes@);
        let mut i: usize = 0;
        while i < stakes.len()
            invariant
                self.wf(),
                i <= stakes@.len(),
                views == stake_views(stakes@),
                refund(store@, views.take(i as int)) == Ok::<u128, Failure>(amount),
            decreases stakes@.len() - i,
        {
            let stake = &stakes[i];
            proof {
                let next = views.take(i + 1);
                assert(next.drop_last() =~= views.take(i as int));
                assert(next.last() == stake@);
                if refund(store@, next) is Err {
                    lemma_refund_stops(store@, views, i + 1);
                }
            }
            let field = match load_battlefield(store, self.battlefields, stake.battlefield_id) {
                Err(e) => return Err(ContractError::Std(e)),
                Ok(field) => field,
            };
            match field.winner {
                Some(winner) => {
                    // Check if staked with the winning army, if so they can withdraw the staked
                    // balance
                    if winner == stake.army {
                        amount = checked_add(amount, stake.amount)?;
                    }
                },
                // Handle tie
                None => {
                    amount = checked_add(amount, stake.amount)?;
                },
            }
            i += 1;
        }
        proof {
            assert(views.take(i as int) =~= views);
        }
        Ok(amount)
    }

    /// What a player gets of the prize pool.
    fn prize_of(&self, store: &ReadStore<'_>, player: &str, has_staked: bool) -> (r: Result<
        u128,
        ContractError,
    >)
        requires
            self.wf(),
            fits_key(player@),
        ensures
            seen(r) == prize(store@, player@, has_staked),
    {
        // Load game winner and prize pool
        let game_winner = match load_winner(store, self.winner) {
            Err(e) => return Err(ContractError::Std(e)),
            Ok(army) => army,
        };
        let prize_pool = match load_prize_pool(store, self.prize_pool) {
            Err(e) => return Err(ContractError::Std(e)),
            Ok(pool) => pool,
        };
        // Load the total amount the player staked to the winning army
        let players_stake = match load_player_total(
            store,
            self.player_totals_by_army,
            player,
            game_winner.id,
        ) {
            Err(StorageError::NotFound(e)) => return if has_staked {
                Ok(0)
            } else {
                Err(ContractError::Std(StorageError::NotFound(e)))
            },
            Err(e) => return Err(ContractError::Std(e)),
            Ok(total) => total,
        };
        // Calculate players share of the prize pool
        let total_staked = game_winner.total_staked;
        if total_staked == 0 {
            return Err(ContractError::DivideByZero { operand: players_stake });
        }
        match multiply_ratio(prize_pool, players_stake, total_staked) {
            Some(winnings) => Ok(winnings),
            None => Err(
                ContractError::Overflow {
                    operation: OverflowOperation::Mul,
                    left: prize_pool,
                    right: players_stake,
                },
            ),
        }
    }

    /// The configuration that a withdrawal goes by, once the game is over.
    pub fn closed_game(&self, store: &ReadStore<'_>) -> (r: Result<Config, ContractError>)
        requires
            self.wf(),
        ensures
            seen(r) == closed_game(store@),
    {
        // Load Config
        let config = match load_config(store, self.config) {
            Err(e) => return Err(ContractError::Std(e)),
            Ok(config) => config,
        };
        // Check game is over
        let phase = match load_phase(store, self.phase) {
            Err(e) => return Err(ContractError::Std(e)),
            Ok(open) => GamePhase::from_open(open),
        };
        if phase != GamePhase::Closed {
            return Err(ContractError::NotOver {  });
        }
        Ok(config)
    }

    /// What a player takes out: the refund and the prize.
    fn payout(&self, store: &ReadStore<'_>, player: &str) -> (r: Result<u128, ContractError>)
        requires
            self.wf(),
            fits_key(player@),
            straight(store@.stakes, player@),
        ensures
            seen(r) == payout(store@, player@),
    {
        // Load player stakes
        let stakes = match range_player_stakes(
            store,
            self.stakes.primary,
            self.stakes.idx.player,
            player,
        ) {
            Err(e) => return Err(ContractError::Std(e)),
            Ok(stakes) => stakes,
        };
        let refund = self.refund_of(store, &stakes)?;
        proof {
            assert(stake_views(stakes@).len() == stakes@.len());
        }
        let winnings = self.prize_of(store, player, stakes.len() > 0)?;
        // Add player's share of the prize pool to the refund
        checked_add(refund, winnings)
    }

    /// Pays the sender what is left of the stakes, and a share of the prize pool.
    /// Only callable after the battle has ended, and a player can't call it twice.
    pub fn withdraw(&self, store: &mut Store<'_>, info: &MessageInfo) -> (r: Result<
        Response,
        ContractError,
    >)
        requires
            self.wf(),
            closed_game(old(store)@) is Ok ==> fits_key(info@.sender)
                && straight(old(store)@.stakes, info@.sender),
        ensures
            (final(store)@, seen(r)) == withdraw_effect(old(store)@, info@.sender),
    {
        let player = info.sender.as_str();
        let config = self.closed_game(&store.reader())?;
        // Make sure player has not been paid
        match may_load_withdrawal(&store.reader(), self.withdrawals, player) {
            Err(e) => return Err(ContractError::Std(e)),
            Ok(Some(_)) => return Err(ContractError::AlreadyWithdrawn {  }),
            Ok(None) => {},
        }
        let amount = self.payout(&store.reader(), player)?;
        kept(save_withdrawal(store, self.withdrawals, player, amount))?;
        // Construct withdraw message with refund amount
        let mut coin_list: Vec<Coin> = Vec::new();
        coin_list.push(Coin { denom: config.denom, amount });
        proof {
            assert(coins(coin_list@) =~= seq![CoinView { denom: config@.denom, amount }]);
        }
        let msg = BankMsg::Send { to_address: info.sender.clone(), amount: coin_list };
        Ok(Response::new().add_attribute("action", "withdraw".to_owned()).add_message(msg))
    }

    /// Queries an army by id.
    pub fn army(&self, store: &ReadStore<'_>, id: u8) -> (r: Result<Army, StorageError>)
        requires
            self.wf(),
        ensures
            seen(r) == load_of(slot(store@.armies.entries, id)),
    {
        load_army(store, self.armies, id)
    }

    /// Returns a list of armies, from the highest id down
    pub fn armies(&self, store: &ReadStore<'_>) -> (r: Result<Vec<Army>, StorageError>)
        requires
            self.wf(),
            all_readable(store@.armies),
        ensures
            r matches Ok(list) && army_views(list@) == values(
                rows(store@.armies.entries),
            ).reverse(),
    {
        let mut list: Vec<Army> = Vec::new();
        let armies = range_armies(store, self.armies)?;
        for row in it: armies
            invariant
                it.seq() == armies@,
                list@.len() == it.index(),
                forall|j: int| 0 <= j < it.index() ==> (#[trigger] list@[j])@ == armies@[j].1@,
        {
            list.push(row.1);
        }
        proof {
            let stored = rows(store@.armies.entries);
            assert(army_rows(armies@).len() == stored.len());
            assert forall|j: int| 0 <= j < list@.len() implies army_views(list@)[j]
                == #[trigger] values(stored).reverse()[j] by {
                assert(army_rows(armies@)[j] == stored.reverse()[j]);
                assert(list@[j]@ == armies@[j].1@);
            }
            assert(army_views(list@) =~= values(stored).reverse());
        }
        Ok(list)
    }

    /// Queries a battlefield by id.
    pub fn battlefield(&self, store: &ReadStore<'_>, id: u8) -> (r: Result<
        Battlefield,
        StorageError,
    >)
        requires
            self.wf(),
        ensures
            seen(r) == load_of(slot(store@.battlefields.entries, id)),
    {
        load_battlefield(store, self.battlefields, id)
    }

    /// Returns a list of battlefields, from the highest id down
    pub fn battlefields(&self, store: &ReadStore<'_>) -> (r: Result<Vec<Battlefield>, StorageError>)
        requires
            self.wf(),
            all_readable(store@.battlefields),
        ensures
            r matches Ok(list) && battlefield_views(list@) == values(
                rows(store@.battlefields.entries),
            ).reverse(),
    {
        let mut list: Vec<Battlefield> = Vec::new();
        let fields = self.list_battlefields(store);
        for row in it: fields
            invariant
                it.seq() == fields@,
                list@.len() == it.index(),
                forall|j: int| 0 <= j < it.index() ==> (#[trigger] list@[j])@ == fields@[j].1@,
        {
            list.push(row.1);
        }
        proof {
            let stored = rows(store@.battlefields.entries);
            assert(battlefield_rows(fields@).len() == stored.len());
            assert forall|j: int| 0 <= j < list@.len() implies battlefield_views(list@)[j]
                == #[trigger] values(stored).reverse()[j] by {
                assert(battlefield_rows(fields@)[j] == stored.reverse()[j]);
                assert(list@[j]@ == fields@[j].1@);
            }
            assert(battlefield_views(list@) =~= values(stored).reverse());
        }
        Ok(list)
    }

    /// Returns information about the game configuration
    pub fn config(&self, store: &ReadStore<'_>) -> (r: Result<Config, StorageError>)
        requires
            self.wf(),
        ensures
            seen(r) == load_of(store@.config),
    {
        load_config(store, self.config)
    }

    /// Essential player info
    /// - How much has a player staked?
    /// - Which battlefields are they staked in?
    pub fn player_info(&self, store: &ReadStore<'_>, player: &str) -> (r: Result<
        PlayerInfo,
        ContractError,
    >)
        requires
            self.wf(),
            fits_key(player@),
            straight(store@.stakes, player@),
        ensures
            seen(r) == player_report(store@, player@),
    {
        let stakes = match range_player_stakes(
            store,
            self.stakes.primary,
            self.stakes.idx.player,
            player,
        ) {
            Err(e) => return Err(ContractError::Std(e)),
            Ok(stakes) => stakes,
        };
        let ghost views = stake_views(stakes@);
        let mut total_staked: u128 = 0;
        let mut battlefields: Vec<u8> = Vec::new();
        let mut i: usize = 0;
        proof {
            assert(views.take(0) =~= Seq::empty());
        }
        while i < stakes.len()
            invariant
                i <= stakes@.len(),
                views == stake_views(stakes@),
                listed_stakes(store@, player@) == Ok::<Seq<StakeInfoView>, Failure>(views),
                stakes_total(views.take(i as int)) == Ok::<u128, Failure>(total_staked),
                battlefields@.len() == i,
                forall|j: int|
                    0 <= j < i ==> #[trigger] battlefields@[j] == views[j].battlefield_id,
            decreases stakes@.len() - i,
        {
            proof {
                let next = views.take(i + 1);
                assert(next.drop_last() =~= views.take(i as int));
                assert(next.last() == stakes@[i as int]@);
                if stakes_total(next) is Err {
                    lemma_stakes_total_stops(views, i + 1);
                }
            }
            total_staked = checked_add(total_staked, stakes[i].amount)?;
            battlefields.push(stakes[i].battlefield_id);
            i += 1;
        }
        proof {
            assert(views.take(i as int) =~= views);
            assert(battlefields@ =~= views.map_values(|s: StakeInfoView| s.battlefield_id));
        }
        Ok(PlayerInfo { total_staked, battlefields })
    }

    /// Returns information about the game status: the phase that the game is in
    pub fn status(&self, store: &ReadStore<'_>) -> (r: Result<GamePhase, StorageError>)
        requires
            self.wf(),
        ensures
            match load_of(store@.phase) {
                Ok(open) => r == Ok::<GamePhase, StorageError>(
                    if open {
                        GamePhase::Open
                    } else {
                        GamePhase::Closed
                    },
                ),
                Err(e) => r matches Err(f) && f@ == e,
            },
    {
        match load_phase(store, self.phase) {
            Ok(open) => Ok(GamePhase::from_open(open)),
            Err(e) => Err(e),
        }
    }
}

} // verus!
