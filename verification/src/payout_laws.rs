//! What holds of withdrawing.
use vstd::prelude::*;

use crate::accounts::{
    all_staked, army_account, balanced, field_account, fields_sum, in_order, indexed, keyed,
    player_account, player_armies_sum, player_fields_sum, players_field_sum, players_sum,
    same_roster, stake_account,
};
use crate::error::{Failure, OverflowOperation, StorageFailure};
use crate::laws::{law_player_is_part_of_army, law_players_add_up};
use crate::ledger::{
    load_of, pair_at, pair_rows_below, rows, slot, stakes_of, values, ContractState, Slot,
};
use crate::msg::{BankMsgView, ResponseView};
use crate::rules::{
    listed_stakes, payout, player_report, prize, refund, stakes_total, survives, tally_order,
    victor, winnings, withdraw_effect,
};
use crate::state::{BattlefieldView, CoinView, StakeInfoView, Timestamp};
use crate::sums::{
    lemma_below_at_most, lemma_below_nothing, lemma_below_plus, lemma_below_raised,
    lemma_below_same, lemma_exchange_list, lemma_exchange_ranges, lemma_over_at_most,
    lemma_over_nothing, lemma_over_plus, lemma_over_reverse, lemma_over_same, sum_below, sum_over,
};
use crate::tally_laws::{
    after_tally, field_sum, law_dead_stake_is_the_losers, law_later_tally_decides_the_same,
    law_tally_keeps_order, law_tally_outcome, law_tally_touches_nothing_else,
    law_winner_has_most_points, leads, lemma_balance_goes_by_accounts, lemma_rows_sum, losses,
    lost_on, pool_of, row_value, scored, tallies,
};

verus! {

/// The state after a withdrawal.
pub open spec fn after_withdrawal(c: ContractState, player: Seq<char>) -> ContractState {
    withdraw_effect(c, player).0
}

/// Whether a withdrawal is carried out.
pub open spec fn withdraws(c: ContractState, player: Seq<char>) -> bool {
    withdraw_effect(c, player).1 is Ok
}

// ---------------------------------------------------------------------------
// When a withdrawal is made
// ---------------------------------------------------------------------------

/// While the game is open, a withdrawal is refused.
pub proof fn law_no_withdrawal_while_open(c: ContractState, player: Seq<char>)
    requires
        load_of(c.config) is Ok,
        load_of(c.phase) == Ok::<bool, StorageFailure>(true),
    ensures
        withdraw_effect(c, player) == (c, Err::<ResponseView, Failure>(Failure::NotOver)),
{
}

/// A withdrawal that is refused changes nothing.
pub proof fn law_refused_withdrawal_changes_nothing(c: ContractState, player: Seq<char>)
    requires
        !withdraws(c, player),
    ensures
        after_withdrawal(c, player) == c,
{
}

/// A withdrawal that is carried out asks the bank for one payment: to the sender, of one coin
/// in the game's denomination, of the refund and the prize. It keeps what was paid, and changes
/// nothing else.
pub proof fn law_withdrawal_pays_the_sender(c: ContractState, player: Seq<char>)
    requires
        withdraws(c, player),
    ensures
        load_of(c.phase) == Ok::<bool, StorageFailure>(false),
        listed_stakes(c, player) is Ok,
        ({
            let stakes = listed_stakes(c, player)->Ok_0;
            let won = prize(c, player, stakes.len() > 0);
            &&& refund(c, stakes) is Ok
            &&& won is Ok
            &&& refund(c, stakes)->Ok_0 + won->Ok_0 <= u128::MAX
            &&& ({
                let amount = (refund(c, stakes)->Ok_0 + won->Ok_0) as u128;
                &&& withdraw_effect(c, player).1->Ok_0.messages =~= seq![
                    BankMsgView::Send {
                        to_address: player,
                        amount: seq![
                            CoinView { denom: load_of(c.config)->Ok_0.denom, amount },
                        ],
                    },
                ]
                &&& after_withdrawal(c, player) == (ContractState {
                    withdrawals: c.withdrawals.insert(player, Slot::Readable(amount)),
                    ..c
                })
            })
        }),
{
}

/// A player who has been paid is not paid again.
pub proof fn law_no_second_withdrawal(c: ContractState, player: Seq<char>)
    requires
        withdraws(c, player),
    ensures
        withdraw_effect(after_withdrawal(c, player), player) == (
            after_withdrawal(c, player),
            Err::<ResponseView, Failure>(Failure::AlreadyWithdrawn),
        ),
{
}

proof fn lemma_same_refund(c: ContractState, d: ContractState, stakes: Seq<StakeInfoView>)
    requires
        d.battlefields == c.battlefields,
    ensures
        refund(d, stakes) == refund(c, stakes),
    decreases stakes.len(),
{
    if stakes.len() > 0 {
        lemma_same_refund(c, d, stakes.drop_last());
    }
}

/// What is paid to a player does not depend on who has withdrawn before.
pub proof fn law_withdrawals_are_independent(
    c: ContractState,
    player: Seq<char>,
    other: Seq<char>,
)
    requires
        player != other,
    ensures
        payout(after_withdrawal(c, other), player) == payout(c, player),
        withdraw_effect(after_withdrawal(c, other), player).1 == withdraw_effect(c, player).1,
{
    let d = after_withdrawal(c, other);
    if let Ok(stakes) = listed_stakes(c, player) {
        lemma_same_refund(c, d, stakes);
    }
    assert(slot(d.withdrawals, player) == slot(c.withdrawals, player));
}

/// A withdrawal keeps the books in order, the configuration, and the armies and battlefields.
pub proof fn law_withdrawal_keeps_order(
    c: ContractState,
    players: Seq<Seq<char>>,
    player: Seq<char>,
)
    requires
        in_order(c, players),
    ensures
        in_order(after_withdrawal(c, player), players),
        same_roster(c, after_withdrawal(c, player)),
{
    let d = after_withdrawal(c, player);
    assert forall|a: u8| #[trigger] army_account(d, a) == army_account(c, a) by {}
    lemma_balance_goes_by_accounts(c, d, players);
}

// ---------------------------------------------------------------------------
// What goes back to a player
// ---------------------------------------------------------------------------

/// What a stake is of.
pub open spec fn amount_of() -> spec_fn(StakeInfoView) -> nat {
    |s: StakeInfoView| s.amount as nat
}

/// What goes back of a stake: all of it if its army has won the battlefield or the battlefield
/// is a tie, and otherwise nothing.
pub open spec fn spared_of(c: ContractState) -> spec_fn(StakeInfoView) -> nat {
    |s: StakeInfoView|
        match load_of(slot(c.battlefields.entries, s.battlefield_id)) {
            Ok(field) => if survives(s, field) {
                s.amount as nat
            } else {
                0
            },
            Err(_) => 0,
        }
}

/// What the stakes of a list are of.
pub open spec fn staked_in(stakes: Seq<StakeInfoView>) -> nat {
    sum_over(stakes, amount_of())
}

/// What goes back of the stakes of a list.
pub open spec fn spared_in(c: ContractState, stakes: Seq<StakeInfoView>) -> nat {
    sum_over(stakes, spared_of(c))
}

/// A refund is of the stakes with armies that have won their battlefield, and of those on
/// battlefields without a winner. It is made where their battlefields can be read and the sum
/// fits.
pub proof fn law_refund_is_of_what_survives(c: ContractState, stakes: Seq<StakeInfoView>)
    ensures
        refund(c, stakes) matches Ok(amount) ==> amount == spared_in(c, stakes),
        spared_in(c, stakes) <= staked_in(stakes),
        (forall|i: int|
            0 <= i < stakes.len() ==> load_of(
                slot(c.battlefields.entries, (#[trigger] stakes[i]).battlefield_id),
            ) is Ok) && spared_in(c, stakes) <= u128::MAX ==> refund(c, stakes) is Ok,
    decreases stakes.len(),
{
    if stakes.len() > 0 {
        let front = stakes.drop_last();
        law_refund_is_of_what_survives(c, front);
        assert(stakes[stakes.len() - 1] == stakes.last());
        assert forall|i: int| 0 <= i < front.len() implies #[trigger] front[i] == stakes[i] by {}
    }
}

/// A stake with the army that has won its battlefield goes back, whichever army has won the game;
/// so does every stake on a battlefield without a winner, and no other.
pub proof fn law_won_and_tied_stakes_come_back(
    c: ContractState,
    stake: StakeInfoView,
    field: BattlefieldView,
)
    requires
        load_of(slot(c.battlefields.entries, stake.battlefield_id)) == Ok::<
            BattlefieldView,
            StorageFailure,
        >(field),
    ensures
        field.winner == Some(stake.army) || field.winner is None ==> spared_of(c)(stake)
            == stake.amount,
        field.winner is Some && field.winner != Some(stake.army) ==> spared_of(c)(stake) == 0,
{
}

/// A player who has staked, but not with the winning army, is paid the refund alone.
pub proof fn law_refund_without_a_share(c: ContractState, player: Seq<char>)
    requires
        listed_stakes(c, player) is Ok,
        listed_stakes(c, player)->Ok_0.len() > 0,
        load_of(c.winner) is Ok,
        load_of(c.prize_pool) is Ok,
        slot(c.player_totals_by_army, (player, load_of(c.winner)->Ok_0.id)) is None,
    ensures
        payout(c, player) == refund(c, listed_stakes(c, player)->Ok_0),
{
}

// ---------------------------------------------------------------------------
// What a player has staked
// ---------------------------------------------------------------------------

/// What the entry of a pair of keys counts for.
pub open spec fn pair_value<V>(
    entries: Map<(u8, u8), Slot<V>>,
    g: spec_fn(V) -> nat,
    k: (u8, u8),
) -> nat {
    match load_of(slot(entries, k)) {
        Ok(v) => g(v),
        Err(_) => 0,
    }
}

pub proof fn lemma_pairs_sum<V>(
    entries: Map<(u8, u8), Slot<V>>,
    g: spec_fn(V) -> nat,
    one: nat,
    two: nat,
)
    requires
        one <= 256,
        two <= 256,
        one == 256 ==> two == 0,
    ensures
        sum_over(values(pair_rows_below(entries, (one * 256 + two) as nat)), g) == sum_below(
            |a: int| sum_below(|f: int| pair_value(entries, g, (a as u8, f as u8)), 256),
            one,
        ) + sum_below(|f: int| pair_value(entries, g, (one as u8, f as u8)), two),
    decreases one, two,
{
    let n = (one * 256 + two) as nat;
    if two > 0 {
        lemma_pairs_sum(entries, g, one, (two - 1) as nat);
        let k = pair_at(n - 1);
        assert(k == (one as u8, (two - 1) as u8));
        let front = pair_rows_below(entries, (n - 1) as nat);
        if let Ok(v) = load_of(slot(entries, k)) {
            assert(values(front.push((k, v))).drop_last() =~= values(front));
            assert(values(front.push((k, v))).last() == v);
        }
    } else if one > 0 {
        lemma_pairs_sum(entries, g, (one - 1) as nat, 256);
        assert((one - 1) * 256 + 256 == one * 256);
    } else {
        assert(values(pair_rows_below(entries, 0)) =~= Seq::empty());
    }
}

/// Where the indexes are right, a player's stakes are listed as they are stored.
pub proof fn lemma_listed_slot(c: ContractState, player: Seq<char>, army: u8, field: u8)
    requires
        indexed(c),
    ensures
        slot(stakes_of(c.stakes, player).entries, (army, field)) == slot(
            c.stakes.entries,
            (army, field, player),
        ),
{
    let k = (army, field, player);
    assert(c.stakes.by_player.contains_key((player, k)) <==> c.stakes.entries.contains_key(k));
}

/// Where the books are in order, the stakes that are listed for a player come to what the player
/// has staked with all armies.
pub proof fn law_listed_stakes_are_all(
    c: ContractState,
    players: Seq<Seq<char>>,
    player: Seq<char>,
)
    requires
        in_order(c, players),
        listed_stakes(c, player) is Ok,
    ensures
        staked_in(listed_stakes(c, player)->Ok_0) == player_armies_sum(c, player),
{
    let entries = stakes_of(c.stakes, player).entries;
    let g = amount_of();
    lemma_pairs_sum(entries, g, 256, 0);
    let by_army = |a: int| sum_below(|f: int| pair_value(entries, g, (a as u8, f as u8)), 256);
    assert forall|a: int| 0 <= a < 256 implies #[trigger] by_army(a) == player_account(
        c,
        player,
        a as u8,
    ) by {
        assert(player_account(c, player, a as u8) == player_fields_sum(c, player, a as u8));
        let one = |f: int| pair_value(entries, g, (a as u8, f as u8));
        let two = |f: int| stake_account(c, player, a as u8, f as u8);
        assert forall|f: int| 0 <= f < 256 implies #[trigger] one(f) == two(f) by {
            lemma_listed_slot(c, player, a as u8, f as u8);
        }
        lemma_below_same(one, two, 256);
    }
    lemma_below_same(by_army, |a: int| player_account(c, player, a as u8), 256);
}

pub proof fn lemma_stakes_total(stakes: Seq<StakeInfoView>)
    ensures
        match stakes_total(stakes) {
            Ok(total) => total == staked_in(stakes),
            Err(e) => staked_in(stakes) > u128::MAX && e is Overflow && e->operation
                == OverflowOperation::Add,
        },
    decreases stakes.len(),
{
    if stakes.len() > 0 {
        lemma_stakes_total(stakes.drop_last());
    }
}

/// What is told of a player is what the listed stakes come to, and their battlefields. It is told
/// exactly where the stakes can be listed and what they come to fits.
pub proof fn law_player_report(c: ContractState, player: Seq<char>)
    ensures
        player_report(c, player) is Ok <==> listed_stakes(c, player) is Ok && staked_in(
            listed_stakes(c, player)->Ok_0,
        ) <= u128::MAX,
        player_report(c, player) matches Ok(report) ==> {
            let stakes = listed_stakes(c, player)->Ok_0;
            &&& report.total_staked == staked_in(stakes)
            &&& report.battlefields.len() == stakes.len()
            &&& forall|i: int|
                0 <= i < stakes.len() ==> #[trigger] report.battlefields[i]
                    == stakes[i].battlefield_id
        },
{
    if let Ok(stakes) = listed_stakes(c, player) {
        lemma_stakes_total(stakes);
    }
}

// ---------------------------------------------------------------------------
// The prize pool
// ---------------------------------------------------------------------------

/// A player's share of the prize pool is in proportion to the player's part of what is staked on
/// the winning army, rounded down, and never more than the pool.
pub proof fn law_share_is_in_proportion(pool: u128, part: u128, total: u128)
    requires
        0 < total,
        part <= total,
    ensures
        winnings(pool, part, total) == Ok::<u128, Failure>((pool * part / total as int) as u128),
        pool * part / total as int <= pool,
        (pool * part / total as int) * total <= pool * part,
{
    assert(pool * part / total as int <= pool && (pool * part / total as int) * total <= pool
        * part) by (nonlinear_arith)
        requires
            0 < total,
            0 <= part <= total,
            0 <= pool,
    ;
}

/// A player whose stake is all that is staked on the winning army gets the whole prize pool.
pub proof fn law_sole_backer_takes_the_pool(pool: u128, total: u128)
    requires
        total > 0,
    ensures
        winnings(pool, total, total) == Ok::<u128, Failure>(pool),
{
    assert(pool * total / total as int == pool) by (nonlinear_arith)
        requires
            total > 0,
    ;
}

/// What a player gets of the prize pool, if anything.
pub open spec fn won(c: ContractState, player: Seq<char>) -> nat {
    match prize(c, player, true) {
        Ok(amount) => amount as nat,
        Err(_) => 0,
    }
}

/// Whether the winner that is kept is the army as it stands.
pub open spec fn winner_stands(c: ContractState) -> bool {
    &&& load_of(c.winner) is Ok
    &&& load_of(c.winner)->Ok_0.total_staked == army_account(c, load_of(c.winner)->Ok_0.id)
}

proof fn lemma_shares(c: ContractState, players: Seq<Seq<char>>)
    requires
        load_of(c.winner) is Ok,
        load_of(c.prize_pool) is Ok,
    ensures
        ({
            let winner = load_of(c.winner)->Ok_0;
            let pool = load_of(c.prize_pool)->Ok_0;
            let paid = sum_over(players, |p: Seq<char>| won(c, p));
            &&& winner.total_staked == 0 ==> paid == 0
            &&& paid * winner.total_staked <= pool * players_sum(c, players, winner.id)
        }),
    decreases players.len(),
{
    let winner = load_of(c.winner)->Ok_0;
    let pool = load_of(c.prize_pool)->Ok_0;
    let t = winner.total_staked;
    if players.len() > 0 {
        let front = players.drop_last();
        let p = players.last();
        lemma_shares(c, front);
        let a = sum_over(front, |p: Seq<char>| won(c, p));
        let b = players_sum(c, front, winner.id);
        let w = won(c, p);
        let x = player_account(c, p, winner.id);
        assert(w * t <= pool * x) by {
            if t > 0 && w > 0 {
                assert((pool * x / t as int) * t <= pool * x) by (nonlinear_arith)
                    requires
                        0 < t,
                        0 <= x,
                        0 <= pool,
                ;
            } else {
                assert(w * t == 0) by (nonlinear_arith)
                    requires
                        w == 0 || t == 0,
                ;
                assert(0 <= pool * x) by (nonlinear_arith)
                    requires
                        0 <= pool,
                        0 <= x,
                ;
            }
        }
        assert((a + w) * t <= pool * (b + x)) by (nonlinear_arith)
            requires
                a * t <= pool * b,
                w * t <= pool * x,
        ;
        assert(sum_over(players, |p: Seq<char>| won(c, p)) == a + w);
        assert(players_sum(c, players, winner.id) == b + x);
    } else {
        let paid = sum_over(players, |p: Seq<char>| won(c, p));
        let staked = players_sum(c, players, winner.id);
        assert(paid * t <= pool * staked) by (nonlinear_arith)
            requires
                paid == 0,
                staked == 0,
        ;
    }
}

/// The prize pool is paid at most once: what all players get of it is no more than there is.
pub proof fn law_pool_is_paid_once(c: ContractState, players: Seq<Seq<char>>)
    requires
        balanced(c, players),
        winner_stands(c),
        load_of(c.prize_pool) is Ok,
    ensures
        sum_over(players, |p: Seq<char>| won(c, p)) <= load_of(c.prize_pool)->Ok_0,
{
    let winner = load_of(c.winner)->Ok_0;
    let pool = load_of(c.prize_pool)->Ok_0;
    let paid = sum_over(players, |p: Seq<char>| won(c, p));
    let t = winner.total_staked;
    lemma_shares(c, players);
    law_players_add_up(c, players, winner.id);
    if t > 0 {
        assert(paid <= pool) by (nonlinear_arith)
            requires
                0 < t,
                paid * t <= pool * t,
        ;
    }
}

/// The winner that a tally keeps is the army as it stands.
proof fn lemma_winner_stands(c: ContractState, players: Seq<Seq<char>>, now: Timestamp)
    requires
        in_order(c, players),
        tallies(c, now),
    ensures
        winner_stands(after_tally(c, now)),
{
    let d = after_tally(c, now);
    law_tally_keeps_order(c, players, now);
    law_winner_has_most_points(c, now);
    let winner = load_of(d.winner)->Ok_0;
    let id = choose|id: u8| leads(d.armies.entries, id, winner);
    assert(load_of(slot(d.armies.entries, id)) matches Ok(a) ==> a.id == id);
}

// ---------------------------------------------------------------------------
// All payments
// ---------------------------------------------------------------------------

/// What a player is paid, if anything.
pub open spec fn paid_to(c: ContractState, player: Seq<char>) -> nat {
    match payout(c, player) {
        Ok(amount) => amount as nat,
        Err(_) => 0,
    }
}

/// Whether stakes with an army on a battlefield go back.
spec fn spares(c: ContractState, army: u8, field: u8) -> bool {
    match load_of(slot(c.battlefields.entries, field)) {
        Ok(b) => b.winner is None || b.winner == Some(army),
        Err(_) => false,
    }
}

/// What goes back to a player of the stake with an army on a battlefield.
spec fn back_at(c: ContractState, player: Seq<char>, army: u8, field: u8) -> nat {
    if spares(c, army, field) {
        stake_account(c, player, army, field)
    } else {
        0
    }
}

/// What goes back to all players of what is staked on an army on a battlefield.
spec fn field_back(c: ContractState, army: u8, field: u8) -> nat {
    if spares(c, army, field) {
        field_account(c, army, field)
    } else {
        0
    }
}

/// What goes back to a player.
spec fn back_to(c: ContractState, player: Seq<char>) -> nat {
    sum_below(|a: int| sum_below(|f: int| back_at(c, player, a as u8, f as u8), 256), 256)
}

proof fn lemma_payment(c: ContractState, player: Seq<char>)
    requires
        keyed(c),
        indexed(c),
    ensures
        paid_to(c, player) <= back_to(c, player) + won(c, player),
{
    if payout(c, player) is Ok {
        let stakes = listed_stakes(c, player)->Ok_0;
        law_refund_is_of_what_survives(c, stakes);
        let entries = stakes_of(c.stakes, player).entries;
        let g = spared_of(c);
        lemma_pairs_sum(entries, g, 256, 0);
        let by_army = |a: int| sum_below(|f: int| pair_value(entries, g, (a as u8, f as u8)), 256);
        let back = |a: int| sum_below(|f: int| back_at(c, player, a as u8, f as u8), 256);
        assert forall|a: int| 0 <= a < 256 implies #[trigger] by_army(a) == back(a) by {
            let one = |f: int| pair_value(entries, g, (a as u8, f as u8));
            let two = |f: int| back_at(c, player, a as u8, f as u8);
            assert forall|f: int| 0 <= f < 256 implies #[trigger] one(f) == two(f) by {
                let k = (a as u8, f as u8, player);
                lemma_listed_slot(c, player, a as u8, f as u8);
                assert(load_of(slot(c.stakes.entries, k)) matches Ok(s) ==> s.player == player
                    && s.army == a as u8 && s.battlefield_id == f as u8);
            }
            lemma_below_same(one, two, 256);
        }
        lemma_below_same(by_army, back, 256);
    }
}

/// What goes back to all players, army by army and battlefield by battlefield.
proof fn lemma_all_back(c: ContractState, players: Seq<Seq<char>>)
    requires
        balanced(c, players),
    ensures
        sum_over(players, |p: Seq<char>| back_to(c, p)) == sum_below(
            |a: int| sum_below(|f: int| field_back(c, a as u8, f as u8), 256),
            256,
        ),
{
    let rows = |p: Seq<char>, a: int|
        sum_below(|f: int| back_at(c, p, a as u8, f as u8), 256);
    lemma_exchange_list(players, rows, 256);
    let by_player = |p: Seq<char>| sum_below(|a: int| rows(p, a), 256);
    assert forall|i: int| 0 <= i < players.len() implies by_player(#[trigger] players[i])
        == back_to(c, players[i]) by {
        let p = players[i];
        lemma_below_same(
            |a: int| rows(p, a),
            |a: int| sum_below(|f: int| back_at(c, p, a as u8, f as u8), 256),
            256,
        );
    }
    lemma_over_same(players, by_player, |p: Seq<char>| back_to(c, p));
    let by_army = |a: int| sum_over(players, |p: Seq<char>| rows(p, a));
    let goal = |a: int| sum_below(|f: int| field_back(c, a as u8, f as u8), 256);
    assert forall|a: int| 0 <= a < 256 implies #[trigger] by_army(a) == goal(a) by {
        let h = |p: Seq<char>, f: int| back_at(c, p, a as u8, f as u8);
        lemma_exchange_list(players, h, 256);
        let one = |p: Seq<char>| rows(p, a);
        let two = |p: Seq<char>| sum_below(|f: int| h(p, f), 256);
        assert forall|i: int| 0 <= i < players.len() implies one(#[trigger] players[i]) == two(
            players[i],
        ) by {
            let p = players[i];
            lemma_below_same(
                |f: int| back_at(c, p, a as u8, f as u8),
                |f: int| h(p, f),
                256,
            );
        }
        lemma_over_same(players, one, two);
        let by_field = |f: int| sum_over(players, |p: Seq<char>| h(p, f));
        assert forall|f: int| 0 <= f < 256 implies #[trigger] by_field(f) == field_back(
            c,
            a as u8,
            f as u8,
        ) by {
            assert(field_account(c, a as u8, f as u8) == players_field_sum(
                c,
                players,
                a as u8,
                f as u8,
            ));
            if spares(c, a as u8, f as u8) {
                lemma_over_same(
                    players,
                    |p: Seq<char>| h(p, f),
                    |p: Seq<char>| stake_account(c, p, a as u8, f as u8),
                );
            } else {
                lemma_over_nothing(players, |p: Seq<char>| h(p, f));
            }
        }
        lemma_below_same(by_field, |f: int| field_back(c, a as u8, f as u8), 256);
    }
    lemma_below_same(by_army, goal, 256);
}

/// What a battlefield adds to the prize pool, if it can be read.
spec fn pool_at(c: ContractState, field: u8) -> nat {
    match load_of(slot(c.battlefields.entries, field)) {
        Ok(_) => losses(c, field),
        Err(_) => 0,
    }
}

/// After a tally, what goes back of a battlefield and what it has added to the prize pool is no
/// more than what is staked on it.
proof fn lemma_field_is_covered(c: ContractState, now: Timestamp, f: u8)
    requires
        keyed(c),
        tallies(c, now),
    ensures
        sum_below(|a: int| field_back(after_tally(c, now), a as u8, f), 256) + pool_at(c, f)
            <= field_sum(c, f),
{
    let d = after_tally(c, now);
    law_tally_outcome(c, now);
    law_tally_touches_nothing_else(c, now);
    law_dead_stake_is_the_losers(c, f);
    let back = |a: int| field_back(d, a as u8, f);
    let all = |a: int| field_account(c, a as u8, f);
    let none = |a: int| 0nat;
    lemma_below_nothing(none, 256);
    assert(slot(d.battlefields.entries, f) == slot(d.battlefields.entries, f));
    if load_of(slot(c.battlefields.entries, f)) is Ok {
        match victor(c, f) {
            None => {
                lemma_below_at_most(back, all, 256);
            },
            Some(w) => {
                assert forall|a: int| 0 <= a < 256 implies #[trigger] back(a) == none(a) + (if a
                    == w as int {
                    field_account(c, w, f)
                } else {
                    0
                }) by {}
                lemma_below_raised(none, back, w as int, field_account(c, w, f), 256);
            },
        }
    } else {
        lemma_below_nothing(back, 256);
    }
}

/// After a tally, what goes back to all players and the prize pool are no more than all that is
/// staked.
proof fn lemma_back_and_pool(c: ContractState, players: Seq<Seq<char>>, now: Timestamp)
    requires
        in_order(c, players),
        tallies(c, now),
    ensures
        ({
            let d = after_tally(c, now);
            sum_over(players, |p: Seq<char>| back_to(d, p)) + load_of(d.prize_pool)->Ok_0
                <= all_staked(c)
        }),
{
    let d = after_tally(c, now);
    law_tally_outcome(c, now);
    law_tally_keeps_order(c, players, now);
    lemma_all_back(d, players);
    // What goes back, battlefield by battlefield
    let h = |a: int, f: int| field_back(d, a as u8, f as u8);
    lemma_exchange_ranges(h, 256, 256);
    let rows_back = |a: int| sum_below(|f: int| field_back(d, a as u8, f as u8), 256);
    assert forall|a: int| 0 <= a < 256 implies #[trigger] rows_back(a) == sum_below(
        |f: int| h(a, f),
        256,
    ) by {
        lemma_below_same(
            |f: int| field_back(d, a as u8, f as u8),
            |f: int| h(a, f),
            256,
        );
    }
    lemma_below_same(rows_back, |a: int| sum_below(|f: int| h(a, f), 256), 256);
    let back = |f: int| sum_below(|a: int| h(a, f), 256);
    // The prize pool, battlefield by battlefield
    let entries = c.battlefields.entries;
    let pools = |f: int| pool_at(c, f as u8);
    lemma_over_reverse(rows(entries), lost_on(c));
    lemma_rows_sum(entries, lost_on(c), 256);
    lemma_below_same(|k: int| row_value(entries, lost_on(c), k as u8), pools, 256);
    // All that is staked, battlefield by battlefield
    let g = |a: int, f: int| field_account(c, a as u8, f as u8);
    lemma_exchange_ranges(g, 256, 256);
    let armies = |a: int| army_account(c, a as u8);
    assert forall|a: int| 0 <= a < 256 implies #[trigger] armies(a) == sum_below(
        |f: int| g(a, f),
        256,
    ) by {
        assert(army_account(c, a as u8) == fields_sum(c, a as u8));
        lemma_below_same(
            |f: int| g(a, f),
            |f: int| field_account(c, a as u8, f as u8),
            256,
        );
    }
    lemma_below_same(armies, |a: int| sum_below(|f: int| g(a, f), 256), 256);
    let staked = |f: int| sum_below(|a: int| g(a, f), 256);
    let both = |f: int| back(f) + pools(f);
    assert forall|f: int| 0 <= f < 256 implies #[trigger] both(f) <= staked(f) by {
        lemma_field_is_covered(c, now, f as u8);
        lemma_below_same(
            |a: int| h(a, f),
            |a: int| field_back(d, a as u8, f as u8),
            256,
        );
        lemma_below_same(
            |a: int| g(a, f),
            |a: int| field_account(c, a as u8, f as u8),
            256,
        );
    }
    lemma_below_plus(back, pools, both, 256);
    lemma_below_at_most(both, staked, 256);
    assert(sum_over(players, |p: Seq<char>| back_to(d, p)) == sum_below(rows_back, 256));
    assert(sum_below(rows_back, 256) == sum_below(back, 256));
    assert(load_of(d.prize_pool)->Ok_0 == sum_below(pools, 256));
    assert(all_staked(c) == sum_below(armies, 256));
    assert(sum_below(armies, 256) == sum_below(staked, 256));
}

/// After a tally, all that is paid to the players, back and in prizes, is no more than all that
/// they have staked.
pub proof fn law_payments_are_covered(
    c: ContractState,
    players: Seq<Seq<char>>,
    now: Timestamp,
)
    requires
        in_order(c, players),
        tallies(c, now),
    ensures
        sum_over(players, |p: Seq<char>| paid_to(after_tally(c, now), p)) <= all_staked(c),
{
    let d = after_tally(c, now);
    law_tally_outcome(c, now);
    law_tally_keeps_order(c, players, now);
    lemma_winner_stands(c, players, now);
    law_pool_is_paid_once(d, players);
    lemma_back_and_pool(c, players, now);
    let paid = |p: Seq<char>| paid_to(d, p);
    let back = |p: Seq<char>| back_to(d, p);
    let prizes = |p: Seq<char>| won(d, p);
    let both = |p: Seq<char>| back_to(d, p) + won(d, p);
    assert forall|i: int| 0 <= i < players.len() implies paid(#[trigger] players[i]) <= both(
        players[i],
    ) by {
        lemma_payment(d, players[i]);
    }
    lemma_over_at_most(players, paid, both);
    lemma_over_plus(players, back, prizes, both);
}

/// Whether every payment that is kept is what is due to the player.
pub open spec fn honoured(c: ContractState) -> bool {
    forall|p: Seq<char>|
        load_of(#[trigger] slot(c.withdrawals, p)) matches Ok(amount) ==> payout(c, p) == Ok::<
            u128,
            Failure,
        >(amount)
}

/// Where every payment that is kept is what is due to the player, that still holds after a
/// withdrawal.
pub proof fn law_payments_are_due(c: ContractState, player: Seq<char>)
    requires
        honoured(c),
    ensures
        honoured(after_withdrawal(c, player)),
{
    let d = after_withdrawal(c, player);
    assert forall|p: Seq<char>|
        load_of(#[trigger] slot(d.withdrawals, p)) is Ok implies payout(d, p) == Ok::<
        u128,
        Failure,
    >(load_of(slot(d.withdrawals, p))->Ok_0) by {
        if let Ok(stakes) = listed_stakes(c, p) {
            lemma_same_refund(c, d, stakes);
        }
        if p != player || !withdraws(c, player) {
            assert(slot(d.withdrawals, p) == slot(c.withdrawals, p));
        }
    }
}

/// A tally that follows a tally changes nothing of what is due to a player.
pub proof fn law_later_tally_changes_no_payment(
    c: ContractState,
    players: Seq<Seq<char>>,
    n: nat,
    now: Timestamp,
    later: Timestamp,
    player: Seq<char>,
)
    requires
        in_order(c, players),
        scored(c, n),
        tallies(c, now),
        tallies(after_tally(c, now), later),
    ensures
        payout(after_tally(after_tally(c, now), later), player) == payout(
            after_tally(c, now),
            player,
        ),
{
    let d = after_tally(c, now);
    let e = after_tally(d, later);
    law_later_tally_decides_the_same(c, players, n, now, later);
    law_tally_touches_nothing_else(d, later);
    if let Ok(stakes) = listed_stakes(d, player) {
        lemma_same_refund(d, e, stakes);
    }
}

/// What was paid to a player, if anything.
pub open spec fn was_paid(c: ContractState, player: Seq<char>) -> nat {
    match load_of(slot(c.withdrawals, player)) {
        Ok(amount) => amount as nat,
        Err(_) => 0,
    }
}

/// Whatever withdrawals there have been since a tally, all that was paid out is no more than all
/// that was staked.
pub proof fn law_paid_out_is_covered(
    c: ContractState,
    players: Seq<Seq<char>>,
    now: Timestamp,
    d: ContractState,
)
    requires
        in_order(c, players),
        tallies(c, now),
        d == (ContractState { withdrawals: d.withdrawals, ..after_tally(c, now) }),
        honoured(d),
    ensures
        sum_over(players, |p: Seq<char>| was_paid(d, p)) <= all_staked(c),
{
    let t = after_tally(c, now);
    law_payments_are_covered(c, players, now);
    let due = |p: Seq<char>| paid_to(t, p);
    let paid = |p: Seq<char>| was_paid(d, p);
    assert forall|i: int| 0 <= i < players.len() implies paid(#[trigger] players[i]) <= due(
        players[i],
    ) by {
        let p = players[i];
        if let Ok(stakes) = listed_stakes(d, p) {
            lemma_same_refund(t, d, stakes);
        }
        assert(payout(d, p) == payout(t, p));
        assert(load_of(slot(d.withdrawals, p)) matches Ok(amount) ==> payout(d, p) == Ok::<
            u128,
            Failure,
        >(amount));
    }
    lemma_over_at_most(players, paid, due);
}

/// After a tally, every player whose battlefields can be read and who has not been paid can
/// withdraw, where the books are in order: the stakes that survive, and the share of the prize
/// pool that goes with what the player has staked with the winning army.
pub proof fn law_withdrawal_follows_tally(
    c: ContractState,
    players: Seq<Seq<char>>,
    now: Timestamp,
    player: Seq<char>,
)
    requires
        in_order(c, players),
        tallies(c, now),
        slot(c.withdrawals, player) is None,
        listed_stakes(c, player) is Ok,
        listed_stakes(c, player)->Ok_0.len() > 0,
        forall|i: int|
            0 <= i < listed_stakes(c, player)->Ok_0.len() ==> load_of(
                slot(
                    c.battlefields.entries,
                    (#[trigger] listed_stakes(c, player)->Ok_0[i]).battlefield_id,
                ),
            ) is Ok,
        forall|a: u8| #[trigger]
            slot(c.player_totals_by_army, (player, a)) != Some(Slot::<u128>::Unreadable),
        staked_in(listed_stakes(c, player)->Ok_0) + pool_of(c, tally_order(c)) <= u128::MAX,
    ensures
        ({
            let d = after_tally(c, now);
            let stakes = listed_stakes(c, player)->Ok_0;
            let winner = load_of(d.winner)->Ok_0;
            let part = player_account(c, player, winner.id);
            let share = if part == 0 {
                0
            } else {
                pool_of(c, tally_order(c)) * part / winner.total_staked as nat
            };
            &&& withdraws(d, player)
            &&& payout(d, player) is Ok
            &&& payout(d, player)->Ok_0 == spared_in(d, stakes) + share
        }),
{
    let d = after_tally(c, now);
    let stakes = listed_stakes(c, player)->Ok_0;
    law_tally_outcome(c, now);
    law_tally_touches_nothing_else(c, now);
    law_tally_keeps_order(c, players, now);
    lemma_winner_stands(c, players, now);
    law_refund_is_of_what_survives(d, stakes);
    assert(listed_stakes(d, player) == listed_stakes(c, player));
    assert forall|i: int| 0 <= i < stakes.len() implies load_of(
        slot(d.battlefields.entries, (#[trigger] stakes[i]).battlefield_id),
    ) is Ok by {
        let k = stakes[i].battlefield_id;
        assert(load_of(slot(c.battlefields.entries, k)) is Ok);
        assert(slot(d.battlefields.entries, k) is Some);
    }
    assert(refund(d, stakes) is Ok);
    let winner = load_of(d.winner)->Ok_0;
    let pool = load_of(d.prize_pool)->Ok_0;
    law_player_is_part_of_army(d, players, player, winner.id);
    assert(slot(c.player_totals_by_army, (player, winner.id)) != Some(Slot::<u128>::Unreadable));
    if let Ok(part) = load_of(slot(d.player_totals_by_army, (player, winner.id))) {
        assert(part > 0);
        law_share_is_in_proportion(pool, part, winner.total_staked);
    }
}

} // verus!
