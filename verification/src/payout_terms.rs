//! What withdrawing and asking about players come to, said of the entries in storage themselves.
use vstd::prelude::*;

use crate::accounts::{in_order, indexed, keyed};
use crate::error::{Failure, OverflowOperation, StorageFailure};
use crate::ledger::{
    lemma_pairs_contain, load_of, pair_at, pair_rows, pair_rows_below, place_of, slot, stakes_of,
    values, ContractState, Slot,
};
use crate::msg::{AttributeView, BankMsgView};
use crate::payout_laws::{
    after_withdrawal, amount_of, law_withdrawal_follows_tally, lemma_listed_slot, lemma_pairs_sum,
    lemma_stakes_total, pair_value, spared_in, spared_of, staked_in, withdraws,
};
use crate::rules::{
    closed_game, listed_stakes, player_report, refund, stakes_total, withdraw_effect,
};
use crate::state::{CoinView, StakeInfoView, Timestamp};
use crate::sums::{lemma_below_same, sum_below};
use crate::tally_laws::{after_tally, law_tally_keeps_order, tallies};
use crate::tally_terms::{
    is_ahead, is_won, law_what_a_tally_stores, lemma_whole_pool, whole_pool,
};
use crate::terms::{at, held, junk_at, missing, too_large, total_at, unreadable};

verus! {

// ---------------------------------------------------------------------------
// Listing the stakes of a player
// ---------------------------------------------------------------------------

/// Whether a stake comes before another: by army, and with one army by battlefield.
pub open spec fn before(one: StakeInfoView, two: StakeInfoView) -> bool {
    one.army < two.army || one.army == two.army && one.battlefield_id < two.battlefield_id
}

proof fn lemma_pairs_ascend<V>(entries: Map<(u8, u8), Slot<V>>, n: nat)
    requires
        n <= 65536,
    ensures
        forall|i: int|
            0 <= i < pair_rows_below(entries, n).len() ==> place_of(
                (#[trigger] pair_rows_below(entries, n)[i]).0,
            ) < n,
        forall|i: int, j: int|
            0 <= i < j < pair_rows_below(entries, n).len() ==> place_of(
                (#[trigger] pair_rows_below(entries, n)[i]).0,
            ) < place_of((#[trigger] pair_rows_below(entries, n)[j]).0),
    decreases n,
{
    if n > 0 {
        lemma_pairs_ascend(entries, (n - 1) as nat);
        let front = pair_rows_below(entries, (n - 1) as nat);
        let all = pair_rows_below(entries, n);
        assert(place_of(pair_at(n - 1)) == n - 1);
        assert forall|i: int| 0 <= i < front.len() implies #[trigger] all[i] == front[i] by {}
        assert forall|i: int| 0 <= i < all.len() implies place_of((#[trigger] all[i]).0) < n by {
            if i < front.len() {
                assert(all[i] == front[i]);
            }
        }
        assert forall|i: int, j: int| 0 <= i < j < all.len() implies place_of(
            (#[trigger] all[i]).0,
        ) < place_of((#[trigger] all[j]).0) by {
            assert(all[i] == front[i]);
            if j < front.len() {
                assert(all[j] == front[j]);
            }
        }
    }
}

/// The stakes of a player are listed, one element for each entry under an army, a battlefield and
/// the player, exactly where every such entry can be read, however many there are. They are listed
/// by army and battlefield.
pub proof fn law_which_stakes_are_listed(c: ContractState, player: Seq<char>)
    requires
        keyed(c),
        indexed(c),
    ensures
        listed_stakes(c, player) is Ok <==> forall|a: u8, f: u8|
            !#[trigger] junk_at(c.stakes.entries, (a, f, player)),
        listed_stakes(c, player) is Err ==> listed_stakes(c, player)->Err_0 == unreadable(),
        listed_stakes(c, player) is Ok ==> ({
            let list = listed_stakes(c, player)->Ok_0;
            &&& forall|i: int|
                0 <= i < list.len() ==> at(
                    c.stakes.entries,
                    ((#[trigger] list[i]).army, list[i].battlefield_id, player),
                ) == Some(list[i])
            &&& forall|a: u8, f: u8| #[trigger]
                c.stakes.entries.contains_key((a, f, player)) ==> exists|i: int|
                    0 <= i < list.len() && (#[trigger] list[i]).army == a
                        && list[i].battlefield_id == f
            &&& forall|i: int, j: int|
                0 <= i < j < list.len() ==> before(#[trigger] list[i], #[trigger] list[j])
        }),
{
    let t = stakes_of(c.stakes, player);
    let stored = pair_rows(t.entries);
    assert forall|a: u8, f: u8| #[trigger]
        junk_at(c.stakes.entries, (a, f, player)) <==> t.entries.contains_key((a, f))
            && t.entries[(a, f)] == Slot::<StakeInfoView>::Unreadable by {
        lemma_listed_slot(c, player, a, f);
    }
    if listed_stakes(c, player) is Ok {
        let list = listed_stakes(c, player)->Ok_0;
        assert(list == values(stored));
        lemma_pairs_ascend(t.entries, 65536);
        assert forall|i: int| 0 <= i < list.len() implies at(
            c.stakes.entries,
            ((#[trigger] list[i]).army, list[i].battlefield_id, player),
        ) == Some(list[i]) && stored[i].0 == (list[i].army, list[i].battlefield_id) by {
            let row = stored[i];
            assert(stored.contains(row));
            lemma_pairs_contain(t.entries, 65536, row);
            lemma_listed_slot(c, player, row.0.0, row.0.1);
            assert(load_of(slot(c.stakes.entries, (row.0.0, row.0.1, player))) is Ok);
        }
        assert forall|a: u8, f: u8| #[trigger]
            c.stakes.entries.contains_key((a, f, player)) implies exists|i: int|
            0 <= i < list.len() && (#[trigger] list[i]).army == a && list[i].battlefield_id
                == f by {
            lemma_listed_slot(c, player, a, f);
            assert(!junk_at(c.stakes.entries, (a, f, player)));
            assert(t.entries.contains_key((a, f)));
            let row = ((a, f), at(c.stakes.entries, (a, f, player))->Some_0);
            assert(place_of(row.0) < 65536);
            lemma_pairs_contain(t.entries, 65536, row);
            let i = choose|i: int| 0 <= i < stored.len() && stored[i] == row;
            assert(list[i].army == a);
        }
        assert forall|i: int, j: int| 0 <= i < j < list.len() implies before(
            #[trigger] list[i],
            #[trigger] list[j],
        ) by {
            assert(place_of(stored[i].0) < place_of(stored[j].0));
            assert(stored[i].0 == (list[i].army, list[i].battlefield_id));
            assert(stored[j].0 == (list[j].army, list[j].battlefield_id));
        }
    } else {
        let k = choose|k: (u8, u8)| #[trigger]
            t.entries.contains_key(k) && !(t.entries[k] is Readable);
        assert(junk_at(c.stakes.entries, (k.0, k.1, player)));
    }
    if forall|a: u8, f: u8| !#[trigger] junk_at(c.stakes.entries, (a, f, player)) {
        assert forall|k: (u8, u8)| #[trigger]
            t.entries.contains_key(k) implies t.entries[k] is Readable by {
            assert(!junk_at(c.stakes.entries, (k.0, k.1, player)));
        }
    }
}

// ---------------------------------------------------------------------------
// Sums over the stakes of a player
// ---------------------------------------------------------------------------

/// What a player has staked with an army on a battlefield.
pub open spec fn staked_at(c: ContractState, player: Seq<char>, army: u8, field: u8) -> nat {
    match at(c.stakes.entries, (army, field, player)) {
        Some(stake) => stake.amount as nat,
        None => 0,
    }
}

/// What a player has staked with all armies on all battlefields.
pub open spec fn whole_stake(c: ContractState, player: Seq<char>) -> nat {
    sum_below(|a: int| sum_below(|f: int| staked_at(c, player, a as u8, f as u8), 256), 256)
}

/// What goes back to a player of what was staked with an army on a battlefield: all of it if the
/// army has won the battlefield, or no army has, and otherwise nothing.
pub open spec fn returned_at(c: ContractState, player: Seq<char>, army: u8, field: u8) -> nat {
    match at(c.battlefields.entries, field) {
        Some(b) => if b.winner is None || b.winner == Some(army) {
            staked_at(c, player, army, field)
        } else {
            0
        },
        None => 0,
    }
}

/// What goes back to a player.
pub open spec fn whole_return(c: ContractState, player: Seq<char>) -> nat {
    sum_below(|a: int| sum_below(|f: int| returned_at(c, player, a as u8, f as u8), 256), 256)
}

proof fn lemma_listed_sums(c: ContractState, player: Seq<char>)
    requires
        keyed(c),
        indexed(c),
        listed_stakes(c, player) is Ok,
    ensures
        staked_in(listed_stakes(c, player)->Ok_0) == whole_stake(c, player),
        spared_in(c, listed_stakes(c, player)->Ok_0) == whole_return(c, player),
{
    let entries = stakes_of(c.stakes, player).entries;
    let g = amount_of();
    let h = spared_of(c);
    lemma_pairs_sum(entries, g, 256, 0);
    lemma_pairs_sum(entries, h, 256, 0);
    let g1 = |a: int| sum_below(|f: int| pair_value(entries, g, (a as u8, f as u8)), 256);
    let h1 = |a: int| sum_below(|f: int| pair_value(entries, h, (a as u8, f as u8)), 256);
    let g2 = |a: int| sum_below(|f: int| staked_at(c, player, a as u8, f as u8), 256);
    let h2 = |a: int| sum_below(|f: int| returned_at(c, player, a as u8, f as u8), 256);
    assert forall|a: int| 0 <= a < 256 implies #[trigger] g1(a) == g2(a) by {
        let one = |f: int| pair_value(entries, g, (a as u8, f as u8));
        let two = |f: int| staked_at(c, player, a as u8, f as u8);
        assert forall|f: int| 0 <= f < 256 implies #[trigger] one(f) == two(f) by {
            lemma_listed_slot(c, player, a as u8, f as u8);
        }
        lemma_below_same(one, two, 256);
    }
    assert forall|a: int| 0 <= a < 256 implies #[trigger] h1(a) == h2(a) by {
        let one = |f: int| pair_value(entries, h, (a as u8, f as u8));
        let two = |f: int| returned_at(c, player, a as u8, f as u8);
        assert forall|f: int| 0 <= f < 256 implies #[trigger] one(f) == two(f) by {
            lemma_listed_slot(c, player, a as u8, f as u8);
            assert(slot(c.stakes.entries, (a as u8, f as u8, player)) == slot(
                c.stakes.entries,
                (a as u8, f as u8, player),
            ));
        }
        lemma_below_same(one, two, 256);
    }
    lemma_below_same(g1, g2, 256);
    lemma_below_same(h1, h2, 256);
}

// ---------------------------------------------------------------------------
// Asking about a player
// ---------------------------------------------------------------------------

/// What a player has staked is told exactly where every stake of the player can be read and they
/// add up to what fits: all that the player has staked, and the battlefield of each stake that is
/// listed.
pub proof fn law_what_is_told_of_a_player(c: ContractState, player: Seq<char>)
    requires
        keyed(c),
        indexed(c),
    ensures
        player_report(c, player) is Ok <==> (forall|a: u8, f: u8|
            !#[trigger] junk_at(c.stakes.entries, (a, f, player))) && whole_stake(c, player)
            <= u128::MAX,
        player_report(c, player) matches Ok(report) ==> {
            let list = listed_stakes(c, player)->Ok_0;
            &&& report.total_staked == whole_stake(c, player)
            &&& report.battlefields.len() == list.len()
            &&& forall|i: int|
                0 <= i < list.len() ==> #[trigger] report.battlefields[i]
                    == list[i].battlefield_id
        },
        player_report(c, player) matches Err(e) ==> {
            ||| e == unreadable() && exists|a: u8, f: u8| #[trigger]
                junk_at(c.stakes.entries, (a, f, player))
            ||| e is Overflow && e->operation == OverflowOperation::Add && whole_stake(c, player)
                > u128::MAX
        },
{
    law_which_stakes_are_listed(c, player);
    if let Ok(stakes) = listed_stakes(c, player) {
        lemma_stakes_total(stakes);
        lemma_listed_sums(c, player);
    }
}

// ---------------------------------------------------------------------------
// When a withdrawal is made
// ---------------------------------------------------------------------------

/// The game is over for a withdrawal exactly where its configuration can be read and its phase is
/// stored as closed.
pub proof fn law_when_the_game_is_over(c: ContractState)
    ensures
        closed_game(c) is Ok <==> held(c.config) is Some && held(c.phase) == Some(false),
        closed_game(c) matches Ok(config) ==> held(c.config) == Some(config),
        closed_game(c) matches Err(e) ==> e == (if held(c.config) is None {
            missing(c.config)
        } else if held(c.phase) is None {
            missing(c.phase)
        } else {
            Failure::NotOver
        }),
{
}

/// Whether every battlefield on which a player has a stake can be read.
pub open spec fn fields_can_be_read(c: ContractState, player: Seq<char>) -> bool {
    forall|a: u8, f: u8|
        #![trigger c.stakes.entries.contains_key((a, f, player))]
        c.stakes.entries.contains_key((a, f, player)) ==> at(c.battlefields.entries, f) is Some
}

/// A refund of a list is made exactly where every battlefield can be read and the sum fits.
proof fn lemma_refund_when(c: ContractState, stakes: Seq<StakeInfoView>)
    ensures
        match refund(c, stakes) {
            Ok(amount) => {
                &&& amount == spared_in(c, stakes)
                &&& forall|i: int|
                    0 <= i < stakes.len() ==> at(
                        c.battlefields.entries,
                        (#[trigger] stakes[i]).battlefield_id,
                    ) is Some
            },
            Err(e) => {
                ||| e is Overflow && e->operation == OverflowOperation::Add && spared_in(c, stakes)
                    > u128::MAX
                ||| exists|i: int|
                    0 <= i < stakes.len() && at(
                        c.battlefields.entries,
                        (#[trigger] stakes[i]).battlefield_id,
                    ) is None && e == missing(
                        slot(c.battlefields.entries, stakes[i].battlefield_id),
                    )
            },
        },
    decreases stakes.len(),
{
    if stakes.len() > 0 {
        let front = stakes.drop_last();
        lemma_refund_when(c, front);
        assert(stakes[stakes.len() - 1] == stakes.last());
        assert forall|i: int| 0 <= i < front.len() implies #[trigger] front[i] == stakes[i] by {}
        if let Err(e) = refund(c, front) {
            if !(e is Overflow) {
                let i = choose|i: int|
                    0 <= i < front.len() && at(
                        c.battlefields.entries,
                        (#[trigger] front[i]).battlefield_id,
                    ) is None && e == missing(
                        slot(c.battlefields.entries, front[i].battlefield_id),
                    );
                assert(front[i] == stakes[i]);
            }
        }
        if refund(c, stakes) is Ok {
            assert forall|i: int| 0 <= i < stakes.len() implies at(
                c.battlefields.entries,
                (#[trigger] stakes[i]).battlefield_id,
            ) is Some by {
                if i < front.len() {
                    assert(front[i] == stakes[i]);
                }
            }
        }
    }
}

/// The refund of a player is made exactly where every battlefield of the player's stakes can be
/// read and what goes back fits.
proof fn lemma_player_refund(c: ContractState, player: Seq<char>)
    requires
        keyed(c),
        indexed(c),
        listed_stakes(c, player) is Ok,
    ensures
        ({
            let list = listed_stakes(c, player)->Ok_0;
            &&& refund(c, list) is Ok <==> fields_can_be_read(c, player) && whole_return(c, player)
                <= u128::MAX
            &&& refund(c, list) is Ok ==> refund(c, list)->Ok_0 == whole_return(c, player)
            &&& refund(c, list) matches Err(e) ==> {
                ||| e is Overflow && e->operation == OverflowOperation::Add && whole_return(
                    c,
                    player,
                ) > u128::MAX
                ||| exists|a: u8, f: u8|
                    #![trigger c.stakes.entries.contains_key((a, f, player))]
                    c.stakes.entries.contains_key((a, f, player)) && at(c.battlefields.entries, f)
                        is None && e == missing(slot(c.battlefields.entries, f))
            }
            &&& list.len() > 0 <==> exists|a: u8, f: u8| #[trigger]
                c.stakes.entries.contains_key((a, f, player))
        }),
{
    let list = listed_stakes(c, player)->Ok_0;
    law_which_stakes_are_listed(c, player);
    lemma_listed_sums(c, player);
    lemma_refund_when(c, list);
    assert forall|i: int| 0 <= i < list.len() implies c.stakes.entries.contains_key(
        ((#[trigger] list[i]).army, list[i].battlefield_id, player),
    ) by {}
    if list.len() > 0 {
        assert(c.stakes.entries.contains_key((list[0].army, list[0].battlefield_id, player)));
    }
    match refund(c, list) {
        Ok(_) => {
            assert forall|a: u8, f: u8|
                #![trigger c.stakes.entries.contains_key((a, f, player))]
                c.stakes.entries.contains_key((a, f, player)) implies at(c.battlefields.entries, f)
                is Some by {
                let i = choose|i: int|
                    0 <= i < list.len() && (#[trigger] list[i]).army == a
                        && list[i].battlefield_id == f;
                assert(at(c.battlefields.entries, list[i].battlefield_id) is Some);
            }
        },
        Err(e) => {
            if !(e is Overflow) {
                let i = choose|i: int|
                    0 <= i < list.len() && at(
                        c.battlefields.entries,
                        (#[trigger] list[i]).battlefield_id,
                    ) is None && e == missing(slot(c.battlefields.entries, list[i].battlefield_id));
                assert(c.stakes.entries.contains_key(
                    (list[i].army, list[i].battlefield_id, player),
                ));
            }
        },
    }
}

/// Whether the refund of a list stops at its element `i` with the failure `e`: what goes back of
/// those before it fits, and either its battlefield cannot be read, or it goes back and does not
/// fit.
pub open spec fn refund_stops_at(
    c: ContractState,
    list: Seq<StakeInfoView>,
    i: int,
    e: Failure,
) -> bool {
    let sum = spared_in(c, list.take(i));
    let field = at(c.battlefields.entries, list[i].battlefield_id);
    &&& 0 <= i < list.len()
    &&& forall|j: int|
        0 <= j < i ==> at(c.battlefields.entries, (#[trigger] list[j]).battlefield_id) is Some
    &&& sum <= u128::MAX
    &&& if field is None {
        e == missing(slot(c.battlefields.entries, list[i].battlefield_id))
    } else {
        &&& field->Some_0.winner is None || field->Some_0.winner == Some(list[i].army)
        &&& sum + list[i].amount > u128::MAX
        &&& e == too_large(sum as u128, list[i].amount)
    }
}

/// A refund goes through the list from its first element on, up to the one at which it stops.
pub proof fn law_where_a_refund_stops(c: ContractState, list: Seq<StakeInfoView>)
    ensures
        refund(c, list) matches Err(e) ==> exists|i: int| #[trigger] refund_stops_at(c, list, i, e),
    decreases list.len(),
{
    if list.len() > 0 {
        let front = list.drop_last();
        let n = list.len() - 1;
        law_where_a_refund_stops(c, front);
        lemma_refund_when(c, front);
        assert(list[n] == list.last());
        if let Err(e) = refund(c, list) {
            if refund(c, front) is Err {
                let i = choose|i: int| #[trigger] refund_stops_at(c, front, i, e);
                assert(front.take(i) =~= list.take(i));
                assert forall|j: int| 0 <= j <= i implies #[trigger] list[j] == front[j] by {}
                assert(refund_stops_at(c, list, i, e));
            } else {
                assert(list.take(n) =~= front);
                assert forall|j: int| 0 <= j < n implies #[trigger] list[j] == front[j] by {}
                assert(refund_stops_at(c, list, n, e));
            }
        }
    }
}

/// The stakes of a list are added up from the first one on, up to the one that does not fit.
pub proof fn law_where_a_total_stops(list: Seq<StakeInfoView>)
    ensures
        stakes_total(list) matches Err(e) ==> exists|i: int| #[trigger] total_stops_at(list, i, e),
    decreases list.len(),
{
    if list.len() > 0 {
        let front = list.drop_last();
        let n = list.len() - 1;
        law_where_a_total_stops(front);
        lemma_stakes_total(front);
        assert(list[n] == list.last());
        if let Err(e) = stakes_total(list) {
            if stakes_total(front) is Err {
                let i = choose|i: int| #[trigger] total_stops_at(front, i, e);
                assert(front.take(i) =~= list.take(i));
                assert(total_stops_at(list, i, e));
            } else {
                assert(list.take(n) =~= front);
                assert(total_stops_at(list, n, e));
            }
        }
    }
}

/// Whether element `i` of a list is the first that does not fit into what the stakes come to, and
/// the failure tells so.
pub open spec fn total_stops_at(list: Seq<StakeInfoView>, i: int, e: Failure) -> bool {
    let sum = staked_in(list.take(i));
    &&& 0 <= i < list.len()
    &&& sum <= u128::MAX
    &&& sum + list[i].amount > u128::MAX
    &&& e == too_large(sum as u128, list[i].amount)
}

/// What a player gets of the prize pool: the part of it that the player's total is of all that is
/// staked on the winner, rounded down.
pub open spec fn share(c: ContractState, player: Seq<char>) -> int {
    let winner = held(c.winner)->Some_0;
    match at(c.player_totals_by_army, (player, winner.id)) {
        Some(part) => held(c.prize_pool)->Some_0 * part / winner.total_staked as int,
        None => 0,
    }
}

/// A withdrawal is made exactly where the game is closed, nothing is kept of an earlier one, all
/// stakes of the player and their battlefields can be read, a winner and a prize pool are stored,
/// the player has a total with the winner of which the share can be taken, or none but some
/// stake, and the payment fits.
pub proof fn law_when_a_withdrawal_is_made(c: ContractState, player: Seq<char>)
    requires
        keyed(c),
        indexed(c),
    ensures
        withdraws(c, player) <==> ({
            let winner = held(c.winner)->Some_0;
            let key = (player, winner.id);
            &&& held(c.config) is Some
            &&& held(c.phase) == Some(false)
            &&& !c.withdrawals.contains_key(player)
            &&& forall|a: u8, f: u8| !#[trigger] junk_at(c.stakes.entries, (a, f, player))
            &&& forall|a: u8, f: u8|
                #![trigger c.stakes.entries.contains_key((a, f, player))]
                c.stakes.entries.contains_key((a, f, player)) ==> at(c.battlefields.entries, f)
                    is Some
            &&& held(c.winner) is Some
            &&& held(c.prize_pool) is Some
            &&& !junk_at(c.player_totals_by_army, key)
            &&& c.player_totals_by_army.contains_key(key) ==> winner.total_staked > 0
            &&& !c.player_totals_by_army.contains_key(key) ==> exists|a: u8, f: u8| #[trigger]
                c.stakes.entries.contains_key((a, f, player))
            &&& share(c, player) <= u128::MAX
            &&& whole_return(c, player) + share(c, player) <= u128::MAX
        }),
{
    law_which_stakes_are_listed(c, player);
    lemma_share(c, player);
    if listed_stakes(c, player) is Ok {
        lemma_player_refund(c, player);
    }
}

/// A share is never less than nothing.
proof fn lemma_share(c: ContractState, player: Seq<char>)
    ensures
        held(c.winner)->Some_0.total_staked > 0 ==> share(c, player) >= 0,
{
    let winner = held(c.winner)->Some_0;
    let pool = held(c.prize_pool)->Some_0;
    if let Some(part) = at(c.player_totals_by_army, (player, winner.id)) {
        let total = winner.total_staked;
        if total > 0 {
            assert(pool * part / total as int >= 0) by (nonlinear_arith)
                requires
                    total > 0,
                    pool >= 0,
                    part >= 0,
            ;
        }
    }
}

/// A withdrawal keeps what is paid, and changes nothing else. It is of the stakes that go back and
/// the share of the prize pool. The reply tells the action, and asks the bank to send one coin of
/// that amount in the game's denomination to the player.
pub proof fn law_what_a_withdrawal_pays(c: ContractState, player: Seq<char>)
    requires
        keyed(c),
        indexed(c),
        withdraws(c, player),
    ensures
        ({
            let d = after_withdrawal(c, player);
            let reply = withdraw_effect(c, player).1->Ok_0;
            let amount = (whole_return(c, player) + share(c, player)) as u128;
            &&& 0 <= whole_return(c, player) + share(c, player) <= u128::MAX
            &&& d == (ContractState {
                withdrawals: c.withdrawals.insert(player, Slot::Readable(amount)),
                ..c
            })
            &&& reply.attributes =~= seq![
                AttributeView { key: "action"@, value: "withdraw"@ },
            ]
            &&& reply.messages =~= seq![
                BankMsgView::Send {
                    to_address: player,
                    amount: seq![CoinView { denom: held(c.config)->Some_0.denom, amount }],
                },
            ]
        }),
{
    law_when_a_withdrawal_is_made(c, player);
    law_which_stakes_are_listed(c, player);
    lemma_share(c, player);
    lemma_player_refund(c, player);
}

/// Why a withdrawal is refused, and that a refused one changes nothing. The configuration and the
/// phase come first, then an earlier withdrawal, then the stakes, their battlefields, the winner,
/// the prize pool, the player's total with the winner, and the payment.
pub proof fn law_why_a_withdrawal_is_refused(c: ContractState, player: Seq<char>)
    requires
        keyed(c),
        indexed(c),
        !withdraws(c, player),
    ensures
        after_withdrawal(c, player) == c,
        ({
            let e = withdraw_effect(c, player).1->Err_0;
            let winner = held(c.winner)->Some_0;
            let pool = held(c.prize_pool)->Some_0;
            let key = (player, winner.id);
            let part = at(c.player_totals_by_army, key)->Some_0;
            if held(c.config) is None {
                e == missing(c.config)
            } else if held(c.phase) is None {
                e == missing(c.phase)
            } else if held(c.phase) == Some(true) {
                e == Failure::NotOver
            } else if junk_at(c.withdrawals, player) {
                e == unreadable()
            } else if c.withdrawals.contains_key(player) {
                e == Failure::AlreadyWithdrawn
            } else if exists|a: u8, f: u8| #[trigger]
                junk_at(c.stakes.entries, (a, f, player)) {
                e == unreadable()
            } else if !fields_can_be_read(c, player) || whole_return(c, player) > u128::MAX {
                ||| e is Overflow && e->operation == OverflowOperation::Add && whole_return(
                    c,
                    player,
                ) > u128::MAX
                ||| exists|a: u8, f: u8|
                    #![trigger c.stakes.entries.contains_key((a, f, player))]
                    c.stakes.entries.contains_key((a, f, player)) && at(c.battlefields.entries, f)
                        is None && e == missing(slot(c.battlefields.entries, f))
            } else if held(c.winner) is None {
                e == missing(c.winner)
            } else if held(c.prize_pool) is None {
                e == missing(c.prize_pool)
            } else if junk_at(c.player_totals_by_army, key) {
                e == unreadable()
            } else if !c.player_totals_by_army.contains_key(key) {
                e == Failure::Std(StorageFailure::NotFound) && forall|a: u8, f: u8|
                    !#[trigger] c.stakes.entries.contains_key((a, f, player))
            } else if winner.total_staked == 0 {
                e == Failure::DivideByZero { operand: part }
            } else if share(c, player) > u128::MAX {
                e == Failure::Overflow {
                    operation: OverflowOperation::Mul,
                    left: pool,
                    right: part,
                }
            } else {
                e == too_large(whole_return(c, player) as u128, share(c, player) as u128)
            }
        }),
{
    law_when_a_withdrawal_is_made(c, player);
    law_which_stakes_are_listed(c, player);
    lemma_share(c, player);
    if listed_stakes(c, player) is Ok {
        lemma_player_refund(c, player);
    }
}

// ---------------------------------------------------------------------------
// Withdrawing after a tally
// ---------------------------------------------------------------------------

/// What goes back after a tally of what was staked with an army on a battlefield: all of it if the
/// army is ahead there, or none is, and otherwise nothing.
pub open spec fn kept_at(c: ContractState, player: Seq<char>, army: u8, field: u8) -> nat {
    if is_ahead(c, army, field) || !is_won(c, field) {
        staked_at(c, player, army, field)
    } else {
        0
    }
}

/// What goes back to a player after a tally is what was staked with the armies that are ahead, and
/// on the battlefields on which none is.
pub proof fn law_what_goes_back_after_a_tally(c: ContractState, now: Timestamp, player: Seq<char>)
    requires
        keyed(c),
        tallies(c, now),
        fields_can_be_read(c, player),
    ensures
        whole_return(after_tally(c, now), player) == sum_below(
            |a: int| sum_below(|f: int| kept_at(c, player, a as u8, f as u8), 256),
            256,
        ),
{
    let d = after_tally(c, now);
    law_what_a_tally_stores(c, now);
    let one = |a: int| sum_below(|f: int| returned_at(d, player, a as u8, f as u8), 256);
    let two = |a: int| sum_below(|f: int| kept_at(c, player, a as u8, f as u8), 256);
    assert forall|a: int| 0 <= a < 256 implies #[trigger] one(a) == two(a) by {
        let o = |f: int| returned_at(d, player, a as u8, f as u8);
        let t = |f: int| kept_at(c, player, a as u8, f as u8);
        assert forall|f: int| 0 <= f < 256 implies #[trigger] o(f) == t(f) by {
            let k = f as u8;
            if c.stakes.entries.contains_key((a as u8, k, player)) {
                assert(at(c.battlefields.entries, k) is Some);
                assert(at(d.battlefields.entries, k) is Some);
                let b = at(d.battlefields.entries, k)->Some_0;
                if is_ahead(c, a as u8, k) {
                    assert(is_won(c, k));
                    lemma_one_is_ahead(c, a as u8, b.winner->Some_0, k);
                }
            }
        }
        lemma_below_same(o, t, 256);
    }
    lemma_below_same(one, two, 256);
}

/// No two armies are ahead on one battlefield.
proof fn lemma_one_is_ahead(c: ContractState, one: u8, two: u8, field: u8)
    requires
        is_ahead(c, one, field),
        is_ahead(c, two, field),
    ensures
        one == two,
{
    let totals = c.army_totals_by_battlefield.entries;
    if one != two {
        assert(total_at(totals, (two, field)) < total_at(totals, (one, field)));
        assert(total_at(totals, (one, field)) < total_at(totals, (two, field)));
    }
}

/// After a tally in a game in order, every player who has a stake withdraws, once, where the
/// player's entries and their battlefields can be read: however many stakes there are, and
/// whichever armies and battlefields they are with.
pub proof fn law_every_staker_withdraws_after_a_tally(
    c: ContractState,
    players: Seq<Seq<char>>,
    now: Timestamp,
    player: Seq<char>,
)
    requires
        in_order(c, players),
        tallies(c, now),
        !c.withdrawals.contains_key(player),
        exists|a: u8, f: u8| #[trigger] c.stakes.entries.contains_key((a, f, player)),
        forall|a: u8, f: u8| !#[trigger] junk_at(c.stakes.entries, (a, f, player)),
        forall|a: u8, f: u8|
            #![trigger c.stakes.entries.contains_key((a, f, player))]
            c.stakes.entries.contains_key((a, f, player)) ==> at(c.battlefields.entries, f)
                is Some,
        forall|a: u8| !#[trigger] junk_at(c.player_totals_by_army, (player, a)),
        whole_stake(c, player) + whole_pool(c) <= u128::MAX,
    ensures
        ({
            let d = after_tally(c, now);
            let kept = sum_below(
                |a: int| sum_below(|f: int| kept_at(c, player, a as u8, f as u8), 256),
                256,
            );
            &&& withdraws(d, player)
            &&& at(after_withdrawal(d, player).withdrawals, player) is Some
            &&& at(after_withdrawal(d, player).withdrawals, player)->Some_0 == kept + share(
                d,
                player,
            )
        }),
{
    let d = after_tally(c, now);
    law_which_stakes_are_listed(c, player);
    lemma_player_refund(c, player);
    lemma_listed_sums(c, player);
    lemma_whole_pool(c);
    let list = listed_stakes(c, player)->Ok_0;
    assert forall|i: int| 0 <= i < list.len() implies load_of(
        slot(c.battlefields.entries, (#[trigger] list[i]).battlefield_id),
    ) is Ok by {
        assert(c.stakes.entries.contains_key((list[i].army, list[i].battlefield_id, player)));
    }
    assert forall|a: u8| #[trigger]
        slot(c.player_totals_by_army, (player, a)) != Some(Slot::<u128>::Unreadable) by {
        assert(!junk_at(c.player_totals_by_army, (player, a)));
    }
    law_withdrawal_follows_tally(c, players, now, player);
    law_tally_keeps_order(c, players, now);
    law_what_a_withdrawal_pays(d, player);
    law_what_goes_back_after_a_tally(c, now, player);
}

} // verus!
