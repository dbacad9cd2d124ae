//! What holds of a game from its start on, whatever is played.
use vstd::prelude::*;

use crate::accounts::{in_order, same_roster};
use crate::error::StorageFailure;
use crate::laws::{
    accepts, after_stake, blank, law_set_up_starts_in_order, law_stake_keeps_order,
    law_stake_keeps_roster, law_stake_touches_nothing_else, with_player,
};
use crate::ledger::{
    lemma_rows_below_contain, load_of, rows, slot, straight, ContractState, Slot, StakeKey,
};
use crate::payout_laws::{after_withdrawal, law_withdrawal_keeps_order};
use crate::rules::{oversized, set_up, tally_order};
use crate::state::{ArmyInfo, BattlefieldInfo, ConfigView, MessageInfoView, Timestamp};
use crate::tally_laws::{
    after_tally, law_tally_keeps_order, law_tally_keeps_roster, lemma_battles_keep_the_rest,
    lemma_rows_ascend, scored,
};

verus! {

/// Something that is done in a game.
pub enum Move {
    Stake { info: MessageInfoView, army: u8, field: u8 },
    Tally { now: Timestamp },
    Withdrawal { player: Seq<char> },
}

/// The state that a move leaves behind, refused or not.
pub open spec fn moved(c: ContractState, m: Move) -> ContractState {
    match m {
        Move::Stake { info, army, field } => after_stake(c, info, army, field),
        Move::Tally { now } => after_tally(c, now),
        Move::Withdrawal { player } => after_withdrawal(c, player),
    }
}

/// The state that moves leave behind, made one after the other.
pub open spec fn played(c: ContractState, moves: Seq<Move>) -> ContractState
    decreases moves.len(),
{
    if moves.len() == 0 {
        c
    } else {
        moved(played(c, moves.drop_last()), moves.last())
    }
}

/// The players whose stakes have been accepted.
pub open spec fn backers(c: ContractState, moves: Seq<Move>) -> Seq<Seq<char>>
    decreases moves.len(),
{
    if moves.len() == 0 {
        Seq::empty()
    } else {
        let before = backers(c, moves.drop_last());
        match moves.last() {
            Move::Stake { info, army, field } => if accepts(
                played(c, moves.drop_last()),
                info,
                army,
                field,
            ) {
                with_player(before, info.sender)
            } else {
                before
            },
            _ => before,
        }
    }
}

proof fn lemma_roster_is_kept_on(c: ContractState, d: ContractState, e: ContractState)
    requires
        same_roster(c, d),
        same_roster(d, e),
    ensures
        same_roster(c, e),
{
    assert forall|id: u8|
        match (
            load_of(slot(c.armies.entries, id)),
            load_of(#[trigger] slot(e.armies.entries, id)),
        ) {
            (Ok(a), Ok(b)) => b.name == a.name && b.ipfs_uri == a.ipfs_uri && b.id == a.id,
            (Err(x), Err(y)) => x == y,
            _ => false,
        } by {
        assert(slot(d.armies.entries, id) == slot(d.armies.entries, id));
    }
    assert forall|id: u8|
        match (
            load_of(slot(c.battlefields.entries, id)),
            load_of(#[trigger] slot(e.battlefields.entries, id)),
        ) {
            (Ok(a), Ok(b)) => b.name == a.name && b.ipfs_uri == a.ipfs_uri && b.id == a.id
                && b.value == a.value,
            (Err(x), Err(y)) => x == y,
            _ => false,
        } by {
        assert(slot(d.battlefields.entries, id) == slot(d.battlefields.entries, id));
    }
}

proof fn lemma_played(c: ContractState, moves: Seq<Move>)
    requires
        in_order(c, Seq::empty()),
    ensures
        in_order(played(c, moves), backers(c, moves)),
        same_roster(c, played(c, moves)),
        played(c, moves).army_totals_by_battlefield.breaks == c.army_totals_by_battlefield.breaks,
    decreases moves.len(),
{
    if moves.len() > 0 {
        let front = moves.drop_last();
        lemma_played(c, front);
        let d = played(c, front);
        let players = backers(c, front);
        match moves.last() {
            Move::Stake { info, army, field } => {
                law_stake_keeps_order(d, players, info, army, field);
                law_stake_keeps_roster(d, info, army, field);
            },
            Move::Tally { now } => {
                law_tally_keeps_order(d, players, now);
                law_tally_keeps_roster(d, now);
                lemma_battles_keep_the_rest(d, tally_order(d));
            },
            Move::Withdrawal { player } => {
                law_withdrawal_keeps_order(d, players, player);
            },
        }
        lemma_roster_is_kept_on(c, d, played(c, moves));
    }
}

/// Whatever is played in a game that was set up on blank storage, refused or not: the books are
/// in order after every move, for the players whose stakes were accepted. The configuration is
/// that which was given, and the armies and battlefields have the names, values and ids that they
/// were given.
///
/// The stakes of every player can then be walked, and so can the totals of the armies if they
/// could be at the start.
pub proof fn law_every_game_is_in_order(
    c: ContractState,
    name: Seq<char>,
    version: Seq<char>,
    armies: Seq<ArmyInfo>,
    battlefields: Seq<BattlefieldInfo>,
    config: ConfigView,
    moves: Seq<Move>,
)
    requires
        blank(c),
        oversized(armies.len(), battlefields.len()) is None,
    ensures
        ({
            let start = set_up(c, name, version, armies, battlefields, config);
            let d = played(start, moves);
            &&& in_order(d, backers(start, moves))
            &&& same_roster(start, d)
            &&& forall|p: Seq<char>| #[trigger] straight(d.stakes, p)
            &&& d.army_totals_by_battlefield.breaks == c.army_totals_by_battlefield.breaks
        }),
{
    let start = set_up(c, name, version, armies, battlefields, config);
    law_set_up_starts_in_order(c, name, version, armies, battlefields, config);
    lemma_played(start, moves);
    let d = played(start, moves);
    assert forall|p: Seq<char>| #[trigger] straight(d.stakes, p) by {
        assert forall|k: StakeKey| #[trigger] d.stakes.by_player.contains_key((p, k)) implies k.2
            == p by {}
    }
}

/// Before there is a tally, no army has points.
pub proof fn law_no_points_before_the_tally(
    c: ContractState,
    name: Seq<char>,
    version: Seq<char>,
    armies: Seq<ArmyInfo>,
    battlefields: Seq<BattlefieldInfo>,
    config: ConfigView,
    moves: Seq<Move>,
)
    requires
        blank(c),
        oversized(armies.len(), battlefields.len()) is None,
        forall|i: int| 0 <= i < moves.len() ==> !((#[trigger] moves[i]) is Tally),
    ensures
        scored(played(set_up(c, name, version, armies, battlefields, config), moves), 0),
    decreases moves.len(),
{
    let start = set_up(c, name, version, armies, battlefields, config);
    let e = played(start, moves);
    if moves.len() > 0 {
        let front = moves.drop_last();
        assert forall|i: int| 0 <= i < front.len() implies !((#[trigger] front[i]) is Tally) by {
            assert(front[i] == moves[i]);
        }
        law_no_points_before_the_tally(
            c,
            name,
            version,
            armies,
            battlefields,
            config,
            front,
        );
        let d = played(start, front);
        assert(!(moves[moves.len() - 1] is Tally));
        if let Move::Stake { info, army, field } = moves.last() {
            law_stake_touches_nothing_else(d, info, army, field);
        }
        assert forall|a: u8| load_of(#[trigger] slot(e.armies.entries, a)) is Ok implies load_of(
            slot(e.armies.entries, a),
        )->Ok_0.victory_points == 0 by {
            assert(slot(d.armies.entries, a) == slot(d.armies.entries, a));
        }
    }
}

/// The lists of armies and battlefields are complete, and go strictly down from the highest id:
/// they have exactly the entries that can be read.
pub proof fn law_lists_are_complete_and_descending<V>(entries: Map<u8, Slot<V>>)
    ensures
        ({
            let list = rows(entries).reverse();
            &&& forall|i: int, j: int|
                0 <= i < j < list.len() ==> (#[trigger] list[i]).0 > (#[trigger] list[j]).0
            &&& forall|row: (u8, V)| #[trigger]
                list.contains(row) <==> load_of(slot(entries, row.0)) == Ok::<V, StorageFailure>(
                    row.1,
                )
        }),
{
    let up = rows(entries);
    let list = up.reverse();
    let n = up.len() as int;
    lemma_rows_ascend(entries, 256);
    assert forall|i: int, j: int| 0 <= i < j < list.len() implies (#[trigger] list[i]).0 > (
    #[trigger] list[j]).0 by {
        assert(list[i] == up[n - 1 - i] && list[j] == up[n - 1 - j]);
    }
    assert forall|row: (u8, V)| #[trigger]
        list.contains(row) <==> load_of(slot(entries, row.0)) == Ok::<V, StorageFailure>(
            row.1,
        ) by {
        lemma_rows_below_contain(entries, 256, row);
        if list.contains(row) {
            let i = choose|i: int| 0 <= i < list.len() && list[i] == row;
            assert(up[n - 1 - i] == row);
        }
        if up.contains(row) {
            let i = choose|i: int| 0 <= i < n && up[i] == row;
            assert(list[n - 1 - i] == row);
        }
    }
}

} // verus!
