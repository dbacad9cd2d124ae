//! What holds of tallying the scores.
use vstd::prelude::*;

use crate::accounts::{
    army_account, balanced, field_account, fields_sum, in_order, keyed, player_account,
    player_fields_sum, players_field_sum, same_roster, stake_account,
};
use crate::error::{Failure, OverflowOperation, StorageFailure};
use crate::ledger::{
    all_readable, lemma_rows_below_contain, lemma_rows_contain, load_of, rows, rows_below, slot,
    ContractState, Slot,
};
use crate::msg::ResponseView;
use crate::rules::{
    battle, battle_over, battles, champion, dead_stake, field_totals, lost_below, stake_effect,
    tally_effect, tally_order, tally_refusal, total_on, victor, wins, Battle,
};
use crate::state::{ArmyView, BattlefieldView, MessageInfoView, Timestamp};
use crate::sums::{
    lemma_below_nothing, lemma_below_part, lemma_below_plus, lemma_below_raised, lemma_below_same,
    lemma_exchange_list, lemma_over_nothing, lemma_over_reverse, lemma_over_same, sum_below,
    sum_over,
};

verus! {

/// Whether a tally is carried out.
pub open spec fn tallies(c: ContractState, now: Timestamp) -> bool {
    tally_effect(c, now).1 is Ok
}

/// The state after a tally.
pub open spec fn after_tally(c: ContractState, now: Timestamp) -> ContractState {
    tally_effect(c, now).0
}

// ---------------------------------------------------------------------------
// When a tally is made
// ---------------------------------------------------------------------------

/// Before the battle has ended, a tally is refused and changes nothing.
pub proof fn law_no_tally_before_the_end(c: ContractState, now: Timestamp)
    requires
        load_of(c.config) is Ok,
        !battle_over(load_of(c.config)->Ok_0, now),
    ensures
        tally_effect(c, now) == (c, Err::<ResponseView, Failure>(Failure::NotOver)),
{
}

pub proof fn lemma_battles_never_too_early(c: ContractState, fields: Seq<(u8, BattlefieldView)>)
    ensures
        battles(c, fields) matches Battle::Refused(_, e) ==> !(e is NotOver),
    decreases fields.len(),
{
    if fields.len() > 0 {
        lemma_battles_never_too_early(c, fields.drop_last());
        if let Battle::Decided(c1, _) = battles(c, fields.drop_last()) {
            let f = fields.last().1.id;
            if let Some(w) = victor(c1, f) {
                lemma_losses(field_totals(c1, f), w, 256);
            }
        }
    }
}

/// Once the battle has ended, no tally is refused as too early.
pub proof fn law_tally_after_the_end(c: ContractState, now: Timestamp)
    requires
        load_of(c.config) is Ok,
        battle_over(load_of(c.config)->Ok_0, now),
    ensures
        tally_effect(c, now).1 != Err::<ResponseView, Failure>(Failure::NotOver),
{
    lemma_battles_never_too_early(c, tally_order(c));
}

/// A tally that is carried out closes the game.
pub proof fn law_tally_closes_the_game(c: ContractState, now: Timestamp)
    requires
        tallies(c, now),
    ensures
        load_of(after_tally(c, now).phase) == Ok::<bool, StorageFailure>(false),
{
}

pub proof fn lemma_battles_keep_the_rest(c: ContractState, fields: Seq<(u8, BattlefieldView)>)
    ensures
        match battles(c, fields) {
            Battle::Decided(d, _) => d == (ContractState {
                armies: d.armies,
                battlefields: d.battlefields,
                ..c
            }),
            Battle::Refused(d, _) => d == (ContractState {
                armies: d.armies,
                battlefields: d.battlefields,
                ..c
            }),
        },
    decreases fields.len(),
{
    if fields.len() > 0 {
        lemma_battles_keep_the_rest(c, fields.drop_last());
    }
}

/// After a tally, no stake is accepted.
pub proof fn law_no_stake_after_tally(
    c: ContractState,
    now: Timestamp,
    info: MessageInfoView,
    army: u8,
    field: u8,
)
    requires
        tallies(c, now),
    ensures
        stake_effect(after_tally(c, now), info, army, field) == (
            after_tally(c, now),
            Err::<ResponseView, Failure>(Failure::NotOpen),
        ),
{
    lemma_battles_keep_the_rest(c, tally_order(c));
}

// ---------------------------------------------------------------------------
// Who wins a battlefield
// ---------------------------------------------------------------------------

/// An army wins a battlefield exactly where it has more staked on it there than every other.
pub proof fn law_victor_has_the_largest_stake(c: ContractState, field: u8)
    ensures
        forall|w: u8| victor(c, field) == Some(w) <==> #[trigger] wins(c, w, field),
        victor(c, field) is None <==> forall|w: u8| !#[trigger] wins(c, w, field),
{
    assert forall|w: u8| victor(c, field) == Some(w) <==> #[trigger] wins(c, w, field) by {
        if wins(c, w, field) {
            let v = choose|v: u8| wins(c, v, field);
            if v != w {
                assert(total_on(c, v, field) < total_on(c, w, field));
                assert(total_on(c, w, field) < total_on(c, v, field));
            }
        }
    }
}

/// Where two armies share the largest stake on a battlefield, it is a tie: there is no winner,
/// and nothing goes to the prize pool.
pub proof fn law_tie_has_no_winner(c: ContractState, field: u8, one: u8, two: u8)
    requires
        one != two,
        total_on(c, one, field) == total_on(c, two, field),
        forall|a: u8| #[trigger] total_on(c, a, field) <= total_on(c, one, field),
    ensures
        victor(c, field) is None,
        dead_stake(c, field) == Ok::<u128, Failure>(0),
{
    assert forall|w: u8| !#[trigger] wins(c, w, field) by {
        if wins(c, w, field) {
            if w == one {
                assert(total_on(c, two, field) < total_on(c, w, field));
            } else {
                assert(total_on(c, one, field) < total_on(c, w, field));
            }
        }
    }
}

/// What is staked on the losers of a battlefield.
pub open spec fn losses(c: ContractState, field: u8) -> nat {
    match victor(c, field) {
        None => 0,
        Some(w) => sum_below(
            |a: int|
                if a == w {
                    0
                } else {
                    field_account(c, a as u8, field)
                },
            256,
        ),
    }
}

/// All that is staked on a battlefield.
pub open spec fn field_sum(c: ContractState, field: u8) -> nat {
    sum_below(|a: int| field_account(c, a as u8, field), 256)
}

pub proof fn lemma_losses(totals: Seq<u128>, winner: u8, n: nat)
    requires
        n <= totals.len(),
    ensures
        ({
            let sum = sum_below(
                |a: int|
                    if a == winner {
                        0
                    } else {
                        totals[a] as nat
                    },
                n,
            );
            match lost_below(totals, winner, n) {
                Ok(x) => x == sum,
                Err(e) => sum > u128::MAX && e is Overflow && e->operation
                    == OverflowOperation::Add,
            }
        }),
    decreases n,
{
    if n > 0 {
        lemma_losses(totals, winner, (n - 1) as nat);
    }
}

/// The dead stake of a battlefield is all that is staked there on the losers. It is an overflow
/// exactly where that does not fit.
pub proof fn law_dead_stake_is_the_losers(c: ContractState, field: u8)
    ensures
        losses(c, field) <= u128::MAX ==> dead_stake(c, field) == Ok::<u128, Failure>(
            losses(c, field) as u128,
        ),
        losses(c, field) > u128::MAX ==> (dead_stake(c, field) matches Err(e) && e is Overflow
            && e->operation == OverflowOperation::Add),
        victor(c, field) matches Some(w) ==> losses(c, field) + field_account(c, w, field)
            == field_sum(c, field),
{
    if let Some(w) = victor(c, field) {
        let totals = field_totals(c, field);
        lemma_losses(totals, w, 256);
        let lost = |a: int|
            if a == w {
                0
            } else {
                field_account(c, a as u8, field)
            };
        lemma_below_same(
            |a: int|
                if a == w {
                    0
                } else {
                    totals[a] as nat
                },
            lost,
            256,
        );
        lemma_below_raised(
            lost,
            |a: int| field_account(c, a as u8, field),
            w as int,
            field_account(c, w, field),
            256,
        );
    }
}

/// Who wins goes by the totals on the battlefields alone.
pub proof fn lemma_same_totals(c: ContractState, d: ContractState, field: u8)
    requires
        d.army_totals_by_battlefield == c.army_totals_by_battlefield,
    ensures
        victor(d, field) == victor(c, field),
        dead_stake(d, field) == dead_stake(c, field),
        losses(d, field) == losses(c, field),
{
    law_victor_has_the_largest_stake(c, field);
    law_victor_has_the_largest_stake(d, field);
    assert forall|w: u8| #[trigger] wins(c, w, field) <==> #[trigger] wins(d, w, field) by {
        assert forall|a: u8| #[trigger] total_on(c, a, field) == total_on(d, a, field) by {}
        if wins(c, w, field) {
            assert forall|a: u8| a != w implies #[trigger] total_on(d, a, field) < total_on(
                d,
                w,
                field,
            ) by {
                assert(total_on(c, a, field) < total_on(c, w, field));
            }
        }
        if wins(d, w, field) {
            assert forall|a: u8| a != w implies #[trigger] total_on(c, a, field) < total_on(
                c,
                w,
                field,
            ) by {
                assert(total_on(d, a, field) < total_on(d, w, field));
            }
        }
    }
    if let Some(w) = victor(c, field) {
        assert(wins(c, w, field));
        assert(wins(d, w, field));
        assert(victor(d, field) == Some(w));
        assert(field_totals(d, field) =~= field_totals(c, field));
        lemma_below_same(
            |a: int|
                if a == w {
                    0
                } else {
                    field_account(d, a as u8, field)
                },
            |a: int|
                if a == w {
                    0
                } else {
                    field_account(c, a as u8, field)
                },
            256,
        );
    } else {
        if let Some(w) = victor(d, field) {
            assert(wins(d, w, field));
            assert(wins(c, w, field));
        }
    }
}

// ---------------------------------------------------------------------------
// What a tally comes to
// ---------------------------------------------------------------------------

/// What a battlefield is worth to an army.
pub open spec fn worth_to(c: ContractState, army: u8) -> spec_fn((u8, BattlefieldView)) -> nat {
    |row: (u8, BattlefieldView)|
        if victor(c, row.0) == Some(army) {
            row.1.value as nat
        } else {
            0
        }
}

/// What a battlefield adds to the prize pool.
pub open spec fn lost_on(c: ContractState) -> spec_fn((u8, BattlefieldView)) -> nat {
    |row: (u8, BattlefieldView)| losses(c, row.0)
}

/// The points that an army gets for the battlefields of a list.
pub open spec fn points_for(
    c: ContractState,
    fields: Seq<(u8, BattlefieldView)>,
    army: u8,
) -> nat {
    sum_over(fields, worth_to(c, army))
}

/// What the battlefields of a list add to the prize pool.
pub open spec fn pool_of(c: ContractState, fields: Seq<(u8, BattlefieldView)>) -> nat {
    sum_over(fields, lost_on(c))
}

/// An army with more points.
pub open spec fn with_points(army: ArmyView, points: nat) -> ArmyView {
    ArmyView { victory_points: (army.victory_points + points) as u8, ..army }
}

/// A battlefield with its winner.
pub open spec fn with_winner(c: ContractState, field: BattlefieldView, id: u8) -> BattlefieldView {
    BattlefieldView { winner: victor(c, id), ..field }
}

/// Whether a list has battlefields with their ids, each once.
pub open spec fn distinct_fields(fields: Seq<(u8, BattlefieldView)>) -> bool {
    &&& forall|i: int| 0 <= i < fields.len() ==> (#[trigger] fields[i]).1.id == fields[i].0
    &&& forall|i: int, j: int|
        0 <= i < j < fields.len() ==> (#[trigger] fields[i]).0 != (#[trigger] fields[j]).0
}

/// Whether `d` is what the battlefields of a list make of `c`.
pub open spec fn settled(
    c: ContractState,
    d: ContractState,
    fields: Seq<(u8, BattlefieldView)>,
) -> bool {
    &&& d == (ContractState { armies: d.armies, battlefields: d.battlefields, ..c })
    &&& d.armies.strays == c.armies.strays
    &&& d.battlefields.strays == c.battlefields.strays
    &&& d.battlefields.breaks == c.battlefields.breaks
    &&& forall|a: u8|
        match load_of(slot(c.armies.entries, a)) {
            Ok(army) => army.victory_points + points_for(c, fields, a) <= u8::MAX
                && #[trigger] slot(d.armies.entries, a) == Some(
                Slot::Readable(with_points(army, points_for(c, fields, a))),
            ),
            Err(_) => slot(d.armies.entries, a) == slot(c.armies.entries, a),
        }
    &&& forall|i: int|
        0 <= i < fields.len() ==> slot(d.battlefields.entries, (#[trigger] fields[i]).0) == Some(
            Slot::Readable(with_winner(c, fields[i].1, fields[i].0)),
        )
    &&& forall|k: u8|
        (forall|i: int| 0 <= i < fields.len() ==> (#[trigger] fields[i]).0 != k)
            ==> #[trigger] slot(d.battlefields.entries, k) == slot(c.battlefields.entries, k)
}

/// One more battlefield.
proof fn lemma_settle_one(
    c: ContractState,
    d1: ContractState,
    pool1: u128,
    fields: Seq<(u8, BattlefieldView)>,
)
    requires
        fields.len() > 0,
        distinct_fields(fields),
        settled(c, d1, fields.drop_last()),
        battle(d1, fields.last().1, pool1) is Decided,
    ensures
        settled(c, battle(d1, fields.last().1, pool1)->Decided_0, fields),
        battle(d1, fields.last().1, pool1)->Decided_1 == pool1 + losses(c, fields.last().0),
{
    let front = fields.drop_last();
    let n = fields.len() - 1;
    let row = fields[n];
    assert(fields.last() == row);
    let d = battle(d1, row.1, pool1)->Decided_0;
    lemma_same_totals(c, d1, row.0);
    law_dead_stake_is_the_losers(c, row.0);
    assert(row.1.id == row.0);
    assert forall|a: u8|
        match load_of(slot(c.armies.entries, a)) {
            Ok(army) => army.victory_points + points_for(c, fields, a) <= u8::MAX
                && #[trigger] slot(d.armies.entries, a) == Some(
                Slot::Readable(with_points(army, points_for(c, fields, a))),
            ),
            Err(_) => slot(d.armies.entries, a) == slot(c.armies.entries, a),
        } by {
        assert(slot(d1.armies.entries, a) == slot(d1.armies.entries, a));
        assert(points_for(c, fields, a) == points_for(c, front, a) + worth_to(c, a)(row));
    }
    assert forall|i: int| 0 <= i < fields.len() implies slot(
        d.battlefields.entries,
        (#[trigger] fields[i]).0,
    ) == Some(Slot::Readable(with_winner(c, fields[i].1, fields[i].0))) by {
        if i < n {
            assert(front[i] == fields[i]);
            assert(fields[i].0 != fields[n].0);
        }
    }
    assert forall|k: u8|
        (forall|i: int| 0 <= i < fields.len() ==> (#[trigger] fields[i]).0 != k) implies
        #[trigger] slot(d.battlefields.entries, k) == slot(c.battlefields.entries, k) by {
        assert(fields[n].0 != k);
        assert forall|i: int| 0 <= i < front.len() implies (#[trigger] front[i]).0 != k by {
            assert(front[i] == fields[i]);
        }
        assert(slot(d1.battlefields.entries, k) == slot(c.battlefields.entries, k));
    }
}

/// What the battlefields of a list come to. A tally that is refused has settled the first of
/// them.
pub proof fn lemma_battles_settle(c: ContractState, fields: Seq<(u8, BattlefieldView)>) -> (n: nat)
    requires
        distinct_fields(fields),
    ensures
        n <= fields.len(),
        distinct_fields(fields.take(n as int)),
        match battles(c, fields) {
            Battle::Decided(d, pool) => {
                &&& settled(c, d, fields)
                &&& pool == pool_of(c, fields)
            },
            Battle::Refused(d, _) => settled(c, d, fields.take(n as int)),
        },
    decreases fields.len(),
{
    if fields.len() == 0 {
        assert(fields.take(0) =~= fields);
        0
    } else {
        let front = fields.drop_last();
        assert(distinct_fields(front)) by {
            assert forall|i: int| 0 <= i < front.len() implies (#[trigger] front[i]).1.id
                == front[i].0 by {
                assert(front[i] == fields[i]);
            }
            assert forall|i: int, j: int| 0 <= i < j < front.len() implies (
            #[trigger] front[i]).0 != (#[trigger] front[j]).0 by {
                assert(front[i] == fields[i] && front[j] == fields[j]);
            }
        }
        let m = lemma_battles_settle(c, front);
        assert(front.take(m as int) =~= fields.take(m as int));
        match battles(c, front) {
            Battle::Decided(d1, pool1) => {
                assert(front.take(front.len() as int) =~= front);
                assert(fields.take(front.len() as int) =~= front);
                if battle(d1, fields.last().1, pool1) is Decided {
                    lemma_settle_one(c, d1, pool1, fields);
                }
                front.len()
            },
            Battle::Refused(_, _) => m,
        }
    }
}

/// The order of the tally has the battlefields that can be read, each once.
pub proof fn lemma_order(c: ContractState)
    requires
        keyed(c),
    ensures
        distinct_fields(tally_order(c)),
        forall|i: int|
            0 <= i < tally_order(c).len() ==> slot(
                c.battlefields.entries,
                (#[trigger] tally_order(c)[i]).0,
            ) == Some(Slot::Readable(tally_order(c)[i].1)),
        forall|k: u8|
            load_of(#[trigger] slot(c.battlefields.entries, k)) is Ok ==> exists|i: int|
                0 <= i < tally_order(c).len() && (#[trigger] tally_order(c)[i]).0 == k,
{
    let stored = rows(c.battlefields.entries);
    let order = tally_order(c);
    lemma_rows_ascend(c.battlefields.entries, 256);
    assert forall|i: int| 0 <= i < order.len() implies slot(
        c.battlefields.entries,
        (#[trigger] order[i]).0,
    ) == Some(Slot::Readable(order[i].1)) && order[i].1.id == order[i].0 by {
        let row = order[i];
        assert(row == stored[stored.len() - 1 - i]);
        assert(stored.contains(row));
        lemma_rows_below_contain(c.battlefields.entries, 256, row);
        assert(load_of(slot(c.battlefields.entries, row.0)) matches Ok(b) ==> b.id == row.0);
    }
    assert forall|i: int, j: int| 0 <= i < j < order.len() implies (#[trigger] order[i]).0 != (
    #[trigger] order[j]).0 by {
        assert(order[i] == stored[stored.len() - 1 - i]);
        assert(order[j] == stored[stored.len() - 1 - j]);
    }
    assert forall|k: u8| load_of(#[trigger] slot(c.battlefields.entries, k)) is Ok implies exists|
        i: int,
    |
        0 <= i < order.len() && (#[trigger] order[i]).0 == k by {
        lemma_rows_contain(c.battlefields.entries, k);
        let row = (k, load_of(slot(c.battlefields.entries, k))->Ok_0);
        let j = choose|j: int| 0 <= j < stored.len() && stored[j] == row;
        assert(order[stored.len() - 1 - j].0 == k);
    }
}

/// What the settled battlefields of some of the order are, by their ids.
pub proof fn lemma_settled_fields(c: ContractState, d: ContractState, n: nat)
    requires
        keyed(c),
        n <= tally_order(c).len(),
        settled(c, d, tally_order(c).take(n as int)),
    ensures
        forall|k: u8|
            match load_of(slot(c.battlefields.entries, k)) {
                Ok(field) => {
                    ||| #[trigger] slot(d.battlefields.entries, k) == Some(
                        Slot::Readable(with_winner(c, field, k)),
                    )
                    ||| n < tally_order(c).len() && slot(d.battlefields.entries, k) == slot(
                        c.battlefields.entries,
                        k,
                    )
                },
                Err(_) => slot(d.battlefields.entries, k) == slot(c.battlefields.entries, k),
            },
{
    lemma_order(c);
    let order = tally_order(c);
    let done = order.take(n as int);
    assert forall|k: u8|
        match load_of(slot(c.battlefields.entries, k)) {
            Ok(field) => {
                ||| #[trigger] slot(d.battlefields.entries, k) == Some(
                    Slot::Readable(with_winner(c, field, k)),
                )
                ||| n < order.len() && slot(d.battlefields.entries, k) == slot(
                    c.battlefields.entries,
                    k,
                )
            },
            Err(_) => slot(d.battlefields.entries, k) == slot(c.battlefields.entries, k),
        } by {
        if exists|i: int| 0 <= i < done.len() && (#[trigger] done[i]).0 == k {
            let i = choose|i: int| 0 <= i < done.len() && (#[trigger] done[i]).0 == k;
            assert(done[i] == order[i]);
        } else {
            if load_of(slot(c.battlefields.entries, k)) is Ok {
                let i = choose|i: int| 0 <= i < order.len() && (#[trigger] order[i]).0 == k;
                if i < n {
                    assert(done[i].0 == k);
                }
            }
        }
    }
}

/// A tally that is carried out puts the stakes of the losers of every battlefield into the prize
/// pool, gives every army the points of the battlefields that it has won, and saves every
/// battlefield with its winner, where every value is stored under the key that it names.
pub proof fn law_tally_outcome(c: ContractState, now: Timestamp)
    requires
        keyed(c),
        tallies(c, now),
    ensures
        ({
            let d = after_tally(c, now);
            let fields = tally_order(c);
            &&& load_of(d.prize_pool) is Ok
            &&& load_of(d.prize_pool)->Ok_0 == pool_of(c, fields)
            &&& d.battlefields.strays == c.battlefields.strays
            &&& d.battlefields.breaks == c.battlefields.breaks
            &&& forall|a: u8|
                match load_of(slot(c.armies.entries, a)) {
                    Ok(army) => army.victory_points + points_for(c, fields, a) <= u8::MAX
                        && #[trigger] slot(d.armies.entries, a) == Some(
                        Slot::Readable(with_points(army, points_for(c, fields, a))),
                    ),
                    Err(_) => slot(d.armies.entries, a) == slot(c.armies.entries, a),
                }
            &&& forall|k: u8|
                match load_of(slot(c.battlefields.entries, k)) {
                    Ok(field) => #[trigger] slot(d.battlefields.entries, k) == Some(
                        Slot::Readable(with_winner(c, field, k)),
                    ),
                    Err(_) => slot(d.battlefields.entries, k) == slot(c.battlefields.entries, k),
                }
        }),
{
    let fields = tally_order(c);
    lemma_order(c);
    let n = lemma_battles_settle(c, fields);
    assert(fields.take(fields.len() as int) =~= fields);
    let d = battles(c, fields)->Decided_0;
    lemma_settled_fields(c, d, fields.len());
}

/// A tally that is carried out changes nothing but the armies' points, the battlefields' winners,
/// the winner, the prize pool and the phase.
pub proof fn law_tally_touches_nothing_else(c: ContractState, now: Timestamp)
    requires
        tallies(c, now),
    ensures
        ({
            let d = after_tally(c, now);
            d == (ContractState {
                armies: d.armies,
                battlefields: d.battlefields,
                winner: d.winner,
                prize_pool: d.prize_pool,
                phase: d.phase,
                ..c
            })
        }),
{
    lemma_battles_keep_the_rest(c, tally_order(c));
}

/// A tally keeps the configuration, and the armies and battlefields with their ids, even where
/// it is refused.
pub proof fn law_tally_keeps_roster(c: ContractState, now: Timestamp)
    requires
        keyed(c),
    ensures
        same_roster(c, after_tally(c, now)),
{
    if tally_refusal(c, now) is None {
        let fields = tally_order(c);
        lemma_order(c);
        let m = lemma_battles_settle(c, fields);
        let n = if battles(c, fields) is Decided {
            fields.len()
        } else {
            m
        };
        assert(fields.take(fields.len() as int) =~= fields);
        let d = match battles(c, fields) {
            Battle::Decided(d, _) => d,
            Battle::Refused(d, _) => d,
        };
        lemma_settled_fields(c, d, n);
        assert(same_roster(c, d));
    }
}

/// Where the accounts are the same, the books agree as before.
pub proof fn lemma_balance_goes_by_accounts(
    c: ContractState,
    d: ContractState,
    players: Seq<Seq<char>>,
)
    requires
        balanced(c, players),
        d.army_totals_by_battlefield == c.army_totals_by_battlefield,
        d.player_totals_by_army == c.player_totals_by_army,
        d.stakes == c.stakes,
        forall|a: u8| #[trigger] army_account(d, a) == army_account(c, a),
    ensures
        balanced(d, players),
{
    assert forall|p: Seq<char>, a: u8, f: u8| #[trigger]
        stake_account(d, p, a, f) > 0 implies players.contains(p) by {
        assert(stake_account(c, p, a, f) > 0);
    }
    assert forall|a: u8| #[trigger] army_account(d, a) == fields_sum(d, a) by {
        assert(army_account(c, a) == fields_sum(c, a));
        lemma_below_same(
            |f: int| field_account(c, a, f as u8),
            |f: int| field_account(d, a, f as u8),
            256,
        );
    }
    assert forall|a: u8, f: u8| #[trigger]
        field_account(d, a, f) == players_field_sum(d, players, a, f) by {
        assert(field_account(c, a, f) == players_field_sum(c, players, a, f));
        lemma_over_same(
            players,
            |p: Seq<char>| stake_account(c, p, a, f),
            |p: Seq<char>| stake_account(d, p, a, f),
        );
    }
    assert forall|p: Seq<char>, a: u8| #[trigger]
        player_account(d, p, a) == player_fields_sum(d, p, a) by {
        assert(player_account(c, p, a) == player_fields_sum(c, p, a));
        lemma_below_same(
            |f: int| stake_account(c, p, a, f as u8),
            |f: int| stake_account(d, p, a, f as u8),
            256,
        );
    }
}

/// A tally keeps the books in order, even where it is refused.
pub proof fn law_tally_keeps_order(c: ContractState, players: Seq<Seq<char>>, now: Timestamp)
    requires
        in_order(c, players),
    ensures
        in_order(after_tally(c, now), players),
{
    let d = after_tally(c, now);
    if tally_refusal(c, now) is None {
        law_tally_keeps_roster(c, now);
        lemma_battles_keep_the_rest(c, tally_order(c));
        lemma_order(c);
        let m = lemma_battles_settle(c, tally_order(c));
        assert forall|a: u8| #[trigger] army_account(d, a) == army_account(c, a) by {
            assert(slot(d.armies.entries, a) == slot(d.armies.entries, a));
        }
        lemma_balance_goes_by_accounts(c, d, players);
        assert(keyed(d)) by {
            assert forall|id: u8|
                load_of(#[trigger] slot(d.armies.entries, id)) is Ok implies load_of(
                slot(d.armies.entries, id),
            )->Ok_0.id == id by {
                assert(load_of(slot(c.armies.entries, id)) matches Ok(a) ==> a.id == id);
            }
            assert forall|id: u8|
                load_of(#[trigger] slot(d.battlefields.entries, id)) is Ok implies load_of(
                slot(d.battlefields.entries, id),
            )->Ok_0.id == id by {
                assert(load_of(slot(c.battlefields.entries, id)) matches Ok(b) ==> b.id == id);
            }
        }
    }
}

/// Where the books are in order, the winner of a battlefield is an army that can be read.
proof fn lemma_victor_exists(c: ContractState, players: Seq<Seq<char>>, field: u8)
    requires
        in_order(c, players),
    ensures
        victor(c, field) matches Some(w) ==> load_of(slot(c.armies.entries, w)) is Ok,
{
    if let Some(w) = victor(c, field) {
        law_victor_has_the_largest_stake(c, field);
        assert(wins(c, w, field));
        let other: u8 = if w == 0 {
            1
        } else {
            0
        };
        assert(total_on(c, other, field) < total_on(c, w, field));
        assert(army_account(c, w) == fields_sum(c, w));
        lemma_below_part(|f: int| field_account(c, w, f as u8), field as int, 256);
    }
}

proof fn lemma_battles_are_decided(
    c: ContractState,
    players: Seq<Seq<char>>,
    fields: Seq<(u8, BattlefieldView)>,
)
    requires
        in_order(c, players),
        distinct_fields(fields),
        pool_of(c, fields) <= u128::MAX,
        forall|a: u8|
            load_of(#[trigger] slot(c.armies.entries, a)) matches Ok(army) ==> army.victory_points
                + points_for(c, fields, a) <= u8::MAX,
    ensures
        battles(c, fields) is Decided,
    decreases fields.len(),
{
    if fields.len() > 0 {
        let front = fields.drop_last();
        let row = fields[fields.len() - 1];
        assert forall|i: int| 0 <= i < front.len() implies #[trigger] front[i] == fields[i] by {}
        assert(distinct_fields(front)) by {
            assert forall|i: int, j: int| 0 <= i < j < front.len() implies (
            #[trigger] front[i]).0 != (#[trigger] front[j]).0 by {
                assert(fields[i].0 != fields[j].0);
            }
            assert forall|i: int| 0 <= i < front.len() implies (#[trigger] front[i]).1.id
                == front[i].0 by {
                assert(fields[i].1.id == fields[i].0);
            }
        }
        assert forall|a: u8| load_of(#[trigger] slot(c.armies.entries, a)) is Ok implies load_of(
            slot(c.armies.entries, a),
        )->Ok_0.victory_points + points_for(c, front, a) <= u8::MAX by {
            assert(points_for(c, fields, a) == points_for(c, front, a) + worth_to(c, a)(row));
        }
        assert(pool_of(c, fields) == pool_of(c, front) + losses(c, row.0));
        lemma_battles_are_decided(c, players, front);
        let m = lemma_battles_settle(c, front);
        let d1 = battles(c, front)->Decided_0;
        assert(row.1.id == row.0);
        lemma_same_totals(c, d1, row.0);
        law_dead_stake_is_the_losers(c, row.0);
        lemma_victor_exists(c, players, row.0);
        if let Some(w) = victor(c, row.0) {
            assert(slot(d1.armies.entries, w) == slot(d1.armies.entries, w));
            assert(points_for(c, fields, w) == points_for(c, front, w) + worth_to(c, w)(row));
        }
    }
}

/// Where the books are in order, a tally is carried out once the battle has ended, if the game is
/// open, every army can be read, there is one, and the prize pool and the points fit.
pub proof fn law_tally_is_carried_out(c: ContractState, players: Seq<Seq<char>>, now: Timestamp)
    requires
        in_order(c, players),
        tally_refusal(c, now) is None,
        all_readable(c.armies),
        rows(c.armies.entries).len() > 0,
        pool_of(c, tally_order(c)) <= u128::MAX,
        forall|a: u8|
            load_of(#[trigger] slot(c.armies.entries, a)) matches Ok(army) ==> army.victory_points
                + points_for(c, tally_order(c), a) <= u8::MAX,
    ensures
        tallies(c, now),
{
    let fields = tally_order(c);
    lemma_order(c);
    lemma_battles_are_decided(c, players, fields);
    let m = lemma_battles_settle(c, fields);
    let d = battles(c, fields)->Decided_0;
    assert forall|k: u8| #[trigger]
        d.armies.entries.contains_key(k) implies d.armies.entries[k] is Readable by {
        assert(slot(d.armies.entries, k) is Some);
        if load_of(slot(c.armies.entries, k)) is Err {
            assert(slot(d.armies.entries, k) == slot(c.armies.entries, k));
            assert(c.armies.entries.contains_key(k));
        }
    }
    let first = rows(c.armies.entries)[0];
    assert(rows(c.armies.entries).contains(first));
    lemma_rows_below_contain(c.armies.entries, 256, first);
    assert(slot(d.armies.entries, first.0) is Some);
    lemma_rows_contain(d.armies.entries, first.0);
}

// ---------------------------------------------------------------------------
// Who wins the game
// ---------------------------------------------------------------------------

pub proof fn lemma_rows_ascend<V>(entries: Map<u8, Slot<V>>, n: nat)
    requires
        n <= 256,
    ensures
        forall|i: int|
            0 <= i < rows_below(entries, n).len() ==> (#[trigger] rows_below(entries, n)[i]).0 < n,
        forall|i: int, j: int|
            0 <= i < j < rows_below(entries, n).len() ==> (#[trigger] rows_below(entries, n)[i]).0
                < (#[trigger] rows_below(entries, n)[j]).0,
    decreases n,
{
    if n > 0 {
        lemma_rows_ascend(entries, (n - 1) as nat);
        let front = rows_below(entries, (n - 1) as nat);
        let all = rows_below(entries, n);
        assert forall|i: int| 0 <= i < front.len() implies #[trigger] all[i] == front[i] by {}
        assert forall|i: int| 0 <= i < all.len() implies (#[trigger] all[i]).0 < n by {
            if i < front.len() {
                assert(front[i].0 < n - 1);
            }
        }
        assert forall|i: int, j: int| 0 <= i < j < all.len() implies (#[trigger] all[i]).0 < (
        #[trigger] all[j]).0 by {
            assert(front[i].0 < n - 1);
            if j < front.len() {
                assert(front[i].0 < front[j].0);
            }
        }
    }
}

proof fn lemma_champion(armies: Seq<(u8, ArmyView)>) -> (i: int)
    requires
        armies.len() > 0,
    ensures
        0 <= i < armies.len(),
        armies[i].1 == champion(armies),
        forall|j: int|
            0 <= j < armies.len() ==> (#[trigger] armies[j]).1.victory_points
                <= armies[i].1.victory_points,
        forall|j: int|
            i < j < armies.len() ==> (#[trigger] armies[j]).1.victory_points
                < armies[i].1.victory_points,
    decreases armies.len(),
{
    if armies.len() == 1 {
        0
    } else {
        let front = armies.drop_last();
        let i = lemma_champion(front);
        let last = armies.len() - 1;
        assert forall|j: int| 0 <= j < last implies (#[trigger] armies[j]) == front[j] by {}
        if armies[last].1.victory_points >= front[i].1.victory_points {
            last
        } else {
            i
        }
    }
}

/// Whether `army` is the army under `id`, no army has more points, and every army with a
/// lower id has fewer.
pub open spec fn leads(entries: Map<u8, Slot<ArmyView>>, id: u8, army: ArmyView) -> bool {
    &&& load_of(slot(entries, id)) == Ok::<ArmyView, StorageFailure>(army)
    &&& forall|k: u8|
        load_of(#[trigger] slot(entries, k)) matches Ok(a) ==> a.victory_points
            <= army.victory_points
    &&& forall|k: u8|
        k < id ==> (load_of(#[trigger] slot(entries, k)) matches Ok(a) ==> a.victory_points
            < army.victory_points)
}

/// The winner that a tally saves is the army with the most points, and of several with the
/// most points the one with the lowest id.
pub proof fn law_winner_has_most_points(c: ContractState, now: Timestamp)
    requires
        tallies(c, now),
    ensures
        ({
            let d = after_tally(c, now);
            &&& load_of(d.winner) is Ok
            &&& exists|id: u8| leads(d.armies.entries, id, load_of(d.winner)->Ok_0)
        }),
{
    let d = after_tally(c, now);
    let up = rows(d.armies.entries);
    let down = up.reverse();
    let n = up.len() as int;
    let i = lemma_champion(down);
    let winner = load_of(d.winner)->Ok_0;
    lemma_rows_ascend(d.armies.entries, 256);
    let row = down[i];
    assert(row == up[n - 1 - i]);
    assert(up.contains(row));
    lemma_rows_below_contain(d.armies.entries, 256, row);
    assert forall|k: u8| load_of(#[trigger] slot(d.armies.entries, k)) is Ok implies {
        let a = load_of(slot(d.armies.entries, k))->Ok_0;
        &&& a.victory_points <= winner.victory_points
        &&& k < row.0 ==> a.victory_points < winner.victory_points
    } by {
        lemma_rows_contain(d.armies.entries, k);
        let a = load_of(slot(d.armies.entries, k))->Ok_0;
        let j = choose|j: int| 0 <= j < n && up[j] == (k, a);
        assert(down[n - 1 - j] == (k, a));
        if k < row.0 {
            assert(j < n - 1 - i);
        }
    }
    assert(leads(d.armies.entries, row.0, winner));
}

// ---------------------------------------------------------------------------
// The points of a tally
// ---------------------------------------------------------------------------

/// What the entry of a key counts for.
pub open spec fn row_value<V>(entries: Map<u8, Slot<V>>, g: spec_fn((u8, V)) -> nat, k: u8) -> nat {
    match load_of(slot(entries, k)) {
        Ok(v) => g((k, v)),
        Err(_) => 0,
    }
}

/// A list of rows is added up as the range of their keys.
pub proof fn lemma_rows_sum<V>(entries: Map<u8, Slot<V>>, g: spec_fn((u8, V)) -> nat, n: nat)
    requires
        n <= 256,
    ensures
        sum_over(rows_below(entries, n), g) == sum_below(
            |k: int| row_value(entries, g, k as u8),
            n,
        ),
    decreases n,
{
    if n > 0 {
        lemma_rows_sum(entries, g, (n - 1) as nat);
        let k = (n - 1) as u8;
        let front = rows_below(entries, (n - 1) as nat);
        if let Ok(v) = load_of(slot(entries, k)) {
            assert(front.push((k, v)).drop_last() =~= front);
        }
    }
}

/// The points of an army, if it can be read.
pub open spec fn points_of(c: ContractState, army: u8) -> nat {
    match load_of(slot(c.armies.entries, army)) {
        Ok(a) => a.victory_points as nat,
        Err(_) => 0,
    }
}

/// The points of all armies.
pub open spec fn all_points(c: ContractState) -> nat {
    sum_below(|a: int| points_of(c, a as u8), 256)
}

/// What the battlefields of a list are worth.
pub open spec fn values_of(fields: Seq<(u8, BattlefieldView)>) -> nat {
    sum_over(fields, |row: (u8, BattlefieldView)| row.1.value as nat)
}

/// Where every battlefield has a winner, the points of all armies grow together by what all
/// battlefields are worth.
pub proof fn law_points_add_up(c: ContractState, players: Seq<Seq<char>>, now: Timestamp)
    requires
        in_order(c, players),
        tallies(c, now),
        forall|i: int|
            0 <= i < tally_order(c).len() ==> victor(c, (#[trigger] tally_order(c)[i]).0) is Some,
    ensures
        all_points(after_tally(c, now)) == all_points(c) + values_of(tally_order(c)),
{
    let d = after_tally(c, now);
    let fields = tally_order(c);
    law_tally_outcome(c, now);
    let h = |row: (u8, BattlefieldView), a: int| worth_to(c, a as u8)(row);
    let gained = |a: int| points_for(c, fields, a as u8);
    let before = |a: int| points_of(c, a as u8);
    let after = |a: int| points_of(d, a as u8);
    // Points go to armies that can be read
    assert forall|a: int| 0 <= a < 256 implies #[trigger] after(a) == before(a) + gained(a) by {
        assert(slot(d.armies.entries, a as u8) == slot(d.armies.entries, a as u8));
        if load_of(slot(c.armies.entries, a as u8)) is Err {
            let worth = worth_to(c, a as u8);
            assert forall|i: int| 0 <= i < fields.len() implies worth(#[trigger] fields[i])
                == 0 by {
                lemma_victor_exists(c, players, fields[i].0);
            }
            lemma_over_nothing(fields, worth);
        }
    }
    lemma_below_plus(before, gained, after, 256);
    // What the armies gain, battlefield by battlefield
    lemma_exchange_list(fields, h, 256);
    let by_army = |a: int| sum_over(fields, |row: (u8, BattlefieldView)| h(row, a));
    assert forall|a: int| 0 <= a < 256 implies #[trigger] gained(a) == by_army(a) by {
        lemma_over_same(
            fields,
            worth_to(c, a as u8),
            |row: (u8, BattlefieldView)| h(row, a),
        );
    }
    lemma_below_same(gained, by_army, 256);
    let by_field = |row: (u8, BattlefieldView)| sum_below(|a: int| h(row, a), 256);
    let value = |row: (u8, BattlefieldView)| row.1.value as nat;
    assert forall|i: int| 0 <= i < fields.len() implies by_field(#[trigger] fields[i]) == value(
        fields[i],
    ) by {
        let row = fields[i];
        let w = victor(c, row.0)->Some_0;
        let none = |a: int| 0nat;
        lemma_below_nothing(none, 256);
        lemma_below_raised(none, |a: int| h(row, a), w as int, value(row), 256);
    }
    lemma_over_same(fields, by_field, value);
}

/// Whether every army has the points of `n` tallies.
pub open spec fn scored(c: ContractState, n: nat) -> bool {
    forall|a: u8|
        load_of(#[trigger] slot(c.armies.entries, a)) matches Ok(army) ==> army.victory_points == n
            * points_for(c, tally_order(c), a)
}

/// A tally changes neither what the battlefields are worth to an army nor what they add to the
/// prize pool.
pub proof fn lemma_tally_keeps_stakes(c: ContractState, now: Timestamp, army: u8)
    requires
        keyed(c),
        tallies(c, now),
    ensures
        ({
            let d = after_tally(c, now);
            &&& points_for(d, tally_order(d), army) == points_for(c, tally_order(c), army)
            &&& pool_of(d, tally_order(d)) == pool_of(c, tally_order(c))
            &&& forall|f: u8| #[trigger] victor(d, f) == victor(c, f)
        }),
{
    let d = after_tally(c, now);
    let old = c.battlefields.entries;
    let new = d.battlefields.entries;
    law_tally_outcome(c, now);
    law_tally_touches_nothing_else(c, now);
    assert forall|f: u8| #[trigger]
        victor(d, f) == victor(c, f) && losses(d, f) == losses(c, f) by {
        lemma_same_totals(c, d, f);
    }
    lemma_over_reverse(rows(old), worth_to(c, army));
    lemma_over_reverse(rows(new), worth_to(d, army));
    lemma_rows_sum(old, worth_to(c, army), 256);
    lemma_rows_sum(new, worth_to(d, army), 256);
    let worth1 = |k: int| row_value(old, worth_to(c, army), k as u8);
    let worth2 = |k: int| row_value(new, worth_to(d, army), k as u8);
    assert forall|k: int| 0 <= k < 256 implies #[trigger] worth1(k) == worth2(k) by {
        assert(slot(new, k as u8) == slot(new, k as u8));
        assert(victor(d, k as u8) == victor(c, k as u8));
    }
    lemma_below_same(worth1, worth2, 256);
    lemma_over_reverse(rows(old), lost_on(c));
    lemma_over_reverse(rows(new), lost_on(d));
    lemma_rows_sum(old, lost_on(c), 256);
    lemma_rows_sum(new, lost_on(d), 256);
    let lost1 = |k: int| row_value(old, lost_on(c), k as u8);
    let lost2 = |k: int| row_value(new, lost_on(d), k as u8);
    assert forall|k: int| 0 <= k < 256 implies #[trigger] lost1(k) == lost2(k) by {
        assert(slot(new, k as u8) == slot(new, k as u8));
        assert(victor(d, k as u8) == victor(c, k as u8));
    }
    lemma_below_same(lost1, lost2, 256);
}

/// Every tally that is carried out adds the points of one tally.
pub proof fn law_tally_scores_once(c: ContractState, n: nat, now: Timestamp)
    requires
        keyed(c),
        scored(c, n),
        tallies(c, now),
    ensures
        scored(after_tally(c, now), n + 1),
{
    let d = after_tally(c, now);
    law_tally_outcome(c, now);
    assert forall|a: u8| load_of(#[trigger] slot(d.armies.entries, a)) is Ok implies load_of(
        slot(d.armies.entries, a),
    )->Ok_0.victory_points == (n + 1) * points_for(d, tally_order(d), a) by {
        lemma_tally_keeps_stakes(c, now, a);
        assert(load_of(slot(c.armies.entries, a)) is Ok);
        let w = points_for(c, tally_order(c), a);
        assert((n + 1) * w == n * w + w) by (nonlinear_arith);
    }
}

/// A tally that follows a tally decides the same: every battlefield keeps its winner, the prize
/// pool is the same, and so is the army that wins the game.
pub proof fn law_later_tally_decides_the_same(
    c: ContractState,
    players: Seq<Seq<char>>,
    n: nat,
    now: Timestamp,
    later: Timestamp,
)
    requires
        in_order(c, players),
        scored(c, n),
        tallies(c, now),
        tallies(after_tally(c, now), later),
    ensures
        ({
            let d = after_tally(c, now);
            let e = after_tally(d, later);
            &&& e.battlefields == d.battlefields
            &&& e.prize_pool == d.prize_pool
            &&& load_of(d.winner) is Ok
            &&& load_of(e.winner) is Ok
            &&& load_of(e.winner)->Ok_0.id == load_of(d.winner)->Ok_0.id
            &&& load_of(e.winner)->Ok_0.total_staked == load_of(d.winner)->Ok_0.total_staked
        }),
{
    let d = after_tally(c, now);
    let e = after_tally(d, later);
    law_tally_keeps_order(c, players, now);
    law_tally_keeps_order(d, players, later);
    law_tally_outcome(c, now);
    law_tally_outcome(d, later);
    law_tally_scores_once(c, n, now);
    law_tally_scores_once(d, n + 1, later);
    lemma_tally_keeps_stakes(c, now, 0);
    lemma_tally_keeps_stakes(d, later, 0);
    // The battlefields
    let one = d.battlefields.entries;
    let two = e.battlefields.entries;
    assert forall|k: u8| #[trigger] slot(two, k) == slot(one, k) by {
        assert(slot(one, k) == slot(one, k));
        assert(victor(d, k) == victor(c, k));
    }
    assert forall|k: u8| #[trigger] two.contains_key(k) <==> one.contains_key(k) by {
        assert(slot(two, k) == slot(one, k));
    }
    assert forall|k: u8| #[trigger] two.contains_key(k) implies two[k] == one[k] by {
        assert(slot(two, k) == slot(one, k));
    }
    assert(two =~= one);
    // The winner
    law_winner_has_most_points(c, now);
    law_winner_has_most_points(d, later);
    let first = load_of(d.winner)->Ok_0;
    let second = load_of(e.winner)->Ok_0;
    let i = choose|id: u8| leads(d.armies.entries, id, first);
    let j = choose|id: u8| leads(e.armies.entries, id, second);
    assert(load_of(slot(d.armies.entries, i)) is Ok);
    assert(load_of(slot(e.armies.entries, j)) is Ok);
    assert(slot(e.armies.entries, i) == slot(e.armies.entries, i));
    assert(load_of(slot(d.armies.entries, j)) is Ok);
    lemma_tally_keeps_stakes(d, later, i);
    lemma_tally_keeps_stakes(d, later, j);
    let wi = points_for(d, tally_order(d), i);
    let wj = points_for(d, tally_order(d), j);
    assert(load_of(slot(d.armies.entries, i))->Ok_0.victory_points == (n + 1) * wi);
    assert(load_of(slot(d.armies.entries, j))->Ok_0.victory_points == (n + 1) * wj);
    assert(load_of(slot(e.armies.entries, i))->Ok_0.victory_points == (n + 2) * wi);
    assert(load_of(slot(e.armies.entries, j))->Ok_0.victory_points == (n + 2) * wj);
    assert(wj <= wi) by (nonlinear_arith)
        requires
            (n + 1) * wj <= (n + 1) * wi,
    ;
    assert(wi <= wj) by (nonlinear_arith)
        requires
            (n + 2) * wi <= (n + 2) * wj,
    ;
    assert(i == j);
}

} // verus!
