//! What tallying the scores comes to, said of the entries in storage themselves.
use vstd::prelude::*;

use crate::accounts::{field_account, keyed};
use crate::error::{Failure, OverflowOperation, StorageFailure};
use crate::ledger::{
    all_readable, lemma_rows_below_contain, lemma_rows_contain, load_of, rows, slot, ContractState,
    Slot,
};
use crate::msg::{AttributeView, ResponseView};
use crate::rules::{
    battle, battles, dead_stake, field_totals, lost_below, tally_effect, tally_order,
    tally_refusal, total_on, victor, wins, Battle,
};
use crate::state::{ArmyView, BattlefieldView, Timestamp};
use crate::sums::{
    lemma_below_nothing, lemma_below_raised, lemma_below_same, lemma_over_reverse, sum_below,
    sum_over,
};
use crate::tally_laws::{
    after_tally, distinct_fields, law_dead_stake_is_the_losers, law_tally_outcome,
    law_tally_touches_nothing_else, law_victor_has_the_largest_stake, law_winner_has_most_points,
    leads, lemma_battles_keep_the_rest, lemma_battles_never_too_early, lemma_battles_settle,
    lemma_order, lemma_rows_ascend, lemma_rows_sum, lemma_same_totals, losses, lost_on, points_for,
    pool_of, row_value, settled, tallies, worth_to,
};
use crate::terms::{at, held, junk_at, missing, too_large, total_at, unreadable};

verus! {

// ---------------------------------------------------------------------------
// The end of the battle
// ---------------------------------------------------------------------------

/// Whether the battle is still going on, in whole seconds: the start and the duration are each
/// rounded down, and the battle has ended once the clock, rounded down, shows their sum.
pub open spec fn goes_on(start: Timestamp, duration: Timestamp, now: Timestamp) -> bool {
    start.nanos as int / 1_000_000_000 + duration.nanos as int / 1_000_000_000 > now.nanos as int
        / 1_000_000_000
}

/// A tally is refused as too early exactly where the start and the duration of the battle, in whole
/// seconds, add up to more than the time of the block, and then it changes nothing.
pub proof fn law_tally_waits_for_the_end(c: ContractState, now: Timestamp)
    ensures
        tally_effect(c, now).1 == Err::<ResponseView, Failure>(Failure::NotOver) <==> ({
            &&& held(c.config) is Some
            &&& held(c.config)->Some_0.start.nanos as int / 1_000_000_000
                + held(c.config)->Some_0.battle_duration.nanos as int / 1_000_000_000
                > now.nanos as int / 1_000_000_000
        }),
        tally_effect(c, now).1 == Err::<ResponseView, Failure>(Failure::NotOver) ==> after_tally(
            c,
            now,
        ) == c,
{
    lemma_battles_never_too_early(c, tally_order(c));
}

/// A tally without a configuration is refused and changes nothing.
pub proof fn law_tally_needs_a_configuration(c: ContractState, now: Timestamp)
    requires
        held(c.config) is None,
    ensures
        tally_effect(c, now) == (c, Err::<ResponseView, Failure>(missing(c.config))),
{
}

// ---------------------------------------------------------------------------
// Battlefields
// ---------------------------------------------------------------------------

/// Whether an army has more staked on it on a battlefield than every other army.
pub open spec fn is_ahead(c: ContractState, army: u8, field: u8) -> bool {
    forall|a: u8|
        a != army ==> #[trigger] total_at(c.army_totals_by_battlefield.entries, (a, field))
            < total_at(c.army_totals_by_battlefield.entries, (army, field))
}

/// A battlefield is won by an army exactly where that army has more staked on it there than every
/// other, and by none exactly where no army has.
pub proof fn law_who_wins_a_battlefield(c: ContractState, field: u8)
    ensures
        forall|w: u8| victor(c, field) == Some(w) <==> #[trigger] is_ahead(c, w, field),
        victor(c, field) is None <==> forall|w: u8| !#[trigger] is_ahead(c, w, field),
{
    law_victor_has_the_largest_stake(c, field);
    assert forall|a: u8| #[trigger]
        total_at(c.army_totals_by_battlefield.entries, (a, field)) == total_on(c, a, field) by {}
    assert forall|w: u8| victor(c, field) == Some(w) <==> #[trigger] is_ahead(c, w, field) by {
        assert(victor(c, field) == Some(w) <==> wins(c, w, field));
        if is_ahead(c, w, field) {
            assert forall|a: u8| a != w implies #[trigger] total_on(c, a, field) < total_on(
                c,
                w,
                field,
            ) by {
                assert(total_at(c.army_totals_by_battlefield.entries, (a, field)) < total_at(
                    c.army_totals_by_battlefield.entries,
                    (w, field),
                ));
            }
        }
        if wins(c, w, field) {
            assert forall|a: u8| a != w implies #[trigger] total_at(
                c.army_totals_by_battlefield.entries,
                (a, field),
            ) < total_at(c.army_totals_by_battlefield.entries, (w, field)) by {
                assert(total_on(c, a, field) < total_on(c, w, field));
            }
        }
    }
    if victor(c, field) is None {
        assert forall|w: u8| !#[trigger] is_ahead(c, w, field) by {}
    } else {
        assert(is_ahead(c, victor(c, field)->Some_0, field));
    }
}

/// Whether a battlefield has a winner.
pub open spec fn is_won(c: ContractState, field: u8) -> bool {
    exists|w: u8| is_ahead(c, w, field)
}

/// What is staked on a battlefield on the armies that lose it, where one wins.
pub open spec fn lost(c: ContractState, field: u8) -> nat {
    if is_won(c, field) {
        sum_below(
            |a: int|
                if is_ahead(c, a as u8, field) {
                    0
                } else {
                    total_at(c.army_totals_by_battlefield.entries, (a as u8, field))
                },
            256,
        )
    } else {
        0
    }
}

proof fn lemma_lost(c: ContractState, field: u8)
    ensures
        lost(c, field) == losses(c, field),
{
    law_who_wins_a_battlefield(c, field);
    if let Some(w) = victor(c, field) {
        assert(is_ahead(c, w, field));
        let one = |a: int|
            if is_ahead(c, a as u8, field) {
                0
            } else {
                total_at(c.army_totals_by_battlefield.entries, (a as u8, field))
            };
        let two = |a: int|
            if a == w {
                0
            } else {
                field_account(c, a as u8, field)
            };
        assert forall|a: int| 0 <= a < 256 implies #[trigger] one(a) == two(a) by {
            assert(victor(c, field) == Some(a as u8) <==> is_ahead(c, a as u8, field));
        }
        lemma_below_same(one, two, 256);
    }
}

/// What a battlefield adds to the prize pool is what is staked there on the losers, if that fits.
pub proof fn law_losing_stakes_go_to_the_pool(c: ContractState, field: u8)
    ensures
        dead_stake(c, field) is Ok <==> lost(c, field) <= u128::MAX,
        dead_stake(c, field) is Ok ==> dead_stake(c, field)->Ok_0 == lost(c, field),
{
    lemma_lost(c, field);
    law_dead_stake_is_the_losers(c, field);
}

// ---------------------------------------------------------------------------
// The sums of a tally
// ---------------------------------------------------------------------------

/// What a battlefield adds to the prize pool, if it can be read.
pub open spec fn lost_at(c: ContractState, field: u8) -> nat {
    if at(c.battlefields.entries, field) is Some {
        lost(c, field)
    } else {
        0
    }
}

/// The points that an army gets for a battlefield, if it can be read.
pub open spec fn worth_at(c: ContractState, army: u8, field: u8) -> nat {
    if at(c.battlefields.entries, field) is Some && is_ahead(c, army, field) {
        at(c.battlefields.entries, field)->Some_0.value as nat
    } else {
        0
    }
}

/// What all battlefields add to the prize pool.
pub open spec fn whole_pool(c: ContractState) -> nat {
    sum_below(|k: int| lost_at(c, k as u8), 256)
}

/// The points that an army gets for all battlefields.
pub open spec fn whole_points(c: ContractState, army: u8) -> nat {
    sum_below(|k: int| worth_at(c, army, k as u8), 256)
}

pub proof fn lemma_whole_pool(c: ContractState)
    ensures
        pool_of(c, tally_order(c)) == whole_pool(c),
{
    let entries = c.battlefields.entries;
    lemma_over_reverse(rows(entries), lost_on(c));
    lemma_rows_sum(entries, lost_on(c), 256);
    let one = |k: int| row_value(entries, lost_on(c), k as u8);
    let two = |k: int| lost_at(c, k as u8);
    assert forall|k: int| 0 <= k < 256 implies #[trigger] one(k) == two(k) by {
        lemma_lost(c, k as u8);
    }
    lemma_below_same(one, two, 256);
}

proof fn lemma_whole_points(c: ContractState, army: u8)
    ensures
        points_for(c, tally_order(c), army) == whole_points(c, army),
{
    let entries = c.battlefields.entries;
    lemma_over_reverse(rows(entries), worth_to(c, army));
    lemma_rows_sum(entries, worth_to(c, army), 256);
    let one = |k: int| row_value(entries, worth_to(c, army), k as u8);
    let two = |k: int| worth_at(c, army, k as u8);
    assert forall|k: int| 0 <= k < 256 implies #[trigger] one(k) == two(k) by {
        law_who_wins_a_battlefield(c, k as u8);
        assert(victor(c, k as u8) == Some(army) <==> is_ahead(c, army, k as u8));
    }
    lemma_below_same(one, two, 256);
}

// ---------------------------------------------------------------------------
// When a tally is carried out
// ---------------------------------------------------------------------------

/// Whether every army can be read, and nothing else is stored among them.
pub open spec fn armies_can_be_read(c: ContractState) -> bool {
    &&& !c.armies.strays
    &&& forall|a: u8| !#[trigger] junk_at(c.armies.entries, a)
}

/// Whether the army that wins a battlefield can be read, for every battlefield that can be.
pub open spec fn winners_can_be_read(c: ContractState) -> bool {
    forall|k: u8, w: u8|
        #![trigger is_ahead(c, w, k)]
        at(c.battlefields.entries, k) is Some && is_ahead(c, w, k) ==> at(c.armies.entries, w)
            is Some
}

/// Whether the points of every army fit.
pub open spec fn points_fit(c: ContractState) -> bool {
    forall|a: u8|
        #![trigger whole_points(c, a)]
        at(c.armies.entries, a) is Some ==> at(c.armies.entries, a)->Some_0.victory_points
            + whole_points(c, a) <= u8::MAX
}

/// Whether the battlefields of a list can all be settled.
spec fn can_be_settled(c: ContractState, fields: Seq<(u8, BattlefieldView)>) -> bool {
    &&& distinct_fields(fields)
    &&& pool_of(c, fields) <= u128::MAX
    &&& forall|a: u8|
        #![trigger points_for(c, fields, a)]
        load_of(slot(c.armies.entries, a)) matches Ok(army) ==> army.victory_points + points_for(
            c,
            fields,
            a,
        ) <= u8::MAX
    &&& forall|i: int, w: u8|
        #![trigger fields[i], load_of(slot(c.armies.entries, w))]
        0 <= i < fields.len() && victor(c, fields[i].0) == Some(w) ==> load_of(
            slot(c.armies.entries, w),
        ) is Ok
}

proof fn lemma_front(c: ContractState, fields: Seq<(u8, BattlefieldView)>)
    requires
        fields.len() > 0,
        distinct_fields(fields),
    ensures
        ({
            let front = fields.drop_last();
            let row = fields[fields.len() - 1];
            &&& distinct_fields(front)
            &&& pool_of(c, fields) == pool_of(c, front) + losses(c, row.0)
            &&& forall|a: u8| #[trigger]
                points_for(c, fields, a) == points_for(c, front, a) + worth_to(c, a)(row)
            &&& row.1.id == row.0
            &&& can_be_settled(c, fields) ==> can_be_settled(c, front)
        }),
{
    let front = fields.drop_last();
    let row = fields[fields.len() - 1];
    assert(fields.last() == row);
    assert forall|i: int| 0 <= i < front.len() implies #[trigger] front[i] == fields[i] by {}
    assert(distinct_fields(front)) by {
        assert forall|i: int, j: int| 0 <= i < j < front.len() implies (#[trigger] front[i]).0 != (
        #[trigger] front[j]).0 by {
            assert(fields[i].0 != fields[j].0);
        }
        assert forall|i: int| 0 <= i < front.len() implies (#[trigger] front[i]).1.id
            == front[i].0 by {
            assert(fields[i].1.id == fields[i].0);
        }
    }
    assert forall|a: u8| #[trigger]
        points_for(c, fields, a) == points_for(c, front, a) + worth_to(c, a)(row) by {}
    if can_be_settled(c, fields) {
        assert forall|a: u8|
            #![trigger points_for(c, front, a)]
            load_of(slot(c.armies.entries, a)) is Ok implies load_of(
            slot(c.armies.entries, a),
        )->Ok_0.victory_points + points_for(c, front, a) <= u8::MAX by {
            assert(points_for(c, fields, a) == points_for(c, front, a) + worth_to(c, a)(row));
        }
        assert forall|i: int, w: u8|
            #![trigger front[i], load_of(slot(c.armies.entries, w))]
            0 <= i < front.len() && victor(c, front[i].0) == Some(w) implies load_of(
            slot(c.armies.entries, w),
        ) is Ok by {
            assert(front[i] == fields[i]);
        }
    }
}

/// The battlefields of a list are settled exactly where the sums fit and the winners can be read;
/// and what stands in the way otherwise.
proof fn lemma_battles_when(c: ContractState, fields: Seq<(u8, BattlefieldView)>)
    requires
        distinct_fields(fields),
    ensures
        battles(c, fields) is Decided <==> can_be_settled(c, fields),
        battles(c, fields) matches Battle::Refused(_, e) ==> {
            ||| e is Overflow && e->operation == OverflowOperation::Add && (pool_of(c, fields)
                > u128::MAX || exists|a: u8|
                load_of(slot(c.armies.entries, a)) is Ok && load_of(
                    slot(c.armies.entries, a),
                )->Ok_0.victory_points + #[trigger] points_for(c, fields, a) > u8::MAX)
            ||| e == Failure::Std(StorageFailure::Unreadable) && exists|i: int, w: u8|
                #![trigger fields[i], slot(c.armies.entries, w)]
                0 <= i < fields.len() && victor(c, fields[i].0) == Some(w) && slot(
                    c.armies.entries,
                    w,
                ) == Some(Slot::<ArmyView>::Unreadable)
            ||| e is NoArmy && exists|i: int|
                0 <= i < fields.len() && victor(c, (#[trigger] fields[i]).0) == Some(e->id)
                    && slot(c.armies.entries, e->id) is None
        },
    decreases fields.len(),
{
    if fields.len() == 0 {
        assert(can_be_settled(c, fields));
    } else {
        let front = fields.drop_last();
        let n = fields.len() - 1;
        let row = fields[n];
        lemma_front(c, fields);
        lemma_battles_when(c, front);
        assert forall|i: int| 0 <= i < front.len() implies #[trigger] front[i] == fields[i] by {}
        match battles(c, front) {
            Battle::Refused(_, e) => {
                if e is Overflow {
                    if pool_of(c, front) <= u128::MAX {
                        let a = choose|a: u8|
                            load_of(slot(c.armies.entries, a)) is Ok && load_of(
                                slot(c.armies.entries, a),
                            )->Ok_0.victory_points + #[trigger] points_for(c, front, a) > u8::MAX;
                        assert(points_for(c, fields, a) >= points_for(c, front, a));
                    }
                } else if e is NoArmy {
                    let i = choose|i: int|
                        0 <= i < front.len() && victor(c, (#[trigger] front[i]).0) == Some(e->id)
                            && slot(c.armies.entries, e->id) is None;
                    assert(fields[i] == front[i]);
                } else {
                    let (i, w) = choose|i: int, w: u8|
                        #![trigger front[i], slot(c.armies.entries, w)]
                        0 <= i < front.len() && victor(c, front[i].0) == Some(w) && slot(
                            c.armies.entries,
                            w,
                        ) == Some(Slot::<ArmyView>::Unreadable);
                    assert(fields[i] == front[i]);
                }
            },
            Battle::Decided(d1, pool1) => {
                let m = lemma_battles_settle(c, front);
                lemma_same_totals(c, d1, row.0);
                law_dead_stake_is_the_losers(c, row.0);
                assert(fields.last() == row);
                let w0 = victor(c, row.0);
                if let Some(w) = w0 {
                    assert(slot(d1.armies.entries, w) == slot(d1.armies.entries, w));
                    assert(points_for(c, fields, w) == points_for(c, front, w) + worth_to(c, w)(
                        row,
                    ));
                    assert(fields[n].0 == row.0);
                }
                if battle(d1, row.1, pool1) is Decided {
                    assert forall|a: u8|
                        #![trigger points_for(c, fields, a)]
                        load_of(slot(c.armies.entries, a)) is Ok implies load_of(
                        slot(c.armies.entries, a),
                    )->Ok_0.victory_points + points_for(c, fields, a) <= u8::MAX by {
                        if w0 != Some(a) {
                            assert(worth_to(c, a)(row) == 0);
                        }
                    }
                    assert forall|i: int, w: u8|
                        #![trigger fields[i], load_of(slot(c.armies.entries, w))]
                        0 <= i < fields.len() && victor(c, fields[i].0) == Some(w) implies load_of(
                        slot(c.armies.entries, w),
                    ) is Ok by {
                        if i < n {
                            assert(front[i] == fields[i]);
                        }
                    }
                    assert(can_be_settled(c, fields));
                } else if can_be_settled(c, fields) {
                    if let Some(w) = w0 {
                        assert(load_of(slot(c.armies.entries, w)) is Ok);
                    }
                    assert(false);
                }
            },
        }
    }
}

proof fn lemma_ready(c: ContractState)
    requires
        keyed(c),
    ensures
        can_be_settled(c, tally_order(c)) <==> whole_pool(c) <= u128::MAX && points_fit(c)
            && winners_can_be_read(c),
{
    let fields = tally_order(c);
    lemma_order(c);
    lemma_whole_pool(c);
    assert forall|a: u8|
        #![trigger whole_points(c, a)]
        #![trigger points_for(c, fields, a)]
        whole_points(c, a) == points_for(c, fields, a) by {
        lemma_whole_points(c, a);
    }
    assert forall|a: u8| #[trigger] at(c.armies.entries, a) is Some <==> load_of(
        slot(c.armies.entries, a),
    ) is Ok by {}
    if can_be_settled(c, fields) {
        assert(points_fit(c));
        assert forall|k: u8, w: u8|
            #![trigger is_ahead(c, w, k)]
            at(c.battlefields.entries, k) is Some && is_ahead(c, w, k) implies at(
            c.armies.entries,
            w,
        ) is Some by {
            law_who_wins_a_battlefield(c, k);
            assert(load_of(slot(c.battlefields.entries, k)) is Ok);
            let i = choose|i: int| 0 <= i < fields.len() && (#[trigger] fields[i]).0 == k;
            assert(victor(c, fields[i].0) == Some(w));
            assert(load_of(slot(c.armies.entries, w)) is Ok);
        }
    }
    if whole_pool(c) <= u128::MAX && points_fit(c) && winners_can_be_read(c) {
        assert forall|i: int, w: u8|
            #![trigger fields[i], load_of(slot(c.armies.entries, w))]
            0 <= i < fields.len() && victor(c, fields[i].0) == Some(w) implies load_of(
            slot(c.armies.entries, w),
        ) is Ok by {
            law_who_wins_a_battlefield(c, fields[i].0);
            assert(is_ahead(c, w, fields[i].0));
            assert(at(c.battlefields.entries, fields[i].0) is Some);
        }
        assert forall|a: u8|
            #![trigger points_for(c, fields, a)]
            load_of(slot(c.armies.entries, a)) is Ok implies load_of(
            slot(c.armies.entries, a),
        )->Ok_0.victory_points + points_for(c, fields, a) <= u8::MAX by {
            assert(whole_points(c, a) == points_for(c, fields, a));
        }
    }
}

/// What the crowning needs is the same before and after the battlefields are settled.
proof fn lemma_crowning(c: ContractState, d: ContractState, fields: Seq<(u8, BattlefieldView)>)
    requires
        settled(c, d, fields),
    ensures
        all_readable(d.armies) <==> armies_can_be_read(c),
        rows(d.armies.entries).len() > 0 <==> exists|a: u8| at(c.armies.entries, a) is Some,
{
    assert forall|a: u8| #[trigger] slot(d.armies.entries, a) == slot(d.armies.entries, a) by {}
    assert forall|a: u8| #[trigger] junk_at(c.armies.entries, a) <==> slot(d.armies.entries, a)
        == Some(Slot::<ArmyView>::Unreadable) by {}
    if all_readable(d.armies) {
        assert forall|a: u8| !#[trigger] junk_at(c.armies.entries, a) by {
            if junk_at(c.armies.entries, a) {
                assert(d.armies.entries.contains_key(a));
            }
        }
    }
    if armies_can_be_read(c) {
        assert forall|k: u8| #[trigger]
            d.armies.entries.contains_key(k) implies d.armies.entries[k] is Readable by {
            assert(!junk_at(c.armies.entries, k));
        }
    }
    if rows(d.armies.entries).len() > 0 {
        let first = rows(d.armies.entries)[0];
        assert(rows(d.armies.entries).contains(first));
        lemma_rows_below_contain(d.armies.entries, 256, first);
        assert(at(c.armies.entries, first.0) is Some);
    }
    if exists|a: u8| at(c.armies.entries, a) is Some {
        let a = choose|a: u8| at(c.armies.entries, a) is Some;
        assert(slot(d.armies.entries, a) is Some);
        lemma_rows_contain(d.armies.entries, a);
    }
}

/// A tally is carried out exactly where the battle has ended, every army can be read and there is
/// one, the winners of the battlefields are among them, and the prize pool and the points fit.
pub proof fn law_when_a_tally_is_carried_out(c: ContractState, now: Timestamp)
    requires
        keyed(c),
    ensures
        tallies(c, now) <==> ({
            &&& held(c.config) is Some
            &&& !goes_on(
                held(c.config)->Some_0.start,
                held(c.config)->Some_0.battle_duration,
                now,
            )
            &&& armies_can_be_read(c)
            &&& exists|a: u8| at(c.armies.entries, a) is Some
            &&& winners_can_be_read(c)
            &&& whole_pool(c) <= u128::MAX
            &&& points_fit(c)
        }),
{
    let fields = tally_order(c);
    lemma_order(c);
    lemma_battles_when(c, fields);
    lemma_ready(c);
    let m = lemma_battles_settle(c, fields);
    if let Battle::Decided(d, _) = battles(c, fields) {
        lemma_crowning(c, d, fields);
    }
}

/// Why a tally is refused once the battle has ended: a sum does not fit, an army cannot be read,
/// the winner of a battlefield is no army, or there is no army at all.
pub proof fn law_why_a_tally_is_refused(c: ContractState, now: Timestamp)
    requires
        keyed(c),
        !tallies(c, now),
        held(c.config) is Some,
        !goes_on(held(c.config)->Some_0.start, held(c.config)->Some_0.battle_duration, now),
    ensures
        ({
            let e = tally_effect(c, now).1->Err_0;
            ||| e is Overflow && e->operation == OverflowOperation::Add && !(whole_pool(c)
                <= u128::MAX && points_fit(c))
            ||| e == Failure::Std(StorageFailure::Unreadable) && !armies_can_be_read(c)
            ||| e is NoArmy && !c.armies.entries.contains_key(e->id) && exists|k: u8|
                at(c.battlefields.entries, k) is Some && #[trigger] is_ahead(c, e->id, k)
            ||| e == Failure::NoArmies && forall|a: u8| #[trigger] at(c.armies.entries, a) is None
        }),
{
    let fields = tally_order(c);
    let e = tally_effect(c, now).1->Err_0;
    lemma_order(c);
    lemma_battles_when(c, fields);
    lemma_ready(c);
    lemma_whole_pool(c);
    let m = lemma_battles_settle(c, fields);
    match battles(c, fields) {
        Battle::Decided(d, _) => {
            lemma_crowning(c, d, fields);
        },
        Battle::Refused(_, _) => {
            if e is Overflow {
                if pool_of(c, fields) <= u128::MAX {
                    let a = choose|a: u8|
                        load_of(slot(c.armies.entries, a)) is Ok && load_of(
                            slot(c.armies.entries, a),
                        )->Ok_0.victory_points + #[trigger] points_for(c, fields, a) > u8::MAX;
                    lemma_whole_points(c, a);
                    assert(at(c.armies.entries, a) is Some);
                    assert(whole_points(c, a) == points_for(c, fields, a));
                    assert(!points_fit(c));
                }
            } else if e is NoArmy {
                let i = choose|i: int|
                    0 <= i < fields.len() && victor(c, (#[trigger] fields[i]).0) == Some(e->id)
                        && slot(c.armies.entries, e->id) is None;
                law_who_wins_a_battlefield(c, fields[i].0);
                assert(is_ahead(c, e->id, fields[i].0));
                assert(at(c.battlefields.entries, fields[i].0) is Some);
            } else {
                let (i, w) = choose|i: int, w: u8|
                    #![trigger fields[i], slot(c.armies.entries, w)]
                    0 <= i < fields.len() && victor(c, fields[i].0) == Some(w) && slot(
                        c.armies.entries,
                        w,
                    ) == Some(Slot::<ArmyView>::Unreadable);
                assert(junk_at(c.armies.entries, w));
            }
        },
    }
}

// ---------------------------------------------------------------------------
// What a tally leaves behind
// ---------------------------------------------------------------------------

/// A tally that is carried out gives every army the values of the battlefields that it has won,
/// saves every battlefield with the army that is ahead there, puts the stakes of all losers into
/// the prize pool, crowns the army with the most points, closes the game, and changes nothing else.
pub proof fn law_what_a_tally_stores(c: ContractState, now: Timestamp)
    requires
        keyed(c),
        tallies(c, now),
    ensures
        ({
            let d = after_tally(c, now);
            &&& d.phase == Some(Slot::Readable(false))
            &&& held(d.prize_pool) is Some
            &&& held(d.prize_pool)->Some_0 == whole_pool(c)
            &&& forall|a: u8|
                at(c.armies.entries, a) is Some ==> ({
                    let old = at(c.armies.entries, a)->Some_0;
                    let new = #[trigger] at(d.armies.entries, a);
                    &&& new is Some
                    &&& new->Some_0.name == old.name
                    &&& new->Some_0.ipfs_uri == old.ipfs_uri
                    &&& new->Some_0.id == old.id
                    &&& new->Some_0.total_staked == old.total_staked
                    &&& new->Some_0.victory_points == old.victory_points + whole_points(c, a)
                })
            &&& forall|a: u8|
                at(c.armies.entries, a) is None ==> (#[trigger] d.armies.entries.contains_key(a)
                    <==> c.armies.entries.contains_key(a))
            &&& forall|k: u8|
                at(c.battlefields.entries, k) is Some ==> ({
                    let old = at(c.battlefields.entries, k)->Some_0;
                    let new = #[trigger] at(d.battlefields.entries, k);
                    &&& new is Some
                    &&& new->Some_0.name == old.name
                    &&& new->Some_0.ipfs_uri == old.ipfs_uri
                    &&& new->Some_0.id == old.id
                    &&& new->Some_0.value == old.value
                    &&& new->Some_0.winner is Some ==> is_ahead(c, new->Some_0.winner->Some_0, k)
                    &&& new->Some_0.winner is None ==> !is_won(c, k)
                })
            &&& forall|k: u8|
                at(c.battlefields.entries, k) is None ==> (
                #[trigger] d.battlefields.entries.contains_key(k)
                    <==> c.battlefields.entries.contains_key(k)) && (
                c.battlefields.entries.contains_key(k) ==> d.battlefields.entries[k]
                    == c.battlefields.entries[k])
            &&& d.contract_info == c.contract_info
            &&& d.config == c.config
            &&& d.army_totals_by_battlefield == c.army_totals_by_battlefield
            &&& d.player_totals_by_army == c.player_totals_by_army
            &&& d.stakes == c.stakes
            &&& d.withdrawals == c.withdrawals
        }),
{
    let d = after_tally(c, now);
    law_tally_outcome(c, now);
    law_tally_touches_nothing_else(c, now);
    lemma_whole_pool(c);
    assert forall|a: u8| at(c.armies.entries, a) is Some implies ({
        let old = at(c.armies.entries, a)->Some_0;
        let new = #[trigger] at(d.armies.entries, a);
        &&& new is Some
        &&& new->Some_0.name == old.name
        &&& new->Some_0.ipfs_uri == old.ipfs_uri
        &&& new->Some_0.id == old.id
        &&& new->Some_0.total_staked == old.total_staked
        &&& new->Some_0.victory_points == old.victory_points + whole_points(c, a)
    }) by {
        lemma_whole_points(c, a);
        assert(slot(d.armies.entries, a) is Some);
    }
    assert forall|a: u8| at(c.armies.entries, a) is None implies (
    #[trigger] d.armies.entries.contains_key(a) <==> c.armies.entries.contains_key(a)) by {
        assert(slot(d.armies.entries, a) == slot(c.armies.entries, a));
    }
    assert forall|k: u8| at(c.battlefields.entries, k) is Some implies ({
        let old = at(c.battlefields.entries, k)->Some_0;
        let new = #[trigger] at(d.battlefields.entries, k);
        &&& new is Some
        &&& new->Some_0.name == old.name
        &&& new->Some_0.ipfs_uri == old.ipfs_uri
        &&& new->Some_0.id == old.id
        &&& new->Some_0.value == old.value
        &&& new->Some_0.winner is Some ==> is_ahead(c, new->Some_0.winner->Some_0, k)
        &&& new->Some_0.winner is None ==> !is_won(c, k)
    }) by {
        law_who_wins_a_battlefield(c, k);
        assert(slot(d.battlefields.entries, k) is Some);
    }
    assert forall|k: u8| at(c.battlefields.entries, k) is None implies (
    #[trigger] d.battlefields.entries.contains_key(k) <==> c.battlefields.entries.contains_key(k))
        && (c.battlefields.entries.contains_key(k) ==> d.battlefields.entries[k]
        == c.battlefields.entries[k]) by {
        assert(slot(d.battlefields.entries, k) == slot(c.battlefields.entries, k));
    }
}

/// The winner that a tally stores is an army as it is stored then: none has more points, and those
/// with lower ids have fewer.
pub proof fn law_who_wins_the_game(c: ContractState, now: Timestamp)
    requires
        tallies(c, now),
    ensures
        ({
            let d = after_tally(c, now);
            exists|id: u8|
                #![trigger at(d.armies.entries, id)]
                {
                    &&& at(d.armies.entries, id) is Some
                    &&& d.winner == Some(Slot::Readable(at(d.armies.entries, id)->Some_0))
                    &&& forall|k: u8|
                        #![trigger d.armies.entries.contains_key(k)]
                        at(d.armies.entries, k) is Some ==> at(
                            d.armies.entries,
                            k,
                        )->Some_0.victory_points <= at(d.armies.entries, id)->Some_0.victory_points
                            && (k < id ==> at(d.armies.entries, k)->Some_0.victory_points < at(
                            d.armies.entries,
                            id,
                        )->Some_0.victory_points)
                }
        }),
{
    let d = after_tally(c, now);
    law_winner_has_most_points(c, now);
    let winner = load_of(d.winner)->Ok_0;
    let id = choose|id: u8| leads(d.armies.entries, id, winner);
    assert(at(d.armies.entries, id) == Some(winner));
    assert forall|k: u8|
        #![trigger d.armies.entries.contains_key(k)]
        at(d.armies.entries, k) is Some implies at(d.armies.entries, k)->Some_0.victory_points
        <= winner.victory_points && (k < id ==> at(d.armies.entries, k)->Some_0.victory_points
        < winner.victory_points) by {
        assert(load_of(slot(d.armies.entries, k)) is Ok);
    }
}

/// The reply to a tally tells the action, and asks the bank for nothing.
pub proof fn law_reply_to_a_tally(c: ContractState, now: Timestamp)
    requires
        tallies(c, now),
    ensures
        tally_effect(c, now).1->Ok_0.messages =~= Seq::empty(),
        tally_effect(c, now).1->Ok_0.attributes =~= seq![
            AttributeView { key: "action"@, value: "tally"@ },
        ],
{
}

/// The points that an army gets for the battlefields with ids of at least `least`.
pub open spec fn points_down_to(c: ContractState, army: u8, least: int) -> nat {
    sum_below(
        |k: int|
            if k >= least {
                worth_at(c, army, k as u8)
            } else {
                0
            },
        256,
    )
}

/// The least id among the first `n` battlefields of a tally.
spec fn least_of(c: ContractState, n: nat) -> int {
    if n == 0 {
        256
    } else {
        tally_order(c)[n - 1].0 as int
    }
}

/// The values of the rows with keys of at least `least`.
spec fn row_value_from<V>(
    entries: Map<u8, Slot<V>>,
    g: spec_fn((u8, V)) -> nat,
    least: int,
    k: u8,
) -> nat {
    if k >= least {
        row_value(entries, g, k)
    } else {
        0
    }
}

/// The first battlefields of a tally are those with the highest ids.
proof fn lemma_from_the_top(c: ContractState, n: nat, g: spec_fn((u8, BattlefieldView)) -> nat)
    requires
        keyed(c),
        n <= tally_order(c).len(),
    ensures
        sum_over(tally_order(c).take(n as int), g) == sum_below(
            |k: int| row_value_from(c.battlefields.entries, g, least_of(c, n), k as u8),
            256,
        ),
        forall|i: int|
            0 <= i < tally_order(c).len() ==> (i < n <==> (#[trigger] tally_order(c)[i]).0
                >= least_of(c, n)),
    decreases n,
{
    let entries = c.battlefields.entries;
    let order = tally_order(c);
    let stored = rows(entries);
    let new = |k: int| row_value_from(entries, g, least_of(c, n), k as u8);
    lemma_order(c);
    lemma_rows_ascend(entries, 256);
    assert forall|i: int, j: int| 0 <= i < j < order.len() implies (#[trigger] order[i]).0 > (
    #[trigger] order[j]).0 by {
        assert(order[i] == stored[stored.len() - 1 - i]);
        assert(order[j] == stored[stored.len() - 1 - j]);
    }
    if n == 0 {
        assert(order.take(0) =~= Seq::empty());
        lemma_below_nothing(new, 256);
    } else {
        let row = order[n - 1];
        let old = |k: int| row_value_from(entries, g, least_of(c, (n - 1) as nat), k as u8);
        lemma_from_the_top(c, (n - 1) as nat, g);
        assert(order.take(n as int).drop_last() =~= order.take(n - 1));
        assert(order.take(n as int).last() == row);
        assert(order[n - 1].0 == row.0);
        assert forall|k: int| 0 <= k < 256 implies #[trigger] new(k) == old(k) + (if k == row.0 {
            g(row)
        } else {
            0
        }) by {
            if load_of(slot(entries, k as u8)) is Ok {
                let i = choose|i: int| 0 <= i < order.len() && (#[trigger] order[i]).0 == k as u8;
                assert(i < n - 1 <==> k >= least_of(c, (n - 1) as nat));
            }
        }
        lemma_below_raised(old, new, row.0 as int, g(row), 256);
    }
}

proof fn lemma_points_from_the_top(c: ContractState, n: nat, army: u8)
    requires
        keyed(c),
        n <= tally_order(c).len(),
    ensures
        points_for(c, tally_order(c).take(n as int), army) == points_down_to(
            c,
            army,
            least_of(c, n),
        ),
{
    let entries = c.battlefields.entries;
    let least = least_of(c, n);
    let g = worth_to(c, army);
    lemma_from_the_top(c, n, g);
    let one = |k: int| row_value_from(entries, g, least, k as u8);
    let two = |k: int|
        if k >= least {
            worth_at(c, army, k as u8)
        } else {
            0
        };
    assert forall|k: int| 0 <= k < 256 implies #[trigger] one(k) == two(k) by {
        law_who_wins_a_battlefield(c, k as u8);
        assert(victor(c, k as u8) == Some(army) <==> is_ahead(c, army, k as u8));
    }
    lemma_below_same(one, two, 256);
}

/// What the battlefields with ids of at least `least` add to the prize pool.
pub open spec fn pool_down_to(c: ContractState, least: int) -> nat {
    sum_below(
        |k: int|
            if k >= least {
                lost_at(c, k as u8)
            } else {
                0
            },
        256,
    )
}

proof fn lemma_pool_from_the_top(c: ContractState, n: nat)
    requires
        keyed(c),
        n <= tally_order(c).len(),
    ensures
        pool_of(c, tally_order(c).take(n as int)) == pool_down_to(c, least_of(c, n)),
{
    let entries = c.battlefields.entries;
    let least = least_of(c, n);
    lemma_from_the_top(c, n, lost_on(c));
    let one = |k: int| row_value_from(entries, lost_on(c), least, k as u8);
    let two = |k: int|
        if k >= least {
            lost_at(c, k as u8)
        } else {
            0
        };
    assert forall|k: int| 0 <= k < 256 implies #[trigger] one(k) == two(k) by {
        lemma_lost(c, k as u8);
    }
    lemma_below_same(one, two, 256);
}

/// A tally that is refused stores no winner and no prize pool, and leaves the phase. It has settled
/// the battlefields from the highest id down to some id, and no others.
pub proof fn law_what_a_refused_tally_leaves(c: ContractState, now: Timestamp)
    requires
        keyed(c),
        !tallies(c, now),
    ensures
        ({
            let d = after_tally(c, now);
            &&& d == (ContractState { armies: d.armies, battlefields: d.battlefields, ..c })
            &&& exists|least: int| #[trigger] settled_down_to(c, d, least)
        }),
{
    let d = after_tally(c, now);
    if tally_refusal(c, now) is None {
        let fields = tally_order(c);
        lemma_order(c);
        lemma_battles_keep_the_rest(c, fields);
        let m = lemma_battles_settle(c, fields);
        let n = if battles(c, fields) is Decided {
            fields.len()
        } else {
            m
        };
        assert(fields.take(fields.len() as int) =~= fields);
        lemma_settled_down_to(c, d, n);
    } else {
        assert(settled_down_to(c, d, 256)) by {
            assert forall|a: u8| #[trigger] points_down_to(c, a, 256) == 0 by {
                let g = |k: int|
                    if k >= 256 {
                        worth_at(c, a, k as u8)
                    } else {
                        0
                    };
                lemma_below_nothing(g, 256);
            }
        }
    }
}

/// Whether the battlefields with ids of at least `least` are settled in `d`, and no others.
pub open spec fn settled_down_to(c: ContractState, d: ContractState, least: int) -> bool {
    &&& forall|a: u8|
        at(c.armies.entries, a) is Some ==> ({
            let old = at(c.armies.entries, a)->Some_0;
            let new = #[trigger] at(d.armies.entries, a);
            &&& new is Some
            &&& new->Some_0.name == old.name
            &&& new->Some_0.ipfs_uri == old.ipfs_uri
            &&& new->Some_0.id == old.id
            &&& new->Some_0.total_staked == old.total_staked
            &&& new->Some_0.victory_points == old.victory_points + points_down_to(c, a, least)
        })
    &&& forall|k: u8|
        at(c.battlefields.entries, k) is Some ==> ({
            let old = at(c.battlefields.entries, k)->Some_0;
            let new = #[trigger] at(d.battlefields.entries, k);
            &&& new is Some
            &&& k < least ==> new->Some_0 == old
            &&& k >= least ==> {
                &&& new->Some_0.name == old.name
                &&& new->Some_0.ipfs_uri == old.ipfs_uri
                &&& new->Some_0.id == old.id
                &&& new->Some_0.value == old.value
                &&& new->Some_0.winner is Some ==> is_ahead(c, new->Some_0.winner->Some_0, k)
                &&& new->Some_0.winner is None ==> !is_won(c, k)
            }
        })
}

proof fn lemma_settled_down_to(c: ContractState, d: ContractState, n: nat)
    requires
        keyed(c),
        n <= tally_order(c).len(),
        settled(c, d, tally_order(c).take(n as int)),
    ensures
        settled_down_to(c, d, least_of(c, n)),
{
    let least = least_of(c, n);
    let fields = tally_order(c);
    let done = fields.take(n as int);
    lemma_order(c);
    assert forall|a: u8| at(c.armies.entries, a) is Some implies ({
        let old = at(c.armies.entries, a)->Some_0;
        let new = #[trigger] at(d.armies.entries, a);
        &&& new is Some
        &&& new->Some_0.name == old.name
        &&& new->Some_0.ipfs_uri == old.ipfs_uri
        &&& new->Some_0.id == old.id
        &&& new->Some_0.total_staked == old.total_staked
        &&& new->Some_0.victory_points == old.victory_points + points_down_to(c, a, least)
    }) by {
        assert(slot(d.armies.entries, a) is Some);
        lemma_points_from_the_top(c, n, a);
    }
    assert forall|k: u8| at(c.battlefields.entries, k) is Some implies ({
        let old = at(c.battlefields.entries, k)->Some_0;
        let new = #[trigger] at(d.battlefields.entries, k);
        &&& new is Some
        &&& k < least ==> new->Some_0 == old
        &&& k >= least ==> {
            &&& new->Some_0.name == old.name
            &&& new->Some_0.ipfs_uri == old.ipfs_uri
            &&& new->Some_0.id == old.id
            &&& new->Some_0.value == old.value
            &&& new->Some_0.winner is Some ==> is_ahead(c, new->Some_0.winner->Some_0, k)
            &&& new->Some_0.winner is None ==> !is_won(c, k)
        }
    }) by {
        law_who_wins_a_battlefield(c, k);
        lemma_from_the_top(c, n, lost_on(c));
        assert(load_of(slot(c.battlefields.entries, k)) is Ok);
        let i = choose|i: int| 0 <= i < fields.len() && (#[trigger] fields[i]).0 == k;
        assert forall|j: int| 0 <= j < done.len() implies #[trigger] done[j] == fields[j] by {}
        if k >= least {
            assert(done[i].0 == k);
        } else {
            assert forall|j: int| 0 <= j < done.len() implies (#[trigger] done[j]).0 != k by {
                assert(fields[j].0 >= least);
            }
            assert(slot(d.battlefields.entries, k) == slot(c.battlefields.entries, k));
        }
    }
}

// ---------------------------------------------------------------------------
// Where a tally stops
// ---------------------------------------------------------------------------

/// What is staked on a battlefield on the losers with ids below `n`.
pub open spec fn lost_before(c: ContractState, field: u8, n: nat) -> nat {
    sum_below(
        |a: int|
            if is_ahead(c, a as u8, field) {
                0
            } else {
                total_at(c.army_totals_by_battlefield.entries, (a as u8, field))
            },
        n,
    )
}

/// The stakes of the losers are added up by ascending id, up to the one that does not fit.
proof fn lemma_where_a_sum_stops(c: ContractState, field: u8, winner: u8, n: nat)
    requires
        victor(c, field) == Some(winner),
        n <= 256,
    ensures
        match lost_below(field_totals(c, field), winner, n) {
            Ok(sum) => sum == lost_before(c, field, n),
            Err(e) => exists|a: u8| #[trigger] sum_stops_at(c, field, a, e),
        },
    decreases n,
{
    if n > 0 {
        let a = (n - 1) as u8;
        lemma_where_a_sum_stops(c, field, winner, (n - 1) as nat);
        law_who_wins_a_battlefield(c, field);
        assert(victor(c, field) == Some(a) <==> is_ahead(c, a, field));
        assert(field_totals(c, field)[n - 1] == total_on(c, a, field));
        if lost_below(field_totals(c, field), winner, (n - 1) as nat) is Ok {
            if let Err(e) = lost_below(field_totals(c, field), winner, n) {
                assert(sum_stops_at(c, field, a, e));
            }
        }
    }
}

/// Whether the stake of an army is the first that does not fit into what the losers of a
/// battlefield have staked, and the failure tells so.
pub open spec fn sum_stops_at(c: ContractState, field: u8, army: u8, e: Failure) -> bool {
    let stake = total_at(c.army_totals_by_battlefield.entries, (army, field));
    &&& !is_ahead(c, army, field)
    &&& lost_before(c, field, army as nat) <= u128::MAX
    &&& lost_before(c, field, army as nat) + stake > u128::MAX
    &&& e == too_large(lost_before(c, field, army as nat) as u128, stake as u128)
}

/// Whether a tally stops at a battlefield with the failure `e`, where those with ids of at least
/// `least` are settled and `field` is the next. What the losers have staked comes first, then the
/// prize pool, then the army that is ahead and its points.
pub open spec fn stops_at(c: ContractState, least: int, field: u8, e: Failure) -> bool {
    let pool = pool_down_to(c, least);
    &&& field < least
    &&& at(c.battlefields.entries, field) is Some
    &&& forall|k: u8| field < k < least ==> #[trigger] at(c.battlefields.entries, k) is None
    &&& if lost(c, field) > u128::MAX {
        exists|a: u8| #[trigger] sum_stops_at(c, field, a, e)
    } else if pool + lost(c, field) > u128::MAX {
        e == too_large(pool as u128, lost(c, field) as u128)
    } else {
        exists|w: u8|
            {
                let army = at(c.armies.entries, w)->Some_0;
                let points = army.victory_points + points_down_to(c, w, least);
                let value = at(c.battlefields.entries, field)->Some_0.value;
                &&& #[trigger] is_ahead(c, w, field)
                &&& if junk_at(c.armies.entries, w) {
                    e == unreadable()
                } else if !c.armies.entries.contains_key(w) {
                    e == Failure::NoArmy { id: w }
                } else {
                    points + value > u8::MAX && e == too_large(points as u128, value as u128)
                }
            }
    }
}

/// Whether a tally stops after the last battlefield with the failure `e`.
pub open spec fn stops_after_all(c: ContractState, least: int, e: Failure) -> bool {
    &&& forall|k: u8| k < least ==> #[trigger] at(c.battlefields.entries, k) is None
    &&& if !armies_can_be_read(c) {
        e == unreadable()
    } else {
        e == Failure::NoArmies && forall|a: u8| #[trigger] at(c.armies.entries, a) is None
    }
}

proof fn lemma_first_refusal(c: ContractState, fields: Seq<(u8, BattlefieldView)>) -> (n: nat)
    requires
        battles(c, fields) is Refused,
    ensures
        n < fields.len(),
        match battles(c, fields.take(n as int)) {
            Battle::Decided(d, pool) => battle(d, fields[n as int].1, pool) == battles(c, fields),
            Battle::Refused(_, _) => false,
        },
        distinct_fields(fields) ==> distinct_fields(fields.take(n as int)),
    decreases fields.len(),
{
    let front = fields.drop_last();
    if battles(c, front) is Refused {
        let n = lemma_first_refusal(c, front);
        assert(front.take(n as int) =~= fields.take(n as int));
        assert(front[n as int] == fields[n as int]);
        if distinct_fields(fields) {
            lemma_front(c, fields);
        }
        n
    } else {
        assert(fields.take(fields.len() - 1) =~= front);
        if distinct_fields(fields) {
            lemma_front(c, fields);
        }
        (fields.len() - 1) as nat
    }
}

/// A tally goes through the battlefields from the highest id down. Where it is refused once the
/// battle has ended, it has stopped at the first of them that cannot be settled, or after the last
/// one, and it has settled those before it.
pub proof fn law_where_a_tally_stops(c: ContractState, now: Timestamp)
    requires
        keyed(c),
        !tallies(c, now),
        held(c.config) is Some,
        !goes_on(held(c.config)->Some_0.start, held(c.config)->Some_0.battle_duration, now),
    ensures
        ({
            let d = after_tally(c, now);
            let e = tally_effect(c, now).1->Err_0;
            exists|least: int| #[trigger]
                settled_down_to(c, d, least) && (stops_after_all(c, least, e) || exists|k: u8|
                    #[trigger] stops_at(c, least, k, e))
        }),
{
    let fields = tally_order(c);
    let d = after_tally(c, now);
    let e = tally_effect(c, now).1->Err_0;
    lemma_order(c);
    if battles(c, fields) is Refused {
        let n = lemma_first_refusal(c, fields);
        let m = lemma_battles_settle(c, fields.take(n as int));
        let least = least_of(c, n);
        let row = fields[n as int];
        lemma_settled_down_to(c, d, n);
        lemma_stop(c, d, n, e);
        assert(stops_at(c, least, row.0, e));
    } else {
        let n = fields.len();
        let m = lemma_battles_settle(c, fields);
        let least = least_of(c, n);
        assert(fields.take(n as int) =~= fields);
        lemma_settled_down_to(c, d, n);
        lemma_crowning(c, d, fields);
        lemma_from_the_top(c, n, lost_on(c));
        assert forall|k: u8| k < least implies #[trigger] at(c.battlefields.entries, k) is None by {
            if at(c.battlefields.entries, k) is Some {
                assert(load_of(slot(c.battlefields.entries, k)) is Ok);
                let i = choose|i: int| 0 <= i < fields.len() && (#[trigger] fields[i]).0 == k;
                assert(fields[i].0 >= least);
            }
        }
        assert(stops_after_all(c, least, e));
    }
}

proof fn lemma_stop(c: ContractState, d: ContractState, n: nat, e: Failure)
    requires
        keyed(c),
        n < tally_order(c).len(),
        settled(c, d, tally_order(c).take(n as int)),
        pool_of(c, tally_order(c).take(n as int)) <= u128::MAX,
        battle(
            d,
            tally_order(c)[n as int].1,
            pool_of(c, tally_order(c).take(n as int)) as u128,
        ) == Battle::Refused(d, e),
    ensures
        stops_at(c, least_of(c, n), tally_order(c)[n as int].0, e),
{
    let fields = tally_order(c);
    let least = least_of(c, n);
    let row = fields[n as int];
    let k = row.0;
    lemma_order(c);
    lemma_from_the_top(c, n, lost_on(c));
    lemma_from_the_top(c, n + 1, lost_on(c));
    lemma_pool_from_the_top(c, n);
    lemma_same_totals(c, d, k);
    lemma_lost(c, k);
    law_dead_stake_is_the_losers(c, k);
    law_who_wins_a_battlefield(c, k);
    assert(fields[n as int].0 == k);
    assert(row.1.id == k);
    assert(at(c.battlefields.entries, k) == Some(row.1));
    assert(k < least);
    assert forall|j: u8| k < j < least implies #[trigger] at(c.battlefields.entries, j) is None by {
        if at(c.battlefields.entries, j) is Some {
            assert(load_of(slot(c.battlefields.entries, j)) is Ok);
            let i = choose|i: int| 0 <= i < fields.len() && (#[trigger] fields[i]).0 == j;
            assert(i < n <==> fields[i].0 >= least);
            assert(i < n + 1 <==> fields[i].0 >= least_of(c, n + 1));
        }
    }
    if lost(c, k) > u128::MAX {
        let w = victor(c, k)->Some_0;
        lemma_where_a_sum_stops(c, k, w, 256);
    } else if pool_down_to(c, least) + lost(c, k) <= u128::MAX {
        let w = victor(c, k)->Some_0;
        assert(victor(c, k) is Some);
        assert(is_ahead(c, w, k));
        lemma_points_from_the_top(c, n, w);
        assert(slot(d.armies.entries, w) == slot(d.armies.entries, w));
    }
}

} // verus!
