//! What holds of setting the game up and of staking.
use vstd::prelude::*;

use crate::accounts::{
    army_account, balanced, field_account, fields_sum, in_order, indexed, keyed, names_all,
    one_sided, player_account, player_fields_sum, players_field_sum, players_sum, positive,
    same_roster, stake_account, undecided,
};
use crate::error::{Failure, StorageFailure};
use crate::ledger::{
    load_of, rows, rows_below, slot, values, ContractState, Pointer, Slot, StakeKey,
};
use crate::msg::ResponseView;
use crate::rules::{
    admitted, army_books, defects, fresh_army, fresh_battlefield, oversized, set_up, stake_effect,
};
use crate::state::{
    ArmyInfo, ArmyView, BattlefieldInfo, BattlefieldView, CoinView, ConfigView, MessageInfoView,
    StakeInfoView,
};
use crate::sums::{
    lemma_below_nothing, lemma_below_raised, lemma_below_same, lemma_exchange_list,
    lemma_over_part, lemma_over_raised, lemma_over_same, sum_below, sum_over,
};

verus! {

/// The state after a stake.
pub open spec fn after_stake(
    c: ContractState,
    info: MessageInfoView,
    army: u8,
    field: u8,
) -> ContractState {
    stake_effect(c, info, army, field).0
}

/// Whether a stake is accepted.
pub open spec fn accepts(c: ContractState, info: MessageInfoView, army: u8, field: u8) -> bool {
    stake_effect(c, info, army, field).1 is Ok
}

/// The amount that an accepted stake is of.
pub open spec fn stake_amount(c: ContractState, info: MessageInfoView) -> nat {
    admitted(c, info)->Ok_0 as nat
}

// ---------------------------------------------------------------------------
// Staking
// ---------------------------------------------------------------------------

/// A stake is refused while the game is not open, and changes nothing.
pub proof fn law_stake_only_while_open(
    c: ContractState,
    info: MessageInfoView,
    army: u8,
    field: u8,
)
    requires
        load_of(c.config) is Ok,
        load_of(c.phase) == Ok::<bool, StorageFailure>(false),
    ensures
        stake_effect(c, info, army, field) == (c, Err::<ResponseView, Failure>(Failure::NotOpen)),
{
}

/// A stake that is accepted was made while the game was open, with one coin of the game's
/// denomination, on an army that exists, by a player who is on no other side in the
/// battlefield; and it is of the amount of that coin.
pub proof fn law_accepted_stake(c: ContractState, info: MessageInfoView, army: u8, field: u8)
    requires
        accepts(c, info, army, field),
    ensures
        load_of(c.phase) == Ok::<bool, StorageFailure>(true),
        load_of(c.config) is Ok,
        info.funds.len() == 1,
        info.funds[0].denom == load_of(c.config)->Ok_0.denom,
        info.funds[0].amount > 0,
        load_of(slot(c.armies.entries, army)) is Ok,
        !defects(c, info.sender, army, field),
        stake_amount(c, info) == info.funds[0].amount,
{
}

/// A stake that is refused changes nothing.
pub proof fn law_refused_stake_changes_nothing(
    c: ContractState,
    info: MessageInfoView,
    army: u8,
    field: u8,
)
    requires
        !accepts(c, info, army, field),
    ensures
        after_stake(c, info, army, field) == c,
{
}

/// A player who has a stake with another army on the battlefield is refused as a traitor, where
/// the armies' books would take the stake.
pub proof fn law_traitors_are_refused(
    c: ContractState,
    info: MessageInfoView,
    army: u8,
    field: u8,
    other: u8,
)
    requires
        army_books(c, info, army, field) is Ok,
        other != army,
        slot(c.stakes.entries, (other, field, info.sender)) is Some,
    ensures
        stake_effect(c, info, army, field) == (c, Err::<ResponseView, Failure>(Failure::Traitor)),
{
}

/// An accepted stake adds its amount to the account of the army, to that of the army on the
/// battlefield, to that of the player with the army, and to the stake itself.
pub proof fn law_stake_is_credited(c: ContractState, info: MessageInfoView, army: u8, field: u8)
    requires
        accepts(c, info, army, field),
    ensures
        ({
            let d = after_stake(c, info, army, field);
            let x = stake_amount(c, info);
            &&& army_account(d, army) == army_account(c, army) + x
            &&& field_account(d, army, field) == field_account(c, army, field) + x
            &&& player_account(d, info.sender, army) == player_account(c, info.sender, army) + x
            &&& stake_account(d, info.sender, army, field) == stake_account(
                c,
                info.sender,
                army,
                field,
            ) + x
        }),
{
}

/// A stake leaves all other accounts, and all else that the contract keeps, as they are.
pub proof fn law_stake_touches_nothing_else(
    c: ContractState,
    info: MessageInfoView,
    army: u8,
    field: u8,
)
    ensures
        ({
            let d = after_stake(c, info, army, field);
            &&& d == (ContractState {
                armies: d.armies,
                army_totals_by_battlefield: d.army_totals_by_battlefield,
                player_totals_by_army: d.player_totals_by_army,
                stakes: d.stakes,
                ..c
            })
            &&& forall|a: u8|
                a != army ==> #[trigger] slot(d.armies.entries, a) == slot(c.armies.entries, a)
            &&& forall|a: u8, f: u8|
                (a, f) != (army, field) ==> #[trigger] slot(
                    d.army_totals_by_battlefield.entries,
                    (a, f),
                ) == slot(c.army_totals_by_battlefield.entries, (a, f))
            &&& forall|p: Seq<char>, a: u8|
                (p, a) != (info.sender, army) ==> #[trigger] slot(d.player_totals_by_army, (p, a))
                    == slot(c.player_totals_by_army, (p, a))
            &&& forall|p: Seq<char>, a: u8, f: u8|
                (a, f, p) != (army, field, info.sender) ==> #[trigger] slot(
                    d.stakes.entries,
                    (a, f, p),
                ) == slot(c.stakes.entries, (a, f, p))
        }),
{
}

/// A stake keeps the configuration, and the armies and battlefields with their ids.
pub proof fn law_stake_keeps_roster(c: ContractState, info: MessageInfoView, army: u8, field: u8)
    ensures
        same_roster(c, after_stake(c, info, army, field)),
{
    law_stake_touches_nothing_else(c, info, army, field);
}

/// The list of players with one more name, if it is new.
pub open spec fn with_player(players: Seq<Seq<char>>, player: Seq<char>) -> Seq<Seq<char>> {
    if players.contains(player) {
        players
    } else {
        players.push(player)
    }
}

proof fn lemma_stake_keeps_balance(
    c: ContractState,
    players: Seq<Seq<char>>,
    info: MessageInfoView,
    army: u8,
    field: u8,
)
    requires
        balanced(c, players),
        accepts(c, info, army, field),
    ensures
        balanced(after_stake(c, info, army, field), with_player(players, info.sender)),
{
    let d = after_stake(c, info, army, field);
    let x = stake_amount(c, info);
    let p = info.sender;
    let all = with_player(players, p);
    law_stake_is_credited(c, info, army, field);
    law_stake_touches_nothing_else(c, info, army, field);
    assert forall|q: Seq<char>, b: u8, g: u8| #[trigger]
        stake_account(d, q, b, g) == stake_account(c, q, b, g) + (if q == p && b == army && g
            == field {
            x
        } else {
            0
        }) by {
        if (q, b, g) != (p, army, field) {
            assert(slot(d.stakes.entries, (b, g, q)) == slot(c.stakes.entries, (b, g, q)));
        }
    }
    assert forall|b: u8, f: u8| #[trigger]
        field_account(d, b, f) == field_account(c, b, f) + (if b == army && f == field {
            x
        } else {
            0
        }) by {
        if (b, f) != (army, field) {
            assert(slot(d.army_totals_by_battlefield.entries, (b, f)) == slot(
                c.army_totals_by_battlefield.entries,
                (b, f),
            ));
        }
    }
    assert(all.contains(p)) by {
        if !players.contains(p) {
            assert(all[all.len() - 1] == p);
        }
    }
    assert forall|q: Seq<char>| players.contains(q) implies #[trigger] all.contains(q) by {
        let i = choose|i: int| 0 <= i < players.len() && players[i] == q;
        assert(all[i] == q);
    }
    assert(names_all(d, all)) by {
        assert(all.no_duplicates());
        assert forall|q: Seq<char>, a: u8, f: u8| #[trigger]
            stake_account(d, q, a, f) > 0 implies all.contains(q) by {
            if q != p {
                assert(stake_account(c, q, a, f) > 0);
            }
        }
    }
    assert forall|a: u8| #[trigger] army_account(d, a) == fields_sum(d, a) by {
        assert(army_account(c, a) == fields_sum(c, a));
        let here = if a == army {
            x
        } else {
            0
        };
        lemma_below_raised(
            |f: int| field_account(c, a, f as u8),
            |f: int| field_account(d, a, f as u8),
            field as int,
            here,
            256,
        );
        if a != army {
            assert(slot(d.armies.entries, a) == slot(c.armies.entries, a));
        }
    }
    assert forall|a: u8, f: u8| #[trigger]
        field_account(d, a, f) == players_field_sum(d, all, a, f) by {
        assert(field_account(c, a, f) == players_field_sum(c, players, a, f));
        let old = |q: Seq<char>| stake_account(c, q, a, f);
        let new = |q: Seq<char>| stake_account(d, q, a, f);
        let here = if a == army && f == field {
            x
        } else {
            0
        };
        lemma_over_raised(all, old, new, p, here);
        if !players.contains(p) {
            assert(all.drop_last() =~= players);
            assert(stake_account(c, p, a, f) == 0);
        }
    }
    assert forall|q: Seq<char>, a: u8| #[trigger]
        player_account(d, q, a) == player_fields_sum(d, q, a) by {
        assert(player_account(c, q, a) == player_fields_sum(c, q, a));
        let here = if q == p && a == army {
            x
        } else {
            0
        };
        lemma_below_raised(
            |f: int| stake_account(c, q, a, f as u8),
            |f: int| stake_account(d, q, a, f as u8),
            field as int,
            here,
            256,
        );
        if (q, a) != (p, army) {
            assert(slot(d.player_totals_by_army, (q, a)) == slot(c.player_totals_by_army, (q, a)));
        }
    }
}

/// Where the books are in order, they still are after a stake: they agree, every value is under
/// the key that it names, amounts are positive, and players are on one side in a battlefield.
pub proof fn law_stake_keeps_order(
    c: ContractState,
    players: Seq<Seq<char>>,
    info: MessageInfoView,
    army: u8,
    field: u8,
)
    requires
        in_order(c, players),
    ensures
        ({
            let d = after_stake(c, info, army, field);
            if accepts(c, info, army, field) {
                in_order(d, with_player(players, info.sender))
            } else {
                in_order(d, players)
            }
        }),
{
    let d = after_stake(c, info, army, field);
    let p = info.sender;
    if accepts(c, info, army, field) {
        lemma_stake_keeps_balance(c, players, info, army, field);
        law_accepted_stake(c, info, army, field);
        law_stake_touches_nothing_else(c, info, army, field);
        assert(one_sided(d)) by {
            assert forall|q: Seq<char>, a: u8, b: u8, f: u8|
                (#[trigger] slot(d.stakes.entries, (a, f, q))) is Some && (#[trigger] slot(
                    d.stakes.entries,
                    (b, f, q),
                )) is Some implies a == b by {
                if q == p && f == field {
                    if a != army {
                        assert(slot(c.stakes.entries, (a, field, p)) is Some);
                    }
                    if b != army {
                        assert(slot(c.stakes.entries, (b, field, p)) is Some);
                    }
                } else {
                    assert(slot(c.stakes.entries, (a, f, q)) is Some);
                    assert(slot(c.stakes.entries, (b, f, q)) is Some);
                }
            }
        }
        assert(positive(d));
        assert(keyed(d));
        let key = (army, field, p);
        assert(load_of(slot(c.stakes.entries, key)) matches Ok(s) ==> s.player == p && s.army
            == army && s.battlefield_id == field);
        assert(indexed(d));
    }
}

/// Where the books agree, what the players have staked with an army adds up to what is staked on
/// the army.
pub proof fn law_players_add_up(c: ContractState, players: Seq<Seq<char>>, army: u8)
    requires
        balanced(c, players),
    ensures
        players_sum(c, players, army) == army_account(c, army),
{
    let h = |p: Seq<char>, f: int| stake_account(c, p, army, f as u8);
    let by_player = |p: Seq<char>| sum_below(|f: int| h(p, f), 256);
    let by_field = |f: int| sum_over(players, |p: Seq<char>| h(p, f));
    lemma_exchange_list(players, h, 256);
    assert forall|p: Seq<char>| by_player(p) == player_account(c, p, army) by {
        assert(player_account(c, p, army) == player_fields_sum(c, p, army));
        lemma_below_same(|f: int| h(p, f), |f: int| stake_account(c, p, army, f as u8), 256);
    }
    lemma_over_same(players, by_player, |p: Seq<char>| player_account(c, p, army));
    assert forall|f: int| 0 <= f < 256 implies #[trigger] by_field(f) == field_account(
        c,
        army,
        f as u8,
    ) by {
        assert(field_account(c, army, f as u8) == players_field_sum(c, players, army, f as u8));
        lemma_over_same(
            players,
            |p: Seq<char>| h(p, f),
            |p: Seq<char>| stake_account(c, p, army, f as u8),
        );
    }
    lemma_below_same(by_field, |f: int| field_account(c, army, f as u8), 256);
    assert(army_account(c, army) == fields_sum(c, army));
}

/// Where the books agree, no player has staked more with an army than is staked on it.
pub proof fn law_player_is_part_of_army(
    c: ContractState,
    players: Seq<Seq<char>>,
    player: Seq<char>,
    army: u8,
)
    requires
        balanced(c, players),
    ensures
        player_account(c, player, army) <= army_account(c, army),
{
    if players.contains(player) {
        law_players_add_up(c, players, army);
        lemma_over_part(players, |p: Seq<char>| player_account(c, p, army), player);
    } else {
        assert(player_account(c, player, army) == player_fields_sum(c, player, army));
        let stakes = |f: int| stake_account(c, player, army, f as u8);
        assert forall|f: int| 0 <= f < 256 implies #[trigger] stakes(f) == 0 by {
            assert(stake_account(c, player, army, f as u8) == 0);
        }
        lemma_below_nothing(stakes, 256);
    }
}

/// The message that pays two amounts at once.
pub open spec fn paying(info: MessageInfoView, denom: Seq<char>, amount: u128) -> MessageInfoView {
    MessageInfoView { sender: info.sender, funds: seq![CoinView { denom, amount }] }
}

/// Two stakes of a player at the same place add up: they leave the state that one stake of
/// the sum leaves, and that one is accepted.
pub proof fn law_stakes_add_up(
    c: ContractState,
    info: MessageInfoView,
    denom: Seq<char>,
    x: u128,
    y: u128,
    army: u8,
    field: u8,
)
    requires
        accepts(c, paying(info, denom, x), army, field),
        accepts(
            after_stake(c, paying(info, denom, x), army, field),
            paying(info, denom, y),
            army,
            field,
        ),
    ensures
        x + y <= u128::MAX,
        accepts(c, paying(info, denom, (x + y) as u128), army, field),
        after_stake(
            after_stake(c, paying(info, denom, x), army, field),
            paying(info, denom, y),
            army,
            field,
        ) == after_stake(c, paying(info, denom, (x + y) as u128), army, field),
{
    let c1 = after_stake(c, paying(info, denom, x), army, field);
    let c2 = after_stake(c1, paying(info, denom, y), army, field);
    let d = after_stake(c, paying(info, denom, (x + y) as u128), army, field);
    assert(c2.armies.entries =~= d.armies.entries);
    assert(c2.army_totals_by_battlefield.entries =~= d.army_totals_by_battlefield.entries);
    assert(c2.stakes.entries =~= d.stakes.entries);
    assert(c2.stakes.by_army =~= d.stakes.by_army);
    assert(c2.stakes.by_battlefield =~= d.stakes.by_battlefield);
    assert(c2.stakes.by_player =~= d.stakes.by_player);
    assert(c2.player_totals_by_army =~= d.player_totals_by_army);
}

/// What a player has staked decides nothing about the treason of another.
proof fn lemma_defects_alone(
    c: ContractState,
    info: MessageInfoView,
    army: u8,
    field: u8,
    player: Seq<char>,
    army2: u8,
    field2: u8,
)
    requires
        info.sender != player,
    ensures
        defects(after_stake(c, info, army, field), player, army2, field2) == defects(
            c,
            player,
            army2,
            field2,
        ),
{
    let d = after_stake(c, info, army, field);
    law_stake_touches_nothing_else(c, info, army, field);
    assert forall|a: u8| #[trigger]
        slot(d.stakes.entries, (a, field2, player)) == slot(
            c.stakes.entries,
            (a, field2, player),
        ) by {}
    if defects(c, player, army2, field2) {
        let a = choose|a: u8|
            a != army2 && #[trigger] slot(c.stakes.entries, (a, field2, player)) is Some;
        assert(slot(d.stakes.entries, (a, field2, player)) is Some);
    }
}

/// The order of two accepted stakes of different players does not matter.
pub proof fn law_stakes_of_players_commute(
    c: ContractState,
    one: MessageInfoView,
    two: MessageInfoView,
    army1: u8,
    field1: u8,
    army2: u8,
    field2: u8,
)
    requires
        one.sender != two.sender,
        accepts(c, one, army1, field1),
        accepts(after_stake(c, one, army1, field1), two, army2, field2),
    ensures
        accepts(c, two, army2, field2),
        accepts(after_stake(c, two, army2, field2), one, army1, field1),
        after_stake(after_stake(c, one, army1, field1), two, army2, field2) == after_stake(
            after_stake(c, two, army2, field2),
            one,
            army1,
            field1,
        ),
{
    lemma_defects_alone(c, one, army1, field1, two.sender, army2, field2);
    lemma_defects_alone(c, two, army2, field2, one.sender, army1, field1);
    let d1 = after_stake(after_stake(c, one, army1, field1), two, army2, field2);
    let d2 = after_stake(after_stake(c, two, army2, field2), one, army1, field1);
    assert(d1.armies.entries =~= d2.armies.entries);
    assert(d1.army_totals_by_battlefield.entries =~= d2.army_totals_by_battlefield.entries);
    assert(d1.stakes.entries =~= d2.stakes.entries);
    assert(d1.stakes.by_army =~= d2.stakes.by_army);
    assert(d1.stakes.by_battlefield =~= d2.stakes.by_battlefield);
    assert(d1.stakes.by_player =~= d2.stakes.by_player);
    assert(d1.player_totals_by_army =~= d2.player_totals_by_army);
}

// ---------------------------------------------------------------------------
// Setting the game up
// ---------------------------------------------------------------------------

/// Whether nothing has been kept yet of armies, battlefields, stakes and withdrawals.
pub open spec fn blank(c: ContractState) -> bool {
    &&& c.armies.entries == Map::<u8, Slot<ArmyView>>::empty()
    &&& c.battlefields.entries == Map::<u8, Slot<BattlefieldView>>::empty()
    &&& c.army_totals_by_battlefield.entries == Map::<(u8, u8), Slot<u128>>::empty()
    &&& c.player_totals_by_army == Map::<(Seq<char>, u8), Slot<u128>>::empty()
    &&& c.stakes.entries == Map::<StakeKey, Slot<StakeInfoView>>::empty()
    &&& c.stakes.by_army == Map::<(u8, StakeKey), Pointer>::empty()
    &&& c.stakes.by_battlefield == Map::<(u8, StakeKey), Pointer>::empty()
    &&& c.stakes.by_player == Map::<(Seq<char>, StakeKey), Pointer>::empty()
    &&& c.stakes.strays == Set::<Seq<char>>::empty()
    &&& c.withdrawals == Map::<Seq<char>, Slot<u128>>::empty()
}

/// Once the game is set up, it is open, the configuration reads as it was given, and the
/// armies and the battlefields read as they were given under the ids from one on.
pub proof fn law_set_up_reads_back(
    c: ContractState,
    name: Seq<char>,
    version: Seq<char>,
    armies: Seq<ArmyInfo>,
    battlefields: Seq<BattlefieldInfo>,
    config: ConfigView,
)
    requires
        oversized(armies.len(), battlefields.len()) is None,
    ensures
        ({
            let d = set_up(c, name, version, armies, battlefields, config);
            &&& load_of(d.phase) == Ok::<bool, StorageFailure>(true)
            &&& load_of(d.config) == Ok::<ConfigView, StorageFailure>(config)
            &&& forall|i: int|
                0 <= i < armies.len() ==> load_of(
                    slot(d.armies.entries, #[trigger] ((i + 1) as u8)),
                ) == Ok::<ArmyView, StorageFailure>(fresh_army(armies[i], (i + 1) as u8))
            &&& forall|i: int|
                0 <= i < battlefields.len() ==> load_of(
                    slot(d.battlefields.entries, #[trigger] ((i + 1) as u8)),
                ) == Ok::<BattlefieldView, StorageFailure>(
                    fresh_battlefield(battlefields[i], (i + 1) as u8),
                )
        }),
{
}

/// Where the ids from one on, and no others, hold the members of a list, the rows are the list.
proof fn lemma_rows_of_list<V>(entries: Map<u8, Slot<V>>, list: Seq<V>, n: nat)
    requires
        list.len() <= 255,
        n <= 256,
        forall|id: u8| #[trigger]
            slot(entries, id) == (if 1 <= id <= list.len() {
                Some(Slot::Readable(list[id - 1]))
            } else {
                None
            }),
    ensures
        ({
            let len = if n == 0 {
                0
            } else if n - 1 <= list.len() {
                n - 1
            } else {
                list.len() as int
            };
            &&& rows_below(entries, n).len() == len
            &&& forall|i: int|
                0 <= i < len ==> #[trigger] rows_below(entries, n)[i] == ((i + 1) as u8, list[i])
        }),
    decreases n,
{
    if n > 0 {
        lemma_rows_of_list(entries, list, (n - 1) as nat);
        assert(slot(entries, (n - 1) as u8) == (if 1 <= n - 1 <= list.len() {
            Some(Slot::Readable(list[n - 2]))
        } else {
            None
        }));
    }
}

/// A game that is set up on blank storage lists exactly the armies and the battlefields that
/// were given, in their order.
pub proof fn law_set_up_lists(
    c: ContractState,
    name: Seq<char>,
    version: Seq<char>,
    armies: Seq<ArmyInfo>,
    battlefields: Seq<BattlefieldInfo>,
    config: ConfigView,
)
    requires
        blank(c),
        oversized(armies.len(), battlefields.len()) is None,
    ensures
        ({
            let d = set_up(c, name, version, armies, battlefields, config);
            &&& values(rows(d.armies.entries)) == Seq::new(
                armies.len(),
                |i: int| fresh_army(armies[i], (i + 1) as u8),
            )
            &&& values(rows(d.battlefields.entries)) == Seq::new(
                battlefields.len(),
                |i: int| fresh_battlefield(battlefields[i], (i + 1) as u8),
            )
        }),
{
    let d = set_up(c, name, version, armies, battlefields, config);
    let army_list = Seq::new(armies.len(), |i: int| fresh_army(armies[i], (i + 1) as u8));
    let field_list = Seq::new(
        battlefields.len(),
        |i: int| fresh_battlefield(battlefields[i], (i + 1) as u8),
    );
    lemma_rows_of_list(d.armies.entries, army_list, 256);
    lemma_rows_of_list(d.battlefields.entries, field_list, 256);
    assert(values(rows(d.armies.entries)) =~= army_list);
    assert(values(rows(d.battlefields.entries)) =~= field_list);
}

/// A game that is set up on blank storage has its books in order, no battlefield with a winner,
/// and nobody who has withdrawn.
pub proof fn law_set_up_starts_in_order(
    c: ContractState,
    name: Seq<char>,
    version: Seq<char>,
    armies: Seq<ArmyInfo>,
    battlefields: Seq<BattlefieldInfo>,
    config: ConfigView,
)
    requires
        blank(c),
        oversized(armies.len(), battlefields.len()) is None,
    ensures
        ({
            let d = set_up(c, name, version, armies, battlefields, config);
            &&& in_order(d, Seq::empty())
            &&& undecided(d)
            &&& forall|p: Seq<char>| #[trigger] slot(d.withdrawals, p) is None
        }),
{
    let d = set_up(c, name, version, armies, battlefields, config);
    assert forall|a: u8| #[trigger] army_account(d, a) == fields_sum(d, a) by {
        lemma_below_nothing(|f: int| field_account(d, a, f as u8), 256);
    }
    assert forall|p: Seq<char>, a: u8| #[trigger]
        player_account(d, p, a) == player_fields_sum(d, p, a) by {
        lemma_below_nothing(|f: int| stake_account(d, p, a, f as u8), 256);
    }
}

} // verus!
