//! The books of the game: what each account holds, and when the books are in order.
use vstd::prelude::*;

use crate::ledger::{load_of, slot, ContractState, Pointer, Slot, StakeKey};
use crate::rules::total_on;
use crate::sums::{sum_below, sum_over};

verus! {

/// What a slot counts for in the books.
pub open spec fn amount_in(s: Option<Slot<u128>>) -> nat {
    match load_of(s) {
        Ok(amount) => amount as nat,
        Err(_) => 0,
    }
}

/// What is staked on an army.
pub open spec fn army_account(c: ContractState, army: u8) -> nat {
    match load_of(slot(c.armies.entries, army)) {
        Ok(a) => a.total_staked as nat,
        Err(_) => 0,
    }
}

/// What is staked on an army on one battlefield.
pub open spec fn field_account(c: ContractState, army: u8, field: u8) -> nat {
    total_on(c, army, field) as nat
}

/// What a player has staked with an army.
pub open spec fn player_account(c: ContractState, player: Seq<char>, army: u8) -> nat {
    amount_in(slot(c.player_totals_by_army, (player, army)))
}

/// What a player has staked with an army on one battlefield.
pub open spec fn stake_account(c: ContractState, player: Seq<char>, army: u8, field: u8) -> nat {
    match load_of(slot(c.stakes.entries, (army, field, player))) {
        Ok(s) => s.amount as nat,
        Err(_) => 0,
    }
}

/// What is staked on an army on all battlefields.
pub open spec fn fields_sum(c: ContractState, army: u8) -> nat {
    sum_below(|f: int| field_account(c, army, f as u8), 256)
}

/// What a player has staked with an army on all battlefields.
pub open spec fn player_fields_sum(c: ContractState, player: Seq<char>, army: u8) -> nat {
    sum_below(|f: int| stake_account(c, player, army, f as u8), 256)
}

/// What a player has staked with all armies.
pub open spec fn player_armies_sum(c: ContractState, player: Seq<char>) -> nat {
    sum_below(|a: int| player_account(c, player, a as u8), 256)
}

/// What the players of a list have staked with an army on one battlefield.
pub open spec fn players_field_sum(
    c: ContractState,
    players: Seq<Seq<char>>,
    army: u8,
    field: u8,
) -> nat {
    sum_over(players, |p: Seq<char>| stake_account(c, p, army, field))
}

/// What the players of a list have staked with an army.
pub open spec fn players_sum(c: ContractState, players: Seq<Seq<char>>, army: u8) -> nat {
    sum_over(players, |p: Seq<char>| player_account(c, p, army))
}

/// All that is staked.
pub open spec fn all_staked(c: ContractState) -> nat {
    sum_below(|a: int| army_account(c, a as u8), 256)
}

/// Whether a list names every player who has a stake, each once.
pub open spec fn names_all(c: ContractState, players: Seq<Seq<char>>) -> bool {
    &&& players.no_duplicates()
    &&& forall|p: Seq<char>, a: u8, f: u8| #[trigger]
        stake_account(c, p, a, f) > 0 ==> players.contains(p)
}

/// Whether the books agree: what is staked on an army is what is staked on it on all
/// battlefields, that is what the players have staked there, and what a player has staked
/// with an army is what that player has staked with it on all battlefields.
pub open spec fn balanced(c: ContractState, players: Seq<Seq<char>>) -> bool {
    &&& names_all(c, players)
    &&& forall|a: u8| #[trigger] army_account(c, a) == fields_sum(c, a)
    &&& forall|a: u8, f: u8| #[trigger]
        field_account(c, a, f) == players_field_sum(c, players, a, f)
    &&& forall|p: Seq<char>, a: u8| #[trigger]
        player_account(c, p, a) == player_fields_sum(c, p, a)
}

/// Whether every value is stored under the key that it names.
pub open spec fn keyed(c: ContractState) -> bool {
    &&& forall|id: u8|
        load_of(#[trigger] slot(c.armies.entries, id)) matches Ok(a) ==> a.id == id
    &&& forall|id: u8|
        load_of(#[trigger] slot(c.battlefields.entries, id)) matches Ok(b) ==> b.id == id
    &&& forall|p: Seq<char>, a: u8, f: u8|
        load_of(#[trigger] slot(c.stakes.entries, (a, f, p))) matches Ok(s) ==> s.player == p
            && s.army == a && s.battlefield_id == f
}

/// Whether every stake, and every total, is of more than nothing.
pub open spec fn positive(c: ContractState) -> bool {
    &&& forall|p: Seq<char>, a: u8, f: u8|
        load_of(#[trigger] slot(c.stakes.entries, (a, f, p))) matches Ok(s) ==> s.amount > 0
    &&& forall|p: Seq<char>, a: u8|
        load_of(#[trigger] slot(c.player_totals_by_army, (p, a))) matches Ok(t) ==> t > 0
    &&& forall|a: u8, f: u8|
        load_of(#[trigger] slot(c.army_totals_by_battlefield.entries, (a, f))) matches Ok(t)
            ==> t > 0
}

/// Whether every player is on one side only in each battlefield.
pub open spec fn one_sided(c: ContractState) -> bool {
    forall|p: Seq<char>, a: u8, b: u8, f: u8|
        (#[trigger] slot(c.stakes.entries, (a, f, p))) is Some && (#[trigger] slot(
            c.stakes.entries,
            (b, f, p),
        )) is Some ==> a == b
}

/// Whether the indexes have exactly the entries for the stakes that there are.
pub open spec fn indexed(c: ContractState) -> bool {
    let t = c.stakes;
    &&& t.strays == Set::<Seq<char>>::empty()
    &&& forall|a: u8, k: StakeKey| #[trigger]
        t.by_army.contains_key((a, k)) <==> t.entries.contains_key(k) && k.0 == a
    &&& forall|f: u8, k: StakeKey| #[trigger]
        t.by_battlefield.contains_key((f, k)) <==> t.entries.contains_key(k) && k.1 == f
    &&& forall|p: Seq<char>, k: StakeKey| #[trigger]
        t.by_player.contains_key((p, k)) <==> t.entries.contains_key(k) && k.2 == p
    &&& forall|a: u8, k: StakeKey| #[trigger]
        t.by_army.contains_key((a, k)) ==> t.by_army[(a, k)] == Pointer::Whole
    &&& forall|f: u8, k: StakeKey| #[trigger]
        t.by_battlefield.contains_key((f, k)) ==> t.by_battlefield[(f, k)] == Pointer::Whole
    &&& forall|p: Seq<char>, k: StakeKey| #[trigger]
        t.by_player.contains_key((p, k)) ==> t.by_player[(p, k)] == Pointer::Whole
}

/// Whether the books are in order.
pub open spec fn in_order(c: ContractState, players: Seq<Seq<char>>) -> bool {
    &&& keyed(c)
    &&& balanced(c, players)
    &&& positive(c)
    &&& one_sided(c)
    &&& indexed(c)
}

/// Whether no battlefield has a winner.
pub open spec fn undecided(c: ContractState) -> bool {
    forall|id: u8|
        load_of(#[trigger] slot(c.battlefields.entries, id)) matches Ok(b) ==> b.winner is None
}

/// Whether two states have the same configuration, and the same armies and battlefields but for
/// what is staked on them and who has won.
pub open spec fn same_roster(c: ContractState, d: ContractState) -> bool {
    &&& d.config == c.config
    &&& d.contract_info == c.contract_info
    &&& d.armies.strays == c.armies.strays
    &&& d.battlefields.strays == c.battlefields.strays
    &&& forall|id: u8|
        match (
            load_of(slot(c.armies.entries, id)),
            load_of(#[trigger] slot(d.armies.entries, id)),
        ) {
            (Ok(a), Ok(b)) => b.name == a.name && b.ipfs_uri == a.ipfs_uri && b.id == a.id,
            (Err(e), Err(f)) => e == f,
            _ => false,
        }
    &&& forall|id: u8|
        match (
            load_of(slot(c.battlefields.entries, id)),
            load_of(#[trigger] slot(d.battlefields.entries, id)),
        ) {
            (Ok(a), Ok(b)) => b.name == a.name && b.ipfs_uri == a.ipfs_uri && b.id == a.id
                && b.value == a.value,
            (Err(e), Err(f)) => e == f,
            _ => false,
        }
}

} // verus!
