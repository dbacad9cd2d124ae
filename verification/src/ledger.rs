//! What the contract's storage holds, as mathematics.
//!
//! Storage is a flat map of bytes, so under a namespace of the contract there may
//! also be entries that do not decode. The model keeps them apart from those that
//! do, because the operations treat them differently.
use vstd::prelude::*;
use vstd::utf8::encode_utf8;

use crate::error::StorageFailure;
use crate::state::{ArmyView, BattlefieldView, ConfigView, StakeInfoView};

verus! {

/// What is stored under a key.
pub enum Slot<V> {
    /// Bytes that do not decode.
    Unreadable,
    /// Bytes that decode to this value.
    Readable(V),
}

/// A keyed collection.
#[verifier::reject_recursive_types(K)]
pub struct Table<K, V> {
    /// What is stored under each key.
    pub entries: Map<K, Slot<V>>,
    /// Whether there are entries whose raw key is not the encoding of a key and is
    /// reported as such by a walk over the collection.
    pub strays: bool,
    /// Whether there are entries whose raw key a walk over the collection cannot even
    /// take apart: it panics on them.
    pub breaks: bool,
}

/// The key of a stake: army, battlefield and player.
pub type StakeKey = (u8, u8, Seq<char>);

/// What an entry of an index holds.
pub enum Pointer {
    /// The length of the key of the stake.
    Whole,
    /// Anything else.
    Other,
}

/// The stakes of all players, and the indexes of them.
pub struct StakeTable {
    /// What is stored under each key.
    pub entries: Map<StakeKey, Slot<StakeInfoView>>,
    /// The entries of the index by army.
    pub by_army: Map<(u8, StakeKey), Pointer>,
    /// The entries of the index by battlefield.
    pub by_battlefield: Map<(u8, StakeKey), Pointer>,
    /// The entries of the index by player.
    pub by_player: Map<(Seq<char>, StakeKey), Pointer>,
    /// The players under whom the index has entries that are for no key of a stake.
    pub strays: Set<Seq<char>>,
}

/// All that the contract keeps.
pub struct ContractState {
    /// The name and the version of the contract that set the storage up.
    pub contract_info: Option<(Seq<char>, Seq<char>)>,
    pub armies: Table<u8, ArmyView>,
    /// By army and battlefield.
    pub army_totals_by_battlefield: Table<(u8, u8), u128>,
    pub battlefields: Table<u8, BattlefieldView>,
    pub config: Option<Slot<ConfigView>>,
    /// Whether the game is open.
    pub phase: Option<Slot<bool>>,
    pub prize_pool: Option<Slot<u128>>,
    /// By player and army.
    pub player_totals_by_army: Map<(Seq<char>, u8), Slot<u128>>,
    pub stakes: StakeTable,
    pub winner: Option<Slot<ArmyView>>,
    /// What was paid out, by player.
    pub withdrawals: Map<Seq<char>, Slot<u128>>,
}

/// What is stored under `k`, if anything is.
pub open spec fn slot<K, V>(entries: Map<K, Slot<V>>, k: K) -> Option<Slot<V>> {
    if entries.contains_key(k) {
        Some(entries[k])
    } else {
        None
    }
}

/// The collection with `v` stored under `k`.
pub open spec fn put<K, V>(t: Table<K, V>, k: K, v: V) -> Table<K, V> {
    Table { entries: t.entries.insert(k, Slot::Readable(v)), ..t }
}

/// The stakes without the entries that the indexes have for `v` under `k`.
pub open spec fn unindexed(t: StakeTable, k: StakeKey, v: StakeInfoView) -> StakeTable {
    StakeTable {
        by_army: t.by_army.remove((v.army, k)),
        by_battlefield: t.by_battlefield.remove((v.battlefield_id, k)),
        by_player: t.by_player.remove((v.player, k)),
        ..t
    }
}

/// The stakes with entries in the indexes for `v` under `k`.
pub open spec fn indexed_as(t: StakeTable, k: StakeKey, v: StakeInfoView) -> StakeTable {
    StakeTable {
        by_army: t.by_army.insert((v.army, k), Pointer::Whole),
        by_battlefield: t.by_battlefield.insert((v.battlefield_id, k), Pointer::Whole),
        by_player: t.by_player.insert((v.player, k), Pointer::Whole),
        ..t
    }
}

/// The stakes with `v` stored under `k`, and the indexes brought up to date.
pub open spec fn put_stake(t: StakeTable, k: StakeKey, v: StakeInfoView) -> StakeTable {
    let cleared = match load_of(slot(t.entries, k)) {
        Ok(old) => unindexed(t, k, old),
        Err(_) => t,
    };
    StakeTable {
        entries: t.entries.insert(k, Slot::Readable(v)),
        ..indexed_as(cleared, k, v)
    }
}

/// Whether the index has nothing under a player but whole entries for stakes of that player.
pub open spec fn straight(t: StakeTable, player: Seq<char>) -> bool {
    &&& !t.strays.contains(player)
    &&& forall|k: StakeKey| #[trigger]
        t.by_player.contains_key((player, k)) ==> k.2 == player && t.by_player[(player, k)]
            == Pointer::Whole
}

/// Whether an address is short enough to be part of a storage key.
pub open spec fn fits_key(address: Seq<char>) -> bool {
    encode_utf8(address).len() <= 0xFFFF
}

/// Whether the addresses that saving a stake under `k` deals with fit into keys: that of the
/// player, and that which the stake there names.
pub open spec fn stake_fits(t: StakeTable, k: StakeKey) -> bool {
    &&& fits_key(k.2)
    &&& load_of(slot(t.entries, k)) matches Ok(s) ==> fits_key(s.player)
}

/// A read that has to find a value.
pub open spec fn load_of<V>(s: Option<Slot<V>>) -> Result<V, StorageFailure> {
    match s {
        None => Err(StorageFailure::NotFound),
        Some(Slot::Unreadable) => Err(StorageFailure::Unreadable),
        Some(Slot::Readable(v)) => Ok(v),
    }
}

/// A read that may find nothing.
pub open spec fn may_load_of<V>(s: Option<Slot<V>>) -> Result<Option<V>, StorageFailure> {
    match s {
        None => Ok(None),
        Some(Slot::Unreadable) => Err(StorageFailure::Unreadable),
        Some(Slot::Readable(v)) => Ok(Some(v)),
    }
}

/// Whether a walk over the collection reads every entry.
pub open spec fn all_readable<K, V>(t: Table<K, V>) -> bool {
    &&& !t.strays
    &&& forall|k: K| #[trigger] t.entries.contains_key(k) ==> t.entries[k] is Readable
}

/// The readable entries with keys below `n`, by ascending key.
pub open spec fn rows_below<V>(entries: Map<u8, Slot<V>>, n: nat) -> Seq<(u8, V)>
    decreases n,
{
    if n == 0 {
        Seq::empty()
    } else {
        let k = (n - 1) as u8;
        match load_of(slot(entries, k)) {
            Ok(v) => rows_below(entries, (n - 1) as nat).push((k, v)),
            Err(_) => rows_below(entries, (n - 1) as nat),
        }
    }
}

/// The readable entries, by ascending key.
pub open spec fn rows<V>(entries: Map<u8, Slot<V>>) -> Seq<(u8, V)> {
    rows_below(entries, 256)
}

/// The values of a list of entries.
pub open spec fn values<K, V>(entries: Seq<(K, V)>) -> Seq<V> {
    entries.map_values(|entry: (K, V)| entry.1)
}

/// The pair of keys with the given place in lexicographic order.
pub open spec fn pair_at(place: int) -> (u8, u8) {
    ((place / 256) as u8, (place % 256) as u8)
}

/// The readable entries among the first `n` pairs of keys, in lexicographic order.
pub open spec fn pair_rows_below<V>(entries: Map<(u8, u8), Slot<V>>, n: nat) -> Seq<((u8, u8), V)>
    decreases n,
{
    if n == 0 {
        Seq::empty()
    } else {
        let k = pair_at(n - 1);
        match load_of(slot(entries, k)) {
            Ok(v) => pair_rows_below(entries, (n - 1) as nat).push((k, v)),
            Err(_) => pair_rows_below(entries, (n - 1) as nat),
        }
    }
}

/// The readable entries, in the lexicographic order of their keys.
pub open spec fn pair_rows<V>(entries: Map<(u8, u8), Slot<V>>) -> Seq<((u8, u8), V)> {
    pair_rows_below(entries, 65536)
}

/// The stakes that the index has under a player, by army and battlefield. One that is not there
/// cannot be read.
pub open spec fn stakes_of(t: StakeTable, player: Seq<char>) -> Table<(u8, u8), StakeInfoView> {
    Table {
        entries: Map::new(
            |k: (u8, u8)| t.by_player.contains_key((player, (k.0, k.1, player))),
            |k: (u8, u8)|
                if t.entries.contains_key((k.0, k.1, player)) {
                    t.entries[(k.0, k.1, player)]
                } else {
                    Slot::Unreadable
                },
        ),
        strays: false,
        breaks: false,
    }
}

/// What is left of a walk once the entries that could not be read are dropped.
pub open spec fn flattened<T>(walk: Seq<Option<T>>) -> Seq<T>
    decreases walk.len(),
{
    if walk.len() == 0 {
        Seq::empty()
    } else {
        match walk.last() {
            Some(row) => flattened(walk.drop_last()).push(row),
            None => flattened(walk.drop_last()),
        }
    }
}

/// A row is listed exactly where its entry can be read.
pub proof fn lemma_rows_below_contain<V>(entries: Map<u8, Slot<V>>, n: nat, row: (u8, V))
    requires
        n <= 256,
    ensures
        rows_below(entries, n).contains(row) <==> row.0 < n && load_of(slot(entries, row.0))
            == Ok::<V, StorageFailure>(row.1),
    decreases n,
{
    if n > 0 {
        let k = (n - 1) as u8;
        let before = rows_below(entries, (n - 1) as nat);
        lemma_rows_below_contain(entries, (n - 1) as nat, row);
        if let Ok(v) = load_of(slot(entries, k)) {
            let all = before.push((k, v));
            assert(rows_below(entries, n) == all);
            assert(all[all.len() - 1] == (k, v));
            if before.contains(row) {
                let i = choose|i: int| 0 <= i < before.len() && before[i] == row;
                assert(all[i] == row);
            }
        }
    }
}

pub proof fn lemma_rows_contain<V>(entries: Map<u8, Slot<V>>, k: u8)
    requires
        load_of(slot(entries, k)) is Ok,
    ensures
        rows(entries).contains((k, load_of(slot(entries, k))->Ok_0)),
        rows(entries).len() > 0,
{
    lemma_rows_below_contain(entries, 256, (k, load_of(slot(entries, k))->Ok_0));
}

/// The place of a pair of keys in lexicographic order.
pub open spec fn place_of(k: (u8, u8)) -> int {
    k.0 * 256 + k.1
}

/// A row is listed exactly where its entry can be read.
pub proof fn lemma_pairs_contain<V>(entries: Map<(u8, u8), Slot<V>>, n: nat, row: ((u8, u8), V))
    requires
        n <= 65536,
    ensures
        pair_rows_below(entries, n).contains(row) <==> place_of(row.0) < n && load_of(
            slot(entries, row.0),
        ) == Ok::<V, StorageFailure>(row.1),
    decreases n,
{
    if n > 0 {
        let k = pair_at(n - 1);
        let front = pair_rows_below(entries, (n - 1) as nat);
        lemma_pairs_contain(entries, (n - 1) as nat, row);
        assert(place_of(k) == n - 1);
        assert(place_of(row.0) == n - 1 ==> row.0 == k);
        if let Ok(v) = load_of(slot(entries, k)) {
            let all = front.push((k, v));
            assert(pair_rows_below(entries, n) == all);
            assert(all[all.len() - 1] == (k, v));
            if front.contains(row) {
                let i = choose|i: int| 0 <= i < front.len() && front[i] == row;
                assert(all[i] == row);
            }
        }
    }
}

} // verus!
