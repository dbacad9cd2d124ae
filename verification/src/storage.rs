//! The contract's collections in storage.
//!
//! Each function here hands one read or one write to `cw_storage_plus` (or `cw2`) and
//! says what it does to the contents of the store.
use vstd::prelude::*;

use cosmwasm_std::{Addr, Order, Storage, Uint128};
use cw_storage_plus::{Index, Item, Map as StorageMap, MultiIndex, PrimaryKey};

use crate::error::{seen, seen_option, StorageError};
use crate::ledger::{
    all_readable, fits_key, flattened, load_of, may_load_of, pair_rows, put, rows, slot, stakes_of,
    straight, values, ContractState, Pointer, Slot, StakeTable,
};
use crate::state::{
    Army, ArmyView, Battlefield, BattlefieldView, Config, StakeInfo, StakeInfoView, Timestamp,
};

verus! {

/// Contract storage that can be read and written.
///
/// It holds a `cosmwasm_std::Storage`, of which nothing is claimed but what that trait
/// documents: `get` gives back what was last `set` under a key, and `range` walks the
/// keys in the lexicographic order of their bytes.
#[verifier::external_body]
pub struct Store<'a> {
    pub storage: &'a mut dyn Storage,
}

/// Contract storage that can only be read.
#[verifier::external_body]
pub struct ReadStore<'a> {
    pub storage: &'a dyn Storage,
}

/// What a store holds under the namespaces of the contract.
pub uninterp spec fn contents(store: Store<'_>) -> ContractState;

/// What a read-only store holds under the namespaces of the contract.
pub uninterp spec fn read_contents(store: ReadStore<'_>) -> ContractState;

impl<'a> View for Store<'a> {
    type V = ContractState;

    open spec fn view(&self) -> ContractState {
        contents(*self)
    }
}

impl<'a> View for ReadStore<'a> {
    type V = ContractState;

    open spec fn view(&self) -> ContractState {
        read_contents(*self)
    }
}

impl<'a> Store<'a> {
    /// Reborrows the `cosmwasm_std::Storage` for reading: it holds what it held.
    #[verifier::external_body]
    pub(crate) fn reader(&self) -> (r: ReadStore<'_>)
        ensures
            read_contents(r) == contents(*self),
    {
        ReadStore { storage: &*self.storage }
    }
}

/// Rows of armies, by their views.
pub open spec fn army_rows(rows: Seq<(u8, Army)>) -> Seq<(u8, ArmyView)> {
    rows.map_values(|row: (u8, Army)| (row.0, row.1@))
}

/// A walk over the battlefields, by the views of its rows.
pub open spec fn battlefield_walk(walk: Seq<Option<(u8, Battlefield)>>) -> Seq<
    Option<(u8, BattlefieldView)>,
> {
    walk.map_values(
        |row: Option<(u8, Battlefield)>|
            match row {
                Some(r) => Some((r.0, r.1@)),
                None => None,
            },
    )
}

/// The stakes of a list, by their views.
pub open spec fn stake_views(stakes: Seq<StakeInfo>) -> Seq<StakeInfoView> {
    stakes.map_values(|s: StakeInfo| s@)
}

/// Records the contract's name and version with `cw2::set_contract_version`, which saves
/// the two strings in an item of its own and fails only where they do not serialise.
#[verifier::external_body]
pub(crate) fn set_contract_version(
    store: &mut Store<'_>,
    name: &str,
    version: &str,
) -> (r: Result<(), StorageError>)
    ensures
        r is Ok,
        contents(*final(store)) == (ContractState {
            contract_info: Some((name@, version@)),
            ..contents(*old(store))
        }),
{
    cw2::set_contract_version(store.storage, name, version).map_err(StorageError::Unreadable)
}

/// Reads the configuration with `cw_storage_plus::Item::load`: the value stored, or an error
/// if there is none or it does not decode.
#[verifier::external_body]
pub(crate) fn load_config(
    store: &ReadStore<'_>,
    namespace: &str,
) -> (r: Result<Config, StorageError>)
    requires
        namespace@ == "config"@,
    ensures
        seen(r) == load_of(read_contents(*store).config),
{
    let item: Item<(u64, u64, String)> = Item::new(namespace);
    match item.load(store.storage) {
        Ok((start, duration, denom)) => Ok(
            Config {
                start: Timestamp { nanos: start },
                battle_duration: Timestamp { nanos: duration },
                denom,
            },
        ),
        Err(e @ cosmwasm_std::StdError::NotFound { .. }) => Err(StorageError::NotFound(e)),
        Err(e) => Err(StorageError::Unreadable(e)),
    }
}

/// Writes the configuration with `cw_storage_plus::Item::save`, which replaces what the item
/// held. It fails only where a value does not serialise, and integers and strings do.
#[verifier::external_body]
pub(crate) fn save_config(
    store: &mut Store<'_>,
    namespace: &str,
    config: &Config,
) -> (r: Result<(), StorageError>)
    requires
        namespace@ == "config"@,
    ensures
        r is Ok,
        contents(*final(store)) == (ContractState {
            config: Some(Slot::Readable(config@)),
            ..contents(*old(store))
        }),
{
    let item: Item<(u64, u64, String)> = Item::new(namespace);
    let row = (config.start.nanos, config.battle_duration.nanos, config.denom.clone());
    item.save(store.storage, &row).map_err(StorageError::Unreadable)
}

/// Reads whether the game is open with `cw_storage_plus::Item::load`: the value stored, or an
/// error if there is none or it does not decode.
#[verifier::external_body]
pub(crate) fn load_phase(store: &ReadStore<'_>, namespace: &str) -> (r: Result<bool, StorageError>)
    requires
        namespace@ == "phase"@,
    ensures
        seen(r) == load_of(read_contents(*store).phase),
{
    let item: Item<bool> = Item::new(namespace);
    match item.load(store.storage) {
        Ok(open) => Ok(open),
        Err(e @ cosmwasm_std::StdError::NotFound { .. }) => Err(StorageError::NotFound(e)),
        Err(e) => Err(StorageError::Unreadable(e)),
    }
}

/// Writes whether the game is open with `cw_storage_plus::Item::save`, which replaces what
/// the item held. It fails only where a value does not serialise, and integers and strings
/// do.
#[verifier::external_body]
pub(crate) fn save_phase(
    store: &mut Store<'_>,
    namespace: &str,
    open: bool,
) -> (r: Result<(), StorageError>)
    requires
        namespace@ == "phase"@,
    ensures
        r is Ok,
        contents(*final(store)) == (ContractState {
            phase: Some(Slot::Readable(open)),
            ..contents(*old(store))
        }),
{
    let item: Item<bool> = Item::new(namespace);
    item.save(store.storage, &open).map_err(StorageError::Unreadable)
}

/// Reads the prize pool with `cw_storage_plus::Item::load`: the value stored, or an error if
/// there is none or it does not decode.
#[verifier::external_body]
pub(crate) fn load_prize_pool(
    store: &ReadStore<'_>,
    namespace: &str,
) -> (r: Result<u128, StorageError>)
    requires
        namespace@ == "prize_pool"@,
    ensures
        seen(r) == load_of(read_contents(*store).prize_pool),
{
    let item: Item<Uint128> = Item::new(namespace);
    match item.load(store.storage) {
        Ok(amount) => Ok(amount.u128()),
        Err(e @ cosmwasm_std::StdError::NotFound { .. }) => Err(StorageError::NotFound(e)),
        Err(e) => Err(StorageError::Unreadable(e)),
    }
}

/// Writes the prize pool with `cw_storage_plus::Item::save`, which replaces what the item
/// held. It fails only where a value does not serialise, and integers and strings do.
#[verifier::external_body]
pub(crate) fn save_prize_pool(
    store: &mut Store<'_>,
    namespace: &str,
    amount: u128,
) -> (r: Result<(), StorageError>)
    requires
        namespace@ == "prize_pool"@,
    ensures
        r is Ok,
        contents(*final(store)) == (ContractState {
            prize_pool: Some(Slot::Readable(amount)),
            ..contents(*old(store))
        }),
{
    let item: Item<Uint128> = Item::new(namespace);
    item.save(store.storage, &Uint128::new(amount)).map_err(StorageError::Unreadable)
}

/// Reads the winning army with `cw_storage_plus::Item::load`: the value stored, or an error
/// if there is none or it does not decode.
#[verifier::external_body]
pub(crate) fn load_winner(store: &ReadStore<'_>, namespace: &str) -> (r: Result<Army, StorageError>)
    requires
        namespace@ == "winner"@,
    ensures
        seen(r) == load_of(read_contents(*store).winner),
{
    let item: Item<(String, String, u8, Uint128, u8)> = Item::new(namespace);
    match item.load(store.storage) {
        Ok((name, ipfs_uri, id, total, victory_points)) => Ok(
            Army { name, ipfs_uri, id, total_staked: total.u128(), victory_points },
        ),
        Err(e @ cosmwasm_std::StdError::NotFound { .. }) => Err(StorageError::NotFound(e)),
        Err(e) => Err(StorageError::Unreadable(e)),
    }
}

/// Writes the winning army with `cw_storage_plus::Item::save`, which replaces what the item
/// held. It fails only where a value does not serialise, and integers and strings do.
#[verifier::external_body]
pub(crate) fn save_winner(
    store: &mut Store<'_>,
    namespace: &str,
    army: &Army,
) -> (r: Result<(), StorageError>)
    requires
        namespace@ == "winner"@,
    ensures
        r is Ok,
        contents(*final(store)) == (ContractState {
            winner: Some(Slot::Readable(army@)),
            ..contents(*old(store))
        }),
{
    let item: Item<(String, String, u8, Uint128, u8)> = Item::new(namespace);
    let row = (
        army.name.clone(),
        army.ipfs_uri.clone(),
        army.id,
        Uint128::new(army.total_staked),
        army.victory_points,
    );
    item.save(store.storage, &row).map_err(StorageError::Unreadable)
}

/// Reads an army with `cw_storage_plus::Map::load`: the value stored, or an error if there is
/// none or it does not decode.
#[verifier::external_body]
pub(crate) fn load_army(
    store: &ReadStore<'_>,
    namespace: &str,
    id: u8,
) -> (r: Result<Army, StorageError>)
    requires
        namespace@ == "armies"@,
    ensures
        seen(r) == load_of(slot(read_contents(*store).armies.entries, id)),
{
    let map: StorageMap<u8, (String, String, u8, Uint128, u8)> = StorageMap::new(namespace);
    match map.load(store.storage, id) {
        Ok((name, ipfs_uri, id, total, victory_points)) => Ok(
            Army { name, ipfs_uri, id, total_staked: total.u128(), victory_points },
        ),
        Err(e @ cosmwasm_std::StdError::NotFound { .. }) => Err(StorageError::NotFound(e)),
        Err(e) => Err(StorageError::Unreadable(e)),
    }
}

/// Reads an army with `cw_storage_plus::Map::may_load`: the value stored, `None` if there is
/// none, or an error if it does not decode.
#[verifier::external_body]
pub(crate) fn may_load_army(
    store: &ReadStore<'_>,
    namespace: &str,
    id: u8,
) -> (r: Result<Option<Army>, StorageError>)
    requires
        namespace@ == "armies"@,
    ensures
        seen_option(r) == may_load_of(slot(read_contents(*store).armies.entries, id)),
{
    let map: StorageMap<u8, (String, String, u8, Uint128, u8)> = StorageMap::new(namespace);
    match map.may_load(store.storage, id) {
        Ok(Some((name, ipfs_uri, id, total, victory_points))) => Ok(
            Some(Army { name, ipfs_uri, id, total_staked: total.u128(), victory_points }),
        ),
        Ok(None) => Ok(None),
        Err(e) => Err(StorageError::Unreadable(e)),
    }
}

/// Writes an army with `cw_storage_plus::Map::save`, which replaces what the key held and
/// leaves the other keys alone. It fails only where a value does not serialise, and integers
/// and strings do.
#[verifier::external_body]
pub(crate) fn save_army(
    store: &mut Store<'_>,
    namespace: &str,
    id: u8,
    army: &Army,
) -> (r: Result<(), StorageError>)
    requires
        namespace@ == "armies"@,
    ensures
        r is Ok,
        contents(*final(store)) == (ContractState {
            armies: put(contents(*old(store)).armies, id, army@),
            ..contents(*old(store))
        }),
{
    let map: StorageMap<u8, (String, String, u8, Uint128, u8)> = StorageMap::new(namespace);
    let row = (
        army.name.clone(),
        army.ipfs_uri.clone(),
        army.id,
        Uint128::new(army.total_staked),
        army.victory_points,
    );
    map.save(store.storage, id, &row).map_err(StorageError::Unreadable)
}

/// Walks the armies with `cw_storage_plus::Map::range`, from the highest id down, up to the
/// first entry whose key or value does not decode.
#[verifier::external_body]
pub(crate) fn range_armies(store: &ReadStore<'_>, namespace: &str) -> (r: Result<
    Vec<(u8, Army)>,
    StorageError,
>)
    requires
        namespace@ == "armies"@,
    ensures
        r matches Ok(armies) ==> army_rows(armies@) == rows(
            read_contents(*store).armies.entries,
        ).reverse(),
        r is Ok <==> all_readable(read_contents(*store).armies),
        r matches Err(e) ==> e is Unreadable,
{
    let map: StorageMap<u8, (String, String, u8, Uint128, u8)> = StorageMap::new(namespace);
    map.range(store.storage, None, None, Order::Descending).map(
        |entry|
            match entry {
                Ok((key, (name, ipfs_uri, id, total, victory_points))) => Ok(
                    (key, Army { name, ipfs_uri, id, total_staked: total.u128(), victory_points }),
                ),
                Err(e) => Err(StorageError::Unreadable(e)),
            },
    ).collect()
}

/// Reads a battlefield with `cw_storage_plus::Map::load`: the value stored, or an error if
/// there is none or it does not decode.
#[verifier::external_body]
pub(crate) fn load_battlefield(
    store: &ReadStore<'_>,
    namespace: &str,
    id: u8,
) -> (r: Result<Battlefield, StorageError>)
    requires
        namespace@ == "battlefields"@,
    ensures
        seen(r) == load_of(slot(read_contents(*store).battlefields.entries, id)),
{
    let map: StorageMap<u8, (String, String, u8, u8, Option<u8>)> = StorageMap::new(namespace);
    match map.load(store.storage, id) {
        Ok((name, ipfs_uri, id, value, winner)) => Ok(
            Battlefield { name, ipfs_uri, id, value, winner },
        ),
        Err(e @ cosmwasm_std::StdError::NotFound { .. }) => Err(StorageError::NotFound(e)),
        Err(e) => Err(StorageError::Unreadable(e)),
    }
}

/// Writes a battlefield with `cw_storage_plus::Map::save`, which replaces what the key held
/// and leaves the other keys alone. It fails only where a value does not serialise, and
/// integers and strings do.
#[verifier::external_body]
pub(crate) fn save_battlefield(
    store: &mut Store<'_>,
    namespace: &str,
    id: u8,
    field: &Battlefield,
) -> (r: Result<(), StorageError>)
    requires
        namespace@ == "battlefields"@,
    ensures
        r is Ok,
        contents(*final(store)) == (ContractState {
            battlefields: put(contents(*old(store)).battlefields, id, field@),
            ..contents(*old(store))
        }),
{
    let map: StorageMap<u8, (String, String, u8, u8, Option<u8>)> = StorageMap::new(namespace);
    let row = (field.name.clone(), field.ipfs_uri.clone(), field.id, field.value, field.winner);
    map.save(store.storage, id, &row).map_err(StorageError::Unreadable)
}

/// Walks the battlefields with `cw_storage_plus::Map::range`, from the highest id down. An
/// entry whose key or value does not decode comes as `None`; the others come as they are
/// stored.
#[verifier::external_body]
pub(crate) fn range_battlefields(
    store: &ReadStore<'_>,
    namespace: &str,
) -> (r: Vec<Option<(u8, Battlefield)>>)
    requires
        namespace@ == "battlefields"@,
    ensures
        flattened(battlefield_walk(r@)) == rows(
            read_contents(*store).battlefields.entries,
        ).reverse(),
        (forall|i: int| 0 <= i < r@.len() ==> (#[trigger] r@[i]) is Some) <==> all_readable(
            read_contents(*store).battlefields,
        ),
{
    let map: StorageMap<u8, (String, String, u8, u8, Option<u8>)> = StorageMap::new(namespace);
    map.range(store.storage, None, None, Order::Descending).map(
        |entry|
            match entry {
                Ok((key, (name, ipfs_uri, id, value, winner))) => Some(
                    (key, Battlefield { name, ipfs_uri, id, value, winner }),
                ),
                Err(_) => None,
            },
    ).collect()
}

/// Reads an army's total on a battlefield with `cw_storage_plus::Map::may_load`: the value
/// stored, `None` if there is none, or an error if it does not decode.
#[verifier::external_body]
pub(crate) fn may_load_army_total(
    store: &ReadStore<'_>,
    namespace: &str,
    army_id: u8,
    battlefield_id: u8,
) -> (r: Result<Option<u128>, StorageError>)
    requires
        namespace@ == "army_totals_by_battlefield"@,
    ensures
        seen_option(r) == may_load_of(
            slot(
                read_contents(*store).army_totals_by_battlefield.entries,
                (army_id, battlefield_id),
            ),
        ),
{
    let map: StorageMap<(u8, u8), Uint128> = StorageMap::new(namespace);
    match map.may_load(store.storage, (army_id, battlefield_id)) {
        Ok(Some(total)) => Ok(Some(total.u128())),
        Ok(None) => Ok(None),
        Err(e) => Err(StorageError::Unreadable(e)),
    }
}

/// Writes an army's total on a battlefield with `cw_storage_plus::Map::save`, which replaces
/// what the key held and leaves the other keys alone. It fails only where a value does not
/// serialise, and integers and strings do.
#[verifier::external_body]
pub(crate) fn save_army_total(
    store: &mut Store<'_>,
    namespace: &str,
    army_id: u8,
    battlefield_id: u8,
    total: u128,
) -> (r: Result<(), StorageError>)
    requires
        namespace@ == "army_totals_by_battlefield"@,
    ensures
        r is Ok,
        contents(*final(store)) == (ContractState {
            army_totals_by_battlefield: put(
                contents(*old(store)).army_totals_by_battlefield,
                (army_id, battlefield_id),
                total,
            ),
            ..contents(*old(store))
        }),
{
    let map: StorageMap<(u8, u8), Uint128> = StorageMap::new(namespace);
    map.save(store.storage, (army_id, battlefield_id), &Uint128::new(total)).map_err(
        StorageError::Unreadable,
    )
}

/// Walks the totals of the armies with `cw_storage_plus::Map::range`, from the highest pair
/// of army and battlefield down. An entry whose key or value does not decode comes as
/// `None`; the others come as they are stored. The walk panics on a key that is too short to
/// be taken apart.
#[verifier::external_body]
pub(crate) fn range_army_totals(
    store: &ReadStore<'_>,
    namespace: &str,
) -> (r: Vec<Option<((u8, u8), u128)>>)
    requires
        namespace@ == "army_totals_by_battlefield"@,
        !read_contents(*store).army_totals_by_battlefield.breaks,
    ensures
        flattened(r@) == pair_rows(
            read_contents(*store).army_totals_by_battlefield.entries,
        ).reverse(),
{
    let map: StorageMap<(u8, u8), Uint128> = StorageMap::new(namespace);
    map.range(store.storage, None, None, Order::Descending).map(
        |entry|
            match entry {
                Ok((key, total)) => Some((key, total.u128())),
                Err(_) => None,
            },
    ).collect()
}

/// Reads a player's total with an army with `cw_storage_plus::Map::load`: the value stored,
/// or an error if there is none or it does not decode. The call panics on an address that
/// does not fit into a key.
#[verifier::external_body]
pub(crate) fn load_player_total(
    store: &ReadStore<'_>,
    namespace: &str,
    player: &str,
    army_id: u8,
) -> (r: Result<u128, StorageError>)
    requires
        namespace@ == "player_totals_by_army"@,
        fits_key(player@),
    ensures
        seen(r) == load_of(slot(read_contents(*store).player_totals_by_army, (player@, army_id))),
{
    let map: StorageMap<(&Addr, u8), Uint128> = StorageMap::new(namespace);
    match map.load(store.storage, (&Addr::unchecked(player), army_id)) {
        Ok(total) => Ok(total.u128()),
        Err(e @ cosmwasm_std::StdError::NotFound { .. }) => Err(StorageError::NotFound(e)),
        Err(e) => Err(StorageError::Unreadable(e)),
    }
}

/// Reads a player's total with an army with `cw_storage_plus::Map::may_load`: the value
/// stored, `None` if there is none, or an error if it does not decode. The call panics on an
/// address that does not fit into a key.
#[verifier::external_body]
pub(crate) fn may_load_player_total(
    store: &ReadStore<'_>,
    namespace: &str,
    player: &str,
    army_id: u8,
) -> (r: Result<Option<u128>, StorageError>)
    requires
        namespace@ == "player_totals_by_army"@,
        fits_key(player@),
    ensures
        seen_option(r) == may_load_of(
            slot(read_contents(*store).player_totals_by_army, (player@, army_id)),
        ),
{
    let map: StorageMap<(&Addr, u8), Uint128> = StorageMap::new(namespace);
    match map.may_load(store.storage, (&Addr::unchecked(player), army_id)) {
        Ok(Some(total)) => Ok(Some(total.u128())),
        Ok(None) => Ok(None),
        Err(e) => Err(StorageError::Unreadable(e)),
    }
}

/// Writes a player's total with an army with `cw_storage_plus::Map::save`, which replaces
/// what the key held and leaves the other keys alone. It fails only where a value does not
/// serialise, and integers and strings do. The call panics on an address that does not fit
/// into a key.
#[verifier::external_body]
pub(crate) fn save_player_total(
    store: &mut Store<'_>,
    namespace: &str,
    player: &str,
    army_id: u8,
    total: u128,
) -> (r: Result<(), StorageError>)
    requires
        namespace@ == "player_totals_by_army"@,
        fits_key(player@),
    ensures
        r is Ok,
        contents(*final(store)) == (ContractState {
            player_totals_by_army: contents(*old(store)).player_totals_by_army.insert(
                (player@, army_id),
                Slot::Readable(total),
            ),
            ..contents(*old(store))
        }),
{
    let map: StorageMap<(&Addr, u8), Uint128> = StorageMap::new(namespace);
    map.save(store.storage, (&Addr::unchecked(player), army_id), &Uint128::new(total)).map_err(
        StorageError::Unreadable,
    )
}

/// Reads a player's stake with an army on a battlefield with
/// `cw_storage_plus::Map::may_load`: the value stored, `None` if there is none, or an error
/// if it does not decode.
#[verifier::external_body]
pub(crate) fn may_load_stake(
    store: &ReadStore<'_>,
    namespace: &str,
    army_id: u8,
    battlefield_id: u8,
    player: &str,
) -> (r: Result<Option<StakeInfo>, StorageError>)
    requires
        namespace@ == "stakes"@,
    ensures
        seen_option(r) == may_load_of(
            slot(read_contents(*store).stakes.entries, (army_id, battlefield_id, player@)),
        ),
{
    let map: StorageMap<(u8, u8, &Addr), (Uint128, u8, u8, String)> = StorageMap::new(namespace);
    match map.may_load(store.storage, (army_id, battlefield_id, &Addr::unchecked(player))) {
        Ok(Some((amount, army, battlefield_id, player))) => Ok(
            Some(StakeInfo { amount: amount.u128(), army, battlefield_id, player }),
        ),
        Ok(None) => Ok(None),
        Err(e) => Err(StorageError::Unreadable(e)),
    }
}

/// Writes a player's stake with an army on a battlefield with `cw_storage_plus::Map::save`,
/// which replaces what the key held and leaves the other keys alone. It fails only where a
/// value does not serialise, and integers and strings do.
#[verifier::external_body]
pub(crate) fn save_stake(
    store: &mut Store<'_>,
    namespace: &str,
    army_id: u8,
    battlefield_id: u8,
    player: &str,
    stake: &StakeInfo,
) -> (r: Result<(), StorageError>)
    requires
        namespace@ == "stakes"@,
    ensures
        r is Ok,
        contents(*final(store)) == (ContractState {
            stakes: StakeTable {
                entries: contents(*old(store)).stakes.entries.insert(
                    (army_id, battlefield_id, player@),
                    Slot::Readable(stake@),
                ),
                ..contents(*old(store)).stakes
            },
            ..contents(*old(store))
        }),
{
    let map: StorageMap<(u8, u8, &Addr), (Uint128, u8, u8, String)> = StorageMap::new(namespace);
    let row = (Uint128::new(stake.amount), stake.army, stake.battlefield_id, stake.player.clone());
    map.save(store.storage, (army_id, battlefield_id, &Addr::unchecked(player)), &row).map_err(
        StorageError::Unreadable,
    )
}

/// The army that the row of a stake names.
fn army_idx<A>(_pk: &[u8], row: &(A, u8, u8, String)) -> (id: u8)
    ensures
        id == row.1,
{
    row.1
}

/// The battlefield that the row of a stake names.
fn battlefield_id_idx<A>(_pk: &[u8], row: &(A, u8, u8, String)) -> (id: u8)
    ensures
        id == row.2,
{
    row.2
}

/// The player that the row of a stake names.
fn player_idx<A>(_pk: &[u8], row: &(A, u8, u8, String)) -> (player: String)
    ensures
        player@ == row.3@,
{
    row.3.clone()
}

/// Enters a stake in the index by army with the `Index::save` of `cw_storage_plus::MultiIndex`:
/// the entry for the army that the stake names and the key holds the length of the key. It
/// fails only where a number does not serialise. The length of a key with an address that fits is
/// well within its type.
#[verifier::external_body]
pub(crate) fn index_by_army(
    store: &mut Store<'_>,
    namespace: &str,
    index: &str,
    army_id: u8,
    battlefield_id: u8,
    player: &str,
    stake: &StakeInfo,
) -> (r: Result<(), StorageError>)
    requires
        namespace@ == "stakes"@,
        index@ == "army"@,
        fits_key(player@),
    ensures
        r is Ok,
        contents(*final(store)) == (ContractState {
            stakes: StakeTable {
                by_army: contents(*old(store)).stakes.by_army.insert(
                    (stake@.army, (army_id, battlefield_id, player@)),
                    Pointer::Whole,
                ),
                ..contents(*old(store)).stakes
            },
            ..contents(*old(store))
        }),
{
    let pk = (army_id, battlefield_id, &Addr::unchecked(player)).joined_key();
    let row = (Uint128::new(stake.amount), stake.army, stake.battlefield_id, stake.player.clone());
    let multi: MultiIndex<u8, (Uint128, u8, u8, String), (u8, u8, Addr)> = MultiIndex::new(
        army_idx,
        namespace,
        index,
    );
    multi.save(store.storage, &pk, &row).map_err(StorageError::Unreadable)
}

/// Takes a stake out of the index by army with the `Index::remove` of
/// `cw_storage_plus::MultiIndex`: the entry for the army that the stake names and the key goes.
#[verifier::external_body]
pub(crate) fn unindex_by_army(
    store: &mut Store<'_>,
    namespace: &str,
    index: &str,
    army_id: u8,
    battlefield_id: u8,
    player: &str,
    stake: &StakeInfo,
) -> (r: Result<(), StorageError>)
    requires
        namespace@ == "stakes"@,
        index@ == "army"@,
    ensures
        r is Ok,
        contents(*final(store)) == (ContractState {
            stakes: StakeTable {
                by_army: contents(*old(store)).stakes.by_army.remove(
                    (stake@.army, (army_id, battlefield_id, player@)),
                ),
                ..contents(*old(store)).stakes
            },
            ..contents(*old(store))
        }),
{
    let pk = (army_id, battlefield_id, &Addr::unchecked(player)).joined_key();
    let row = (Uint128::new(stake.amount), stake.army, stake.battlefield_id, stake.player.clone());
    let multi: MultiIndex<u8, (Uint128, u8, u8, String), (u8, u8, Addr)> = MultiIndex::new(
        army_idx,
        namespace,
        index,
    );
    multi.remove(store.storage, &pk, &row).map_err(StorageError::Unreadable)
}

/// Enters a stake in the index by battlefield with the `Index::save` of
/// `cw_storage_plus::MultiIndex`: the entry for the battlefield that the stake names and the key
/// holds the length of the key. It fails only where a number does not serialise. The length of a
/// key with an address that fits is well within its type.
#[verifier::external_body]
pub(crate) fn index_by_battlefield(
    store: &mut Store<'_>,
    namespace: &str,
    index: &str,
    army_id: u8,
    battlefield_id: u8,
    player: &str,
    stake: &StakeInfo,
) -> (r: Result<(), StorageError>)
    requires
        namespace@ == "stakes"@,
        index@ == "battlefield_id"@,
        fits_key(player@),
    ensures
        r is Ok,
        contents(*final(store)) == (ContractState {
            stakes: StakeTable {
                by_battlefield: contents(*old(store)).stakes.by_battlefield.insert(
                    (stake@.battlefield_id, (army_id, battlefield_id, player@)),
                    Pointer::Whole,
                ),
                ..contents(*old(store)).stakes
            },
            ..contents(*old(store))
        }),
{
    let pk = (army_id, battlefield_id, &Addr::unchecked(player)).joined_key();
    let row = (Uint128::new(stake.amount), stake.army, stake.battlefield_id, stake.player.clone());
    let multi: MultiIndex<u8, (Uint128, u8, u8, String), (u8, u8, Addr)> = MultiIndex::new(
        battlefield_id_idx,
        namespace,
        index,
    );
    multi.save(store.storage, &pk, &row).map_err(StorageError::Unreadable)
}

/// Takes a stake out of the index by battlefield with the `Index::remove` of
/// `cw_storage_plus::MultiIndex`: the entry for the battlefield that the stake names and the key
/// goes.
#[verifier::external_body]
pub(crate) fn unindex_by_battlefield(
    store: &mut Store<'_>,
    namespace: &str,
    index: &str,
    army_id: u8,
    battlefield_id: u8,
    player: &str,
    stake: &StakeInfo,
) -> (r: Result<(), StorageError>)
    requires
        namespace@ == "stakes"@,
        index@ == "battlefield_id"@,
    ensures
        r is Ok,
        contents(*final(store)) == (ContractState {
            stakes: StakeTable {
                by_battlefield: contents(*old(store)).stakes.by_battlefield.remove(
                    (stake@.battlefield_id, (army_id, battlefield_id, player@)),
                ),
                ..contents(*old(store)).stakes
            },
            ..contents(*old(store))
        }),
{
    let pk = (army_id, battlefield_id, &Addr::unchecked(player)).joined_key();
    let row = (Uint128::new(stake.amount), stake.army, stake.battlefield_id, stake.player.clone());
    let multi: MultiIndex<u8, (Uint128, u8, u8, String), (u8, u8, Addr)> = MultiIndex::new(
        battlefield_id_idx,
        namespace,
        index,
    );
    multi.remove(store.storage, &pk, &row).map_err(StorageError::Unreadable)
}

/// Enters a stake in the index by player with the `Index::save` of `cw_storage_plus::MultiIndex`:
/// the entry for the player that the stake names and the key holds the length of the key. It
/// fails only where a number does not serialise. The length of a key with an address that fits is
/// well within its type.
/// The call panics on an address that does not fit into a key.
#[verifier::external_body]
pub(crate) fn index_by_player(
    store: &mut Store<'_>,
    namespace: &str,
    index: &str,
    army_id: u8,
    battlefield_id: u8,
    player: &str,
    stake: &StakeInfo,
) -> (r: Result<(), StorageError>)
    requires
        namespace@ == "stakes"@,
        index@ == "player"@,
        fits_key(stake@.player),
        fits_key(player@),
    ensures
        r is Ok,
        contents(*final(store)) == (ContractState {
            stakes: StakeTable {
                by_player: contents(*old(store)).stakes.by_player.insert(
                    (stake@.player, (army_id, battlefield_id, player@)),
                    Pointer::Whole,
                ),
                ..contents(*old(store)).stakes
            },
            ..contents(*old(store))
        }),
{
    let pk = (army_id, battlefield_id, &Addr::unchecked(player)).joined_key();
    let row = (Uint128::new(stake.amount), stake.army, stake.battlefield_id, stake.player.clone());
    let multi: MultiIndex<String, (Uint128, u8, u8, String), (u8, u8, Addr)> = MultiIndex::new(
        player_idx,
        namespace,
        index,
    );
    multi.save(store.storage, &pk, &row).map_err(StorageError::Unreadable)
}

/// Takes a stake out of the index by player with the `Index::remove` of
/// `cw_storage_plus::MultiIndex`: the entry for the player that the stake names and the key goes.
/// The call panics on an address that does not fit into a key.
#[verifier::external_body]
pub(crate) fn unindex_by_player(
    store: &mut Store<'_>,
    namespace: &str,
    index: &str,
    army_id: u8,
    battlefield_id: u8,
    player: &str,
    stake: &StakeInfo,
) -> (r: Result<(), StorageError>)
    requires
        namespace@ == "stakes"@,
        index@ == "player"@,
        fits_key(stake@.player),
    ensures
        r is Ok,
        contents(*final(store)) == (ContractState {
            stakes: StakeTable {
                by_player: contents(*old(store)).stakes.by_player.remove(
                    (stake@.player, (army_id, battlefield_id, player@)),
                ),
                ..contents(*old(store)).stakes
            },
            ..contents(*old(store))
        }),
{
    let pk = (army_id, battlefield_id, &Addr::unchecked(player)).joined_key();
    let row = (Uint128::new(stake.amount), stake.army, stake.battlefield_id, stake.player.clone());
    let multi: MultiIndex<String, (Uint128, u8, u8, String), (u8, u8, Addr)> = MultiIndex::new(
        player_idx,
        namespace,
        index,
    );
    multi.remove(store.storage, &pk, &row).map_err(StorageError::Unreadable)
}

/// Walks the stakes that the index has under one player with `cw_storage_plus::MultiIndex::prefix`
/// and `cw_storage_plus::Prefix::range`, by ascending army and battlefield, up to the first whose
/// value is missing or does not decode. Of entries that are not whole, or for no stake of the
/// player, nothing is claimed: the walk may panic on them. It panics on an address that does not
/// fit into a key.
#[verifier::external_body]
pub(crate) fn range_player_stakes(
    store: &ReadStore<'_>,
    namespace: &str,
    index: &str,
    player: &str,
) -> (r: Result<Vec<StakeInfo>, StorageError>)
    requires
        namespace@ == "stakes"@,
        index@ == "player"@,
        fits_key(player@),
        straight(read_contents(*store).stakes, player@),
    ensures
        r matches Ok(stakes) ==> stake_views(stakes@) == values(
            pair_rows(stakes_of(read_contents(*store).stakes, player@).entries),
        ),
        r is Ok <==> all_readable(stakes_of(read_contents(*store).stakes, player@)),
        r matches Err(e) ==> e is Unreadable,
{
    let multi: MultiIndex<String, (Uint128, u8, u8, String), (u8, u8, Addr)> = MultiIndex::new(
        player_idx,
        namespace,
        index,
    );
    let prefix = multi.prefix(player.to_owned());
    prefix.range(store.storage, None, None, Order::Ascending).map(|entry| match entry {
        Ok((_, (amount, army, battlefield_id, player))) => Ok(
            StakeInfo { amount: amount.u128(), army, battlefield_id, player },
        ),
        Err(e) => Err(StorageError::Unreadable(e)),
    }).collect()
}

/// Reads what was paid out to a player with `cw_storage_plus::Map::may_load`: the value
/// stored, `None` if there is none, or an error if it does not decode.
#[verifier::external_body]
pub(crate) fn may_load_withdrawal(
    store: &ReadStore<'_>,
    namespace: &str,
    player: &str,
) -> (r: Result<Option<u128>, StorageError>)
    requires
        namespace@ == "withdrawals"@,
    ensures
        seen_option(r) == may_load_of(slot(read_contents(*store).withdrawals, player@)),
{
    let map: StorageMap<&Addr, Uint128> = StorageMap::new(namespace);
    match map.may_load(store.storage, &Addr::unchecked(player)) {
        Ok(Some(amount)) => Ok(Some(amount.u128())),
        Ok(None) => Ok(None),
        Err(e) => Err(StorageError::Unreadable(e)),
    }
}

/// Writes what was paid out to a player with `cw_storage_plus::Map::save`, which replaces what
/// the key held and leaves the other keys alone. It fails only where a value does not
/// serialise, and integers do.
#[verifier::external_body]
pub(crate) fn save_withdrawal(
    store: &mut Store<'_>,
    namespace: &str,
    player: &str,
    amount: u128,
) -> (r: Result<(), StorageError>)
    requires
        namespace@ == "withdrawals"@,
    ensures
        r is Ok,
        contents(*final(store)) == (ContractState {
            withdrawals: contents(*old(store)).withdrawals.insert(
                player@,
                Slot::Readable(amount),
            ),
            ..contents(*old(store))
        }),
{
    let map: StorageMap<&Addr, Uint128> = StorageMap::new(namespace);
    map.save(store.storage, &Addr::unchecked(player), &Uint128::new(amount)).map_err(
        StorageError::Unreadable,
    )
}

} // verus!
