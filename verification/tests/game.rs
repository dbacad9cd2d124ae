use cosmwasm_std::testing::MockStorage;
use cosmwasm_std::{Addr, Order, Storage, Uint128};
use cw_blotto::contract::{
    BlottoContract, ARMY_LIMIT, BATTLEFIELD_LIMIT, CONTRACT_NAME, CONTRACT_VERSION, DEFAULT_LIMIT,
    MAX_LIMIT,
};
use cw_blotto::error::{ContractError, OverflowOperation, PaymentError, StorageError};
use cw_blotto::msg::{Attribute, BankMsg, InstantiateMsgData, PlayerInfo, Response};
use cw_blotto::state::{
    Army, ArmyInfo, Battlefield, BattlefieldInfo, BlockInfo, Coin, Config, Env, GamePhase,
    MessageInfo, Timestamp,
};
use cw_blotto::storage::{ReadStore, Store};
use cw_storage_plus::{Index, IndexList, IndexedMap, MultiIndex};

const SECOND: u64 = 1_000_000_000;

fn env(seconds: u64) -> Env {
    Env { block: BlockInfo { time: Timestamp { nanos: seconds * SECOND } } }
}

fn coin(amount: u128, denom: &str) -> Coin {
    Coin { denom: denom.to_string(), amount }
}

fn message(sender: &str, funds: Vec<Coin>) -> MessageInfo {
    MessageInfo { sender: sender.to_string(), funds }
}

fn pays(sender: &str, amount: u128) -> MessageInfo {
    message(sender, vec![coin(amount, "ublot")])
}

fn army_info(name: &str) -> ArmyInfo {
    ArmyInfo { name: name.to_string(), ipfs_uri: format!("ipfs://{name}") }
}

fn field_info(name: &str, value: u8) -> BattlefieldInfo {
    BattlefieldInfo { name: name.to_string(), ipfs_uri: format!("ipfs://{name}"), value }
}

fn data() -> InstantiateMsgData {
    InstantiateMsgData {
        armies: vec![army_info("red"), army_info("blue"), army_info("green")],
        battlefields: vec![field_info("hill", 3), field_info("ford", 4)],
        battle_duration: Timestamp { nanos: 100 * SECOND },
        denom: "ublot".to_string(),
    }
}

/// A game that was set up at second 1000 and lasts 100 seconds.
fn game() -> MockStorage {
    let mut storage = MockStorage::new();
    let contract = BlottoContract::new();
    contract.instantiate(&mut Store { storage: &mut storage }, &env(1000), data()).unwrap();
    storage
}

fn stake(
    storage: &mut MockStorage,
    info: &MessageInfo,
    army: u8,
    field: u8,
) -> Result<Response, ContractError> {
    BlottoContract::new().stake(&mut Store { storage }, info, army, field)
}

fn tally(storage: &mut MockStorage, seconds: u64) -> Result<Response, ContractError> {
    BlottoContract::new().tally(&mut Store { storage }, &env(seconds))
}

fn withdraw(storage: &mut MockStorage, sender: &str) -> Result<Response, ContractError> {
    BlottoContract::new().withdraw(&mut Store { storage }, &message(sender, vec![]))
}

/// What a withdrawal pays, in the coin of the game.
fn paid(storage: &mut MockStorage, sender: &str) -> u128 {
    let reply = withdraw(storage, sender).unwrap();
    assert_eq!(reply.attributes, vec![attribute("action", "withdraw")]);
    assert_eq!(reply.messages.len(), 1);
    match &reply.messages[0] {
        BankMsg::Send { to_address, amount } => {
            assert_eq!(to_address, sender);
            assert_eq!(amount.len(), 1);
            assert_eq!(amount[0].denom, "ublot");
            amount[0].amount
        }
    }
}

fn player_info(storage: &MockStorage, player: &str) -> Result<PlayerInfo, ContractError> {
    BlottoContract::new().player_info(&ReadStore { storage }, player)
}

fn status(storage: &MockStorage) -> Result<GamePhase, StorageError> {
    BlottoContract::new().status(&ReadStore { storage })
}

fn army(storage: &MockStorage, id: u8) -> Army {
    BlottoContract::new().army(&ReadStore { storage }, id).unwrap()
}

fn battlefield(storage: &MockStorage, id: u8) -> Battlefield {
    BlottoContract::new().battlefield(&ReadStore { storage }, id).unwrap()
}

fn map_key(namespace: &str, rest: &[u8]) -> Vec<u8> {
    let mut key = vec![0, namespace.len() as u8];
    key.extend_from_slice(namespace.as_bytes());
    key.extend_from_slice(rest);
    key
}

fn raw(storage: &MockStorage, key: &[u8]) -> Option<String> {
    storage.get(key).map(|v| String::from_utf8(v).unwrap())
}

fn total_on_field(storage: &MockStorage, army: u8, field: u8) -> Option<String> {
    raw(storage, &map_key("army_totals_by_battlefield", &[0, 1, army, field]))
}

fn player_total(storage: &MockStorage, player: &str, army: u8) -> Option<String> {
    let mut rest = vec![0, player.len() as u8];
    rest.extend_from_slice(player.as_bytes());
    rest.push(army);
    raw(storage, &map_key("player_totals_by_army", &rest))
}

fn stake_key(player: &str, army: u8, field: u8) -> Vec<u8> {
    map_key("stakes", &stake_pk(player, army, field))
}

fn stake_pk(player: &str, army: u8, field: u8) -> Vec<u8> {
    let mut pk = vec![0, 1, army, 0, 1, field];
    pk.extend_from_slice(player.as_bytes());
    pk
}

type StakeRow = (Uint128, u8, u8, String);

struct Indexes<'a> {
    army: MultiIndex<'a, u8, StakeRow, (u8, u8, Addr)>,
    battlefield_id: MultiIndex<'a, u8, StakeRow, (u8, u8, Addr)>,
    player: MultiIndex<'a, Addr, StakeRow, (u8, u8, Addr)>,
}

impl IndexList<StakeRow> for Indexes<'_> {
    fn get_indexes(&'_ self) -> Box<dyn Iterator<Item = &'_ dyn Index<StakeRow>> + '_> {
        let all: Vec<&dyn Index<StakeRow>> = vec![&self.army, &self.battlefield_id, &self.player];
        Box::new(all.into_iter())
    }
}

/// The stakes as one indexed map.
fn indexed_map<'a>() -> IndexedMap<'a, (u8, u8, &'a Addr), StakeRow, Indexes<'a>> {
    let indexes = Indexes {
        army: MultiIndex::new(|_, row| row.1, "stakes", "army"),
        battlefield_id: MultiIndex::new(|_, row| row.2, "stakes", "battlefield_id"),
        player: MultiIndex::new(|_, row| Addr::unchecked(row.3.as_str()), "stakes", "player"),
    };
    IndexedMap::new("stakes", indexes)
}

/// What lies under a namespace.
fn under(storage: &MockStorage, namespace: &str) -> Vec<(Vec<u8>, Vec<u8>)> {
    let prefix = map_key(namespace, &[]);
    let mut all = dump(storage);
    all.retain(|row| row.0.starts_with(&prefix));
    all
}

fn close(storage: &mut MockStorage) {
    storage.set(b"phase", b"false");
}

fn dump(storage: &MockStorage) -> Vec<(Vec<u8>, Vec<u8>)> {
    storage.range(None, None, Order::Ascending).collect()
}

fn attribute(key: &str, value: &str) -> Attribute {
    Attribute { key: key.to_string(), value: value.to_string() }
}

// Setting the game up

#[test]
fn limits_are_as_documented() {
    assert_eq!((ARMY_LIMIT, BATTLEFIELD_LIMIT, DEFAULT_LIMIT, MAX_LIMIT), (5, 10, 10, 50));
}

#[test]
fn collections_have_their_namespaces() {
    let contract = BlottoContract::new();
    assert_eq!(contract.armies, "armies");
    assert_eq!(contract.army_totals_by_battlefield, "army_totals_by_battlefield");
    assert_eq!(contract.battlefields, "battlefields");
    assert_eq!(contract.config, "config");
    assert_eq!(contract.phase, "phase");
    assert_eq!(contract.prize_pool, "prize_pool");
    assert_eq!(contract.player_totals_by_army, "player_totals_by_army");
    assert_eq!(contract.stakes.primary, "stakes");
    assert_eq!(contract.stakes.idx.army, "army");
    assert_eq!(contract.stakes.idx.battlefield_id, "battlefield_id");
    assert_eq!(contract.stakes.idx.player, "player");
    assert_eq!(contract.winner, "winner");
    assert_eq!(contract.withdrawals, "withdrawals");
}

#[test]
fn instantiate_replies_with_nothing() {
    let mut storage = MockStorage::new();
    let reply = BlottoContract::new()
        .instantiate(&mut Store { storage: &mut storage }, &env(1000), data())
        .unwrap();
    assert_eq!(reply, Response { messages: vec![], attributes: vec![] });
}

#[test]
fn instantiate_records_name_and_version() {
    let storage = game();
    let version = cw2::get_contract_version(&storage).unwrap();
    assert_eq!(version.contract, CONTRACT_NAME);
    assert_eq!(version.version, CONTRACT_VERSION);
}

#[test]
fn armies_read_back_with_ids_from_one() {
    let storage = game();
    let expected = |id: u8, name: &str| Army {
        name: name.to_string(),
        ipfs_uri: format!("ipfs://{name}"),
        id,
        total_staked: 0,
        victory_points: 0,
    };
    assert_eq!(army(&storage, 1), expected(1, "red"));
    assert_eq!(army(&storage, 2), expected(2, "blue"));
    assert_eq!(army(&storage, 3), expected(3, "green"));
    let all = BlottoContract::new().armies(&ReadStore { storage: &storage }).unwrap();
    assert_eq!(all, vec![expected(3, "green"), expected(2, "blue"), expected(1, "red")]);
}

#[test]
fn battlefields_read_back_with_ids_from_one() {
    let storage = game();
    let expected = |id: u8, name: &str, value: u8| Battlefield {
        name: name.to_string(),
        ipfs_uri: format!("ipfs://{name}"),
        id,
        value,
        winner: None,
    };
    assert_eq!(battlefield(&storage, 1), expected(1, "hill", 3));
    assert_eq!(battlefield(&storage, 2), expected(2, "ford", 4));
    let all = BlottoContract::new().battlefields(&ReadStore { storage: &storage }).unwrap();
    assert_eq!(all, vec![expected(2, "ford", 4), expected(1, "hill", 3)]);
}

#[test]
fn config_reads_back() {
    let storage = game();
    let config = BlottoContract::new().config(&ReadStore { storage: &storage }).unwrap();
    assert_eq!(
        config,
        Config {
            start: Timestamp { nanos: 1000 * SECOND },
            battle_duration: Timestamp { nanos: 100 * SECOND },
            denom: "ublot".to_string(),
        }
    );
    assert_eq!(raw(&storage, b"phase"), Some("true".to_string()));
}

#[test]
fn names_of_any_text_read_back() {
    let mut storage = MockStorage::new();
    let odd = "tab\t quote\" slash\\ nul\u{0} bell\u{7} é 黑 👑\u{7f}\r\n";
    let mut d = data();
    d.armies[0].name = odd.to_string();
    d.battlefields[0].ipfs_uri = odd.to_string();
    d.denom = odd.to_string();
    let contract = BlottoContract::new();
    contract.instantiate(&mut Store { storage: &mut storage }, &env(1), d).unwrap();
    assert_eq!(army(&storage, 1).name, odd);
    assert_eq!(battlefield(&storage, 1).ipfs_uri, odd);
    assert_eq!(contract.config(&ReadStore { storage: &storage }).unwrap().denom, odd);
}

#[test]
fn empty_lists_make_an_empty_game() {
    let mut storage = MockStorage::new();
    let mut d = data();
    d.armies.clear();
    d.battlefields.clear();
    let contract = BlottoContract::new();
    contract.instantiate(&mut Store { storage: &mut storage }, &env(1), d).unwrap();
    assert_eq!(contract.armies(&ReadStore { storage: &storage }).unwrap(), vec![]);
    assert_eq!(contract.battlefields(&ReadStore { storage: &storage }).unwrap(), vec![]);
}

#[test]
fn a_game_has_no_more_armies_than_the_limit() {
    let contract = BlottoContract::new();
    let mut storage = MockStorage::new();
    let mut d = data();
    d.armies = (0..6).map(|i| army_info(&format!("a{i}"))).collect();
    let r = contract.instantiate(&mut Store { storage: &mut storage }, &env(1), d.clone());
    assert_eq!(r, Err(ContractError::TooManyArmies {}));
    assert_eq!(dump(&storage), vec![]);
    d.armies.pop();
    contract.instantiate(&mut Store { storage: &mut storage }, &env(1), d).unwrap();
    let all = contract.armies(&ReadStore { storage: &storage }).unwrap();
    assert_eq!(all.len(), 5);
    assert_eq!((all[0].id, all[0].name.as_str()), (5, "a4"));
    assert_eq!((all[4].id, all[4].name.as_str()), (1, "a0"));
}

#[test]
fn a_game_has_no_more_battlefields_than_the_limit() {
    let contract = BlottoContract::new();
    let mut storage = MockStorage::new();
    let mut d = data();
    d.battlefields = (0..11).map(|i| field_info(&format!("f{i}"), i)).collect();
    let r = contract.instantiate(&mut Store { storage: &mut storage }, &env(1), d.clone());
    assert_eq!(r, Err(ContractError::TooManyBattlefields {}));
    assert_eq!(dump(&storage), vec![]);
    d.battlefields.pop();
    contract.instantiate(&mut Store { storage: &mut storage }, &env(1), d).unwrap();
    let all = contract.battlefields(&ReadStore { storage: &storage }).unwrap();
    assert_eq!(all.len(), 10);
    assert_eq!((all[0].id, all[0].value), (10, 9));
}

// Reading what is not there, or not readable

#[test]
fn missing_values_are_not_found() {
    let storage = MockStorage::new();
    let contract = BlottoContract::new();
    let store = ReadStore { storage: &storage };
    assert!(matches!(contract.army(&store, 1), Err(StorageError::NotFound(_))));
    assert!(matches!(contract.battlefield(&store, 1), Err(StorageError::NotFound(_))));
    assert!(matches!(contract.config(&store), Err(StorageError::NotFound(_))));
}

#[test]
fn undecodable_values_are_unreadable() {
    let mut storage = game();
    storage.set(&map_key("armies", &[2]), b"junk");
    storage.set(&map_key("battlefields", &[1]), b"[1]");
    storage.set(b"config", b"{}");
    let contract = BlottoContract::new();
    let store = ReadStore { storage: &storage };
    assert!(matches!(contract.army(&store, 2), Err(StorageError::Unreadable(_))));
    assert!(contract.army(&store, 1).is_ok());
    assert!(matches!(contract.battlefield(&store, 1), Err(StorageError::Unreadable(_))));
    assert!(matches!(contract.config(&store), Err(StorageError::Unreadable(_))));
    assert!(!contract.armies_readable(&store));
    assert!(!contract.battlefields_readable(&store));
}

#[test]
fn a_stray_key_makes_a_list_unreadable() {
    let mut storage = game();
    let contract = BlottoContract::new();
    assert!(contract.armies_readable(&ReadStore { storage: &storage }));
    assert!(contract.battlefields_readable(&ReadStore { storage: &storage }));
    storage.set(&map_key("armies", &[2, 2]), b"1");
    assert!(!contract.armies_readable(&ReadStore { storage: &storage }));
    assert!(contract.battlefields_readable(&ReadStore { storage: &storage }));
}

// Staking

#[test]
fn stake_is_entered_in_all_books() {
    let mut storage = game();
    let reply = stake(&mut storage, &pays("alice", 70), 2, 1).unwrap();
    assert_eq!(
        reply,
        Response {
            messages: vec![],
            attributes: vec![
                attribute("action", "stake"),
                attribute("army_id", "2"),
                attribute("battlefield_id", "1"),
            ],
        }
    );
    assert_eq!(army(&storage, 2).total_staked, 70);
    assert_eq!(total_on_field(&storage, 2, 1), Some("\"70\"".to_string()));
    assert_eq!(player_total(&storage, "alice", 2), Some("\"70\"".to_string()));
    let row = raw(&storage, &stake_key("alice", 2, 1));
    assert_eq!(row, Some("[\"70\",2,1,\"alice\"]".to_string()));
}

#[test]
fn stakes_lie_as_an_indexed_map_keeps_them() {
    let plays: [(&str, u128, u8, u8); 5] = [
        ("alice", 5, 2, 1),
        ("bob", 7, 1, 2),
        ("alice", 9, 1, 2),
        ("alice", 1, 2, 1),
        ("é", 3, 3, 1),
    ];
    let map = indexed_map();
    let mut storage = game();
    let mut mirror = MockStorage::new();
    for (player, amount, army, field) in plays {
        stake(&mut storage, &pays(player, amount), army, field).unwrap();
        let address = Addr::unchecked(player);
        let key = (army, field, &address);
        let old = map.may_load(&mirror, key).unwrap();
        let total = old.map_or(0, |row| row.0.u128()) + amount;
        let row = (Uint128::new(total), army, field, player.to_string());
        map.save(&mut mirror, key, &row).unwrap();
        for namespace in ["stakes", "army", "battlefield_id", "player"] {
            assert_eq!(under(&storage, namespace), under(&mirror, namespace));
        }
    }
    assert_eq!(under(&storage, "player").len(), 4);
    let first = map
        .idx
        .army
        .prefix(1)
        .range(&storage, None, None, Order::Ascending)
        .map(|entry| entry.unwrap().1 .3)
        .collect::<Vec<_>>();
    assert_eq!(first, vec!["alice".to_string(), "bob".to_string()]);
    let entry = [&[0, 1, 1][..], &stake_pk("alice", 2, 1)].concat();
    assert_eq!(raw(&storage, &map_key("battlefield_id", &entry)), Some("11".to_string()));
}

#[test]
fn a_stake_that_names_other_places_is_indexed_anew() {
    let map = indexed_map();
    let alice = Addr::unchecked("alice");
    let mut storage = game();
    let stray = (Uint128::new(5), 2, 7, "bob".to_string());
    map.save(&mut storage, (2, 1, &alice), &stray).unwrap();
    let mut mirror = storage.range(None, None, Order::Ascending).fold(
        MockStorage::new(),
        |mut copy, (key, value)| {
            copy.set(&key, &value);
            copy
        },
    );
    stake(&mut storage, &pays("alice", 4), 2, 1).unwrap();
    let row = (Uint128::new(9), 2, 1, "alice".to_string());
    map.save(&mut mirror, (2, 1, &alice), &row).unwrap();
    for namespace in ["stakes", "army", "battlefield_id", "player"] {
        assert_eq!(under(&storage, namespace), under(&mirror, namespace));
        assert_eq!(under(&storage, namespace).len(), 1);
    }
}

#[test]
fn stake_leaves_everything_else() {
    let mut storage = game();
    stake(&mut storage, &pays("alice", 70), 2, 1).unwrap();
    assert_eq!(army(&storage, 1).total_staked, 0);
    assert_eq!(army(&storage, 3).total_staked, 0);
    assert_eq!(army(&storage, 2).name, "blue");
    assert_eq!(total_on_field(&storage, 2, 2), None);
    assert_eq!(total_on_field(&storage, 1, 1), None);
    assert_eq!(player_total(&storage, "alice", 1), None);
    assert_eq!(player_total(&storage, "bob", 2), None);
    assert_eq!(raw(&storage, &stake_key("alice", 2, 2)), None);
    assert_eq!(battlefield(&storage, 1).winner, None);
    assert_eq!(raw(&storage, b"phase"), Some("true".to_string()));
}

#[test]
fn ids_are_written_in_decimal() {
    let mut storage = game();
    storage.set(&map_key("armies", &[255]), b"[\"far\",\"u\",255,\"0\",0]");
    let reply = stake(&mut storage, &pays("alice", 1), 255, 10).unwrap();
    assert_eq!(reply.attributes[1], attribute("army_id", "255"));
    assert_eq!(reply.attributes[2], attribute("battlefield_id", "10"));
    let reply = stake(&mut storage, &pays("alice", 1), 1, 0).unwrap();
    assert_eq!(reply.attributes[1], attribute("army_id", "1"));
    assert_eq!(reply.attributes[2], attribute("battlefield_id", "0"));
}

#[test]
fn stakes_at_the_same_place_add_up() {
    let mut twice = game();
    stake(&mut twice, &pays("alice", 30), 2, 1).unwrap();
    stake(&mut twice, &pays("alice", 40), 2, 1).unwrap();
    let mut once = game();
    stake(&mut once, &pays("alice", 70), 2, 1).unwrap();
    assert_eq!(dump(&twice), dump(&once));
}

#[test]
fn stakes_of_players_commute() {
    let mut one = game();
    stake(&mut one, &pays("alice", 30), 2, 1).unwrap();
    stake(&mut one, &pays("bob", 40), 2, 1).unwrap();
    let mut two = game();
    stake(&mut two, &pays("bob", 40), 2, 1).unwrap();
    stake(&mut two, &pays("alice", 30), 2, 1).unwrap();
    assert_eq!(dump(&one), dump(&two));
}

#[test]
fn books_agree_after_many_stakes() {
    let mut storage = game();
    stake(&mut storage, &pays("alice", 5), 2, 1).unwrap();
    stake(&mut storage, &pays("alice", 7), 2, 2).unwrap();
    stake(&mut storage, &pays("bob", 11), 2, 1).unwrap();
    stake(&mut storage, &pays("bob", 13), 1, 2).unwrap();
    assert_eq!(army(&storage, 2).total_staked, 23);
    assert_eq!(army(&storage, 1).total_staked, 13);
    assert_eq!(total_on_field(&storage, 2, 1), Some("\"16\"".to_string()));
    assert_eq!(total_on_field(&storage, 2, 2), Some("\"7\"".to_string()));
    assert_eq!(player_total(&storage, "alice", 2), Some("\"12\"".to_string()));
    assert_eq!(player_total(&storage, "bob", 2), Some("\"11\"".to_string()));
    assert_eq!(player_total(&storage, "bob", 1), Some("\"13\"".to_string()));
}

#[test]
fn a_player_is_on_one_side_in_a_battlefield() {
    let mut storage = game();
    stake(&mut storage, &pays("alice", 100), 1, 1).unwrap();
    let before = dump(&storage);
    assert_eq!(stake(&mut storage, &pays("alice", 50), 2, 1), Err(ContractError::Traitor {}));
    assert_eq!(dump(&storage), before);
    // Another battlefield, another player and the same side are in order
    stake(&mut storage, &pays("alice", 50), 2, 2).unwrap();
    stake(&mut storage, &pays("bob", 50), 2, 1).unwrap();
    stake(&mut storage, &pays("alice", 1), 1, 1).unwrap();
    assert_eq!(army(&storage, 1).total_staked, 101);
    assert_eq!(army(&storage, 2).total_staked, 100);
}

#[test]
fn an_unreadable_stake_with_another_army_counts_as_a_side() {
    let mut storage = game();
    storage.set(&stake_key("alice", 255, 1), b"junk");
    assert_eq!(stake(&mut storage, &pays("alice", 5), 1, 1), Err(ContractError::Traitor {}));
    assert!(stake(&mut storage, &pays("alice", 5), 1, 2).is_ok());
}

#[test]
fn a_battlefield_need_not_exist() {
    let mut storage = game();
    stake(&mut storage, &pays("alice", 5), 1, 99).unwrap();
    assert_eq!(total_on_field(&storage, 1, 99), Some("\"5\"".to_string()));
}

#[test]
fn stake_needs_an_open_game() {
    let mut storage = game();
    close(&mut storage);
    let before = dump(&storage);
    assert_eq!(stake(&mut storage, &pays("alice", 5), 1, 1), Err(ContractError::NotOpen {}));
    assert_eq!(dump(&storage), before);
}

#[test]
fn stake_needs_a_game() {
    let mut storage = MockStorage::new();
    let r = stake(&mut storage, &pays("alice", 5), 1, 1);
    assert!(matches!(r, Err(ContractError::Std(StorageError::NotFound(_)))));
}

#[test]
fn stake_needs_a_readable_phase() {
    let mut storage = game();
    storage.set(b"phase", b"\"open\"");
    let r = stake(&mut storage, &pays("alice", 5), 1, 1);
    assert!(matches!(r, Err(ContractError::Std(StorageError::Unreadable(_)))));
    storage.remove(b"phase");
    let r = stake(&mut storage, &pays("alice", 5), 1, 1);
    assert!(matches!(r, Err(ContractError::Std(StorageError::NotFound(_)))));
}

#[test]
fn stake_needs_the_right_payment() {
    let mut storage = game();
    let before = dump(&storage);
    let none = message("alice", vec![]);
    assert_eq!(
        stake(&mut storage, &none, 1, 1),
        Err(ContractError::Payment(PaymentError::NoFunds {}))
    );
    assert_eq!(
        stake(&mut storage, &pays("alice", 0), 1, 1),
        Err(ContractError::Payment(PaymentError::NoFunds {}))
    );
    let other = message("alice", vec![coin(5, "uatom")]);
    assert_eq!(
        stake(&mut storage, &other, 1, 1),
        Err(ContractError::Payment(PaymentError::MissingDenom("ublot".to_string())))
    );
    let both = message("alice", vec![coin(5, "ublot"), coin(5, "uatom")]);
    assert_eq!(
        stake(&mut storage, &both, 1, 1),
        Err(ContractError::Payment(PaymentError::MultipleDenoms {}))
    );
    assert_eq!(dump(&storage), before);
}

#[test]
fn stake_needs_an_army() {
    let mut storage = game();
    let before = dump(&storage);
    assert_eq!(
        stake(&mut storage, &pays("alice", 5), 4, 1),
        Err(ContractError::NoArmy { id: 4 })
    );
    assert_eq!(dump(&storage), before);
}

#[test]
fn stake_needs_a_readable_army() {
    let mut storage = game();
    storage.set(&map_key("armies", &[1]), b"junk");
    let r = stake(&mut storage, &pays("alice", 5), 1, 1);
    assert!(matches!(r, Err(ContractError::Std(StorageError::Unreadable(_)))));
}

#[test]
fn stake_that_overflows_the_army_is_refused() {
    let mut storage = game();
    stake(&mut storage, &pays("alice", u128::MAX), 1, 1).unwrap();
    assert_eq!(
        stake(&mut storage, &pays("bob", 2), 1, 2),
        Err(ContractError::Overflow {
            operation: OverflowOperation::Add,
            left: u128::MAX,
            right: 2
        })
    );
}

#[test]
fn a_stake_refused_late_changes_nothing() {
    let mut storage = game();
    storage.set(&stake_key("alice", 1, 1), b"junk");
    let before = dump(&storage);
    let r = stake(&mut storage, &pays("alice", 5), 1, 1);
    assert!(matches!(r, Err(ContractError::Std(StorageError::Unreadable(_)))));
    assert_eq!(dump(&storage), before);
}

#[test]
fn a_stake_that_names_another_army_is_treason() {
    let mut storage = game();
    storage.set(&stake_key("alice", 1, 1), b"[\"5\",2,1,\"alice\"]");
    assert_eq!(stake(&mut storage, &pays("alice", 5), 1, 1), Err(ContractError::Traitor {}));
}

// Tallying the scores

#[test]
fn tally_has_to_wait_for_the_end() {
    let mut storage = game();
    stake(&mut storage, &pays("alice", 5), 1, 1).unwrap();
    let before = dump(&storage);
    assert_eq!(tally(&mut storage, 1099), Err(ContractError::NotOver {}));
    assert_eq!(dump(&storage), before);
    assert!(tally(&mut storage, 1100).is_ok());
}

#[test]
fn the_end_goes_by_whole_seconds() {
    let mut storage = MockStorage::new();
    let mut d = data();
    d.battle_duration = Timestamp { nanos: 100 * SECOND + SECOND / 2 };
    let start = Env { block: BlockInfo { time: Timestamp { nanos: 1000 * SECOND + SECOND / 2 } } };
    BlottoContract::new().instantiate(&mut Store { storage: &mut storage }, &start, d).unwrap();
    stake(&mut storage, &pays("alice", 5), 1, 1).unwrap();
    assert!(tally(&mut storage, 1100).is_ok());
    assert_eq!(Timestamp { nanos: SECOND * 2 - 1 }.seconds(), 1);
}

#[test]
fn tally_needs_a_game() {
    let mut storage = MockStorage::new();
    let r = tally(&mut storage, 1100);
    assert!(matches!(r, Err(ContractError::Std(StorageError::NotFound(_)))));
}

#[test]
fn tally_closes_the_game() {
    let mut storage = game();
    stake(&mut storage, &pays("alice", 100), 1, 1).unwrap();
    assert_eq!(status(&storage), Ok(GamePhase::Open));
    tally(&mut storage, 1100).unwrap();
    assert_eq!(status(&storage), Ok(GamePhase::Closed));
    let before = dump(&storage);
    assert_eq!(stake(&mut storage, &pays("bob", 5), 1, 1), Err(ContractError::NotOpen {}));
    assert_eq!(tally(&mut storage, 1), Err(ContractError::NotOver {}));
    assert_eq!(dump(&storage), before);
    assert_eq!(army(&storage, 1).victory_points, 3);
}

#[test]
fn a_later_tally_decides_the_same() {
    let mut once = game();
    stake(&mut once, &pays("alice", 60), 2, 1).unwrap();
    stake(&mut once, &pays("bob", 50), 1, 2).unwrap();
    stake(&mut once, &pays("carol", 10), 3, 2).unwrap();
    let mut twice = game();
    stake(&mut twice, &pays("alice", 60), 2, 1).unwrap();
    stake(&mut twice, &pays("bob", 50), 1, 2).unwrap();
    stake(&mut twice, &pays("carol", 10), 3, 2).unwrap();
    tally(&mut once, 1100).unwrap();
    tally(&mut twice, 1100).unwrap();
    tally(&mut twice, 1200).unwrap();
    // The points are those of two tallies
    assert_eq!((army(&once, 1).victory_points, army(&once, 2).victory_points), (4, 3));
    assert_eq!((army(&twice, 1).victory_points, army(&twice, 2).victory_points), (8, 6));
    assert_eq!(
        raw(&twice, b"winner"),
        Some("[\"red\",\"ipfs://red\",1,\"50\",8]".to_string())
    );
    assert_eq!(under(&twice, "battlefields"), under(&once, "battlefields"));
    assert_eq!(raw(&twice, b"prize_pool"), raw(&once, b"prize_pool"));
    for player in ["alice", "bob", "carol"] {
        assert_eq!(paid(&mut twice, player), paid(&mut once, player));
    }
}

#[test]
fn tally_does_not_look_at_the_phase() {
    let mut storage = game();
    storage.remove(b"phase");
    tally(&mut storage, 1100).unwrap();
    assert_eq!(status(&storage), Ok(GamePhase::Closed));
}

#[test]
fn points_add_up_to_the_values_of_the_battlefields() {
    let mut storage = game();
    stake(&mut storage, &pays("alice", 60), 2, 1).unwrap();
    stake(&mut storage, &pays("bob", 50), 1, 2).unwrap();
    tally(&mut storage, 1100).unwrap();
    let points: u8 = (1..=3).map(|id| army(&storage, id).victory_points).sum();
    assert_eq!(points, 3 + 4);
}

#[test]
fn the_larger_stake_wins_a_battlefield() {
    let mut storage = game();
    stake(&mut storage, &pays("alice", 40), 1, 1).unwrap();
    stake(&mut storage, &pays("bob", 100), 2, 1).unwrap();
    let reply = tally(&mut storage, 1100).unwrap();
    assert_eq!(reply.messages, vec![]);
    assert_eq!(reply.attributes, vec![attribute("action", "tally")]);
    assert_eq!(army(&storage, 2).victory_points, 3);
    assert_eq!(army(&storage, 1).victory_points, 0);
    assert_eq!(battlefield(&storage, 1).winner, Some(2));
    assert_eq!(battlefield(&storage, 2).winner, None);
    assert_eq!(raw(&storage, b"prize_pool"), Some("\"40\"".to_string()));
    assert_eq!(
        raw(&storage, b"winner"),
        Some("[\"blue\",\"ipfs://blue\",2,\"100\",3]".to_string())
    );
}

#[test]
fn the_pool_has_the_losing_stakes_of_each_battlefield() {
    let mut storage = game();
    stake(&mut storage, &pays("alice", 100), 1, 1).unwrap();
    stake(&mut storage, &pays("alice", 50), 1, 2).unwrap();
    stake(&mut storage, &pays("bob", 10), 2, 1).unwrap();
    stake(&mut storage, &pays("bob", 20), 2, 2).unwrap();
    stake(&mut storage, &pays("carol", 3), 3, 2).unwrap();
    tally(&mut storage, 1100).unwrap();
    assert_eq!(army(&storage, 1).victory_points, 7);
    assert_eq!(battlefield(&storage, 1).winner, Some(1));
    assert_eq!(battlefield(&storage, 2).winner, Some(1));
    assert_eq!(raw(&storage, b"prize_pool"), Some("\"33\"".to_string()));
}

#[test]
fn the_stakes_of_all_players_decide_a_battlefield() {
    let mut storage = game();
    stake(&mut storage, &pays("alice", 60), 3, 1).unwrap();
    stake(&mut storage, &pays("bob", 50), 2, 1).unwrap();
    stake(&mut storage, &pays("carol", 50), 2, 1).unwrap();
    tally(&mut storage, 1100).unwrap();
    assert_eq!(battlefield(&storage, 1).winner, Some(2));
}

#[test]
fn a_tie_has_no_winner() {
    let mut storage = game();
    stake(&mut storage, &pays("alice", 10), 1, 1).unwrap();
    stake(&mut storage, &pays("bob", 10), 2, 1).unwrap();
    stake(&mut storage, &pays("carol", 4), 3, 1).unwrap();
    stake(&mut storage, &pays("carol", 5), 3, 2).unwrap();
    tally(&mut storage, 1100).unwrap();
    assert_eq!(battlefield(&storage, 1).winner, None);
    assert_eq!(battlefield(&storage, 2).winner, Some(3));
    assert_eq!(army(&storage, 1).victory_points, 0);
    assert_eq!(army(&storage, 2).victory_points, 0);
    assert_eq!(army(&storage, 3).victory_points, 4);
    assert_eq!(raw(&storage, b"prize_pool"), Some("\"0\"".to_string()));
    assert_eq!(paid(&mut storage, "alice"), 10);
    assert_eq!(paid(&mut storage, "bob"), 10);
    assert_eq!(paid(&mut storage, "carol"), 9);
}

#[test]
fn tally_leaves_everything_else() {
    let mut storage = game();
    stake(&mut storage, &pays("alice", 10), 3, 1).unwrap();
    stake(&mut storage, &pays("bob", 20), 2, 2).unwrap();
    let before = dump(&storage);
    tally(&mut storage, 2000).unwrap();
    let touched = [
        map_key("armies", &[2]),
        map_key("armies", &[3]),
        map_key("battlefields", &[1]),
        map_key("battlefields", &[2]),
        b"winner".to_vec(),
        b"prize_pool".to_vec(),
        b"phase".to_vec(),
    ];
    let after = dump(&storage);
    for row in &before {
        assert!(touched.contains(&row.0) || after.contains(row));
    }
    for row in &after {
        assert!(touched.contains(&row.0) || before.contains(row));
    }
    assert_eq!(battlefield(&storage, 1).name, "hill");
    assert_eq!(army(&storage, 3).total_staked, 10);
}

#[test]
fn of_armies_with_equal_points_the_lowest_wins() {
    let mut storage = game();
    stake(&mut storage, &pays("alice", 10), 3, 1).unwrap();
    storage.set(&map_key("armies", &[2]), b"[\"blue\",\"u\",2,\"0\",3]");
    tally(&mut storage, 2000).unwrap();
    assert_eq!(army(&storage, 3).victory_points, 3);
    assert_eq!(raw(&storage, b"winner"), Some("[\"blue\",\"u\",2,\"0\",3]".to_string()));
}

#[test]
fn tally_without_stakes_or_battlefields_crowns_an_army() {
    let mut storage = game();
    tally(&mut storage, 2000).unwrap();
    assert_eq!(raw(&storage, b"prize_pool"), Some("\"0\"".to_string()));
    assert_eq!(raw(&storage, b"winner"), Some("[\"red\",\"ipfs://red\",1,\"0\",0]".to_string()));
    assert_eq!(battlefield(&storage, 1).winner, None);

    let mut storage = MockStorage::new();
    let mut d = data();
    d.battlefields.clear();
    BlottoContract::new().instantiate(&mut Store { storage: &mut storage }, &env(1), d).unwrap();
    tally(&mut storage, 2000).unwrap();
    assert_eq!(raw(&storage, b"prize_pool"), Some("\"0\"".to_string()));
}

#[test]
fn tally_skips_what_it_cannot_read() {
    let mut storage = game();
    stake(&mut storage, &pays("alice", 10), 1, 2).unwrap();
    stake(&mut storage, &pays("bob", 5), 2, 2).unwrap();
    storage.set(&map_key("battlefields", &[1]), b"junk");
    storage.set(&map_key("army_totals_by_battlefield", &[0, 1, 1, 2]), b"junk");
    tally(&mut storage, 2000).unwrap();
    assert_eq!(army(&storage, 2).victory_points, 4);
    assert_eq!(raw(&storage, b"prize_pool"), Some("\"0\"".to_string()));
    assert_eq!(raw(&storage, &map_key("battlefields", &[1])), Some("junk".to_string()));
}

#[test]
fn tally_of_an_army_that_is_gone_is_refused() {
    let mut storage = game();
    stake(&mut storage, &pays("alice", 10), 1, 2).unwrap();
    storage.remove(&map_key("armies", &[1]));
    let before = dump(&storage);
    assert_eq!(tally(&mut storage, 2000), Err(ContractError::NoArmy { id: 1 }));
    assert_eq!(dump(&storage), before);
}

#[test]
fn tally_with_an_unreadable_army_is_refused() {
    let mut storage = game();
    stake(&mut storage, &pays("alice", 10), 1, 1).unwrap();
    storage.set(&map_key("armies", &[1]), b"junk");
    let r = tally(&mut storage, 2000);
    assert!(matches!(r, Err(ContractError::Std(StorageError::Unreadable(_)))));

    let mut storage = game();
    stake(&mut storage, &pays("alice", 10), 1, 1).unwrap();
    storage.set(&map_key("armies", &[2]), b"junk");
    let r = tally(&mut storage, 2000);
    assert!(matches!(r, Err(ContractError::Std(StorageError::Unreadable(_)))));
    assert_eq!(status(&storage), Ok(GamePhase::Open));
}

#[test]
fn tally_with_sums_that_do_not_fit_is_refused() {
    let overflow = |left: u128, right: u128| {
        Err(ContractError::Overflow { operation: OverflowOperation::Add, left, right })
    };
    // The losers of one battlefield
    let mut storage = game();
    stake(&mut storage, &pays("alice", u128::MAX), 1, 1).unwrap();
    stake(&mut storage, &pays("bob", u128::MAX - 1), 2, 1).unwrap();
    stake(&mut storage, &pays("carol", 2), 3, 1).unwrap();
    assert_eq!(tally(&mut storage, 2000), overflow(u128::MAX - 1, 2));

    // The prize pool
    let mut storage = game();
    stake(&mut storage, &pays("alice", 20), 1, 2).unwrap();
    stake(&mut storage, &pays("carol", 15), 3, 2).unwrap();
    stake(&mut storage, &pays("alice", 5), 1, 1).unwrap();
    stake(&mut storage, &pays("bob", u128::MAX), 2, 1).unwrap();
    stake(&mut storage, &pays("carol", u128::MAX - 15), 3, 1).unwrap();
    assert_eq!(tally(&mut storage, 2000), overflow(15, u128::MAX - 10));
    // The first battlefield, the one with the highest id, was already settled
    assert_eq!(army(&storage, 1).victory_points, 4);
    assert_eq!(battlefield(&storage, 2).winner, Some(1));
    assert_eq!(battlefield(&storage, 1).winner, None);
    assert_eq!(status(&storage), Ok(GamePhase::Open));

    // The points of an army
    let mut storage = game();
    stake(&mut storage, &pays("alice", 10), 1, 1).unwrap();
    storage.set(&map_key("armies", &[1]), b"[\"red\",\"u\",1,\"10\",253]");
    assert_eq!(tally(&mut storage, 2000), overflow(253, 3));
    storage.set(&map_key("armies", &[1]), b"[\"red\",\"u\",1,\"10\",252]");
    tally(&mut storage, 2000).unwrap();
    assert_eq!(army(&storage, 1).victory_points, 255);
}

#[test]
fn tally_without_armies_is_refused() {
    let mut storage = MockStorage::new();
    let mut d = data();
    d.armies.clear();
    BlottoContract::new().instantiate(&mut Store { storage: &mut storage }, &env(1), d).unwrap();
    assert_eq!(tally(&mut storage, 2000), Err(ContractError::NoArmies {}));
}

// Withdrawing

#[test]
fn no_withdrawal_while_the_game_is_open() {
    let mut storage = game();
    stake(&mut storage, &pays("alice", 10), 1, 1).unwrap();
    let before = dump(&storage);
    assert_eq!(withdraw(&mut storage, "alice"), Err(ContractError::NotOver {}));
    assert_eq!(dump(&storage), before);
}

#[test]
fn withdrawal_needs_a_game() {
    let r = withdraw(&mut MockStorage::new(), "alice");
    assert!(matches!(r, Err(ContractError::Std(StorageError::NotFound(_)))));
}

#[test]
fn the_sole_backer_gets_the_stake_back_and_the_pool() {
    let mut storage = game();
    stake(&mut storage, &pays("alice", 100), 1, 1).unwrap();
    stake(&mut storage, &pays("bob", 40), 2, 1).unwrap();
    tally(&mut storage, 1100).unwrap();
    assert_eq!(paid(&mut storage, "alice"), 140);
    assert_eq!(paid(&mut storage, "bob"), 0);
}

#[test]
fn shares_of_the_pool_are_in_proportion() {
    let mut storage = game();
    stake(&mut storage, &pays("alice", 100), 1, 1).unwrap();
    stake(&mut storage, &pays("bob", 300), 1, 1).unwrap();
    stake(&mut storage, &pays("carol", 80), 2, 1).unwrap();
    tally(&mut storage, 1100).unwrap();
    assert_eq!(paid(&mut storage, "alice"), 120);
    assert_eq!(paid(&mut storage, "bob"), 360);
    assert_eq!(paid(&mut storage, "carol"), 0);
}

#[test]
fn shares_are_rounded_down() {
    let mut storage = game();
    stake(&mut storage, &pays("alice", 1), 1, 1).unwrap();
    stake(&mut storage, &pays("bob", 2), 1, 1).unwrap();
    stake(&mut storage, &pays("carol", 2), 2, 1).unwrap();
    tally(&mut storage, 1100).unwrap();
    // 2 * 1 / 3 and 2 * 2 / 3
    assert_eq!(paid(&mut storage, "alice"), 1);
    assert_eq!(paid(&mut storage, "bob"), 3);
}

#[test]
fn shares_of_large_pools_fit() {
    let mut storage = game();
    let half = u128::MAX / 2;
    stake(&mut storage, &pays("alice", half - 1), 1, 1).unwrap();
    stake(&mut storage, &pays("bob", half - 3), 2, 1).unwrap();
    tally(&mut storage, 1100).unwrap();
    assert_eq!(paid(&mut storage, "alice"), half - 1 + (half - 3));
}

#[test]
fn a_player_is_paid_once() {
    let mut storage = game();
    stake(&mut storage, &pays("alice", 100), 1, 1).unwrap();
    stake(&mut storage, &pays("bob", 40), 2, 1).unwrap();
    tally(&mut storage, 1100).unwrap();
    assert_eq!(paid(&mut storage, "alice"), 140);
    let before = dump(&storage);
    assert_eq!(withdraw(&mut storage, "alice"), Err(ContractError::AlreadyWithdrawn {}));
    assert_eq!(dump(&storage), before);
    assert_eq!(
        raw(&storage, &map_key("withdrawals", b"alice")),
        Some("\"140\"".to_string())
    );
    assert_eq!(raw(&storage, &map_key("withdrawals", b"bob")), None);
}

#[test]
fn withdrawing_keeps_the_payment_and_changes_nothing_else() {
    let mut storage = game();
    stake(&mut storage, &pays("alice", 100), 1, 1).unwrap();
    stake(&mut storage, &pays("bob", 40), 1, 2).unwrap();
    tally(&mut storage, 1100).unwrap();
    let before = dump(&storage);
    paid(&mut storage, "alice");
    let mut after = dump(&storage);
    after.retain(|row| row.0 != map_key("withdrawals", b"alice"));
    assert_eq!(after, before);
}

#[test]
fn the_order_of_withdrawals_does_not_matter() {
    let play = |first: &str, second: &str| {
        let mut storage = game();
        stake(&mut storage, &pays("alice", 7), 1, 1).unwrap();
        stake(&mut storage, &pays("bob", 5), 1, 1).unwrap();
        stake(&mut storage, &pays("carol", 9), 2, 1).unwrap();
        tally(&mut storage, 1100).unwrap();
        paid(&mut storage, first);
        paid(&mut storage, second);
        dump(&storage)
    };
    assert_eq!(play("alice", "bob"), play("bob", "alice"));
}

#[test]
fn no_more_is_paid_than_was_staked() {
    let mut storage = game();
    stake(&mut storage, &pays("alice", 7), 1, 1).unwrap();
    stake(&mut storage, &pays("alice", 4), 2, 2).unwrap();
    stake(&mut storage, &pays("bob", 5), 1, 1).unwrap();
    stake(&mut storage, &pays("bob", 4), 3, 2).unwrap();
    stake(&mut storage, &pays("carol", 10), 2, 1).unwrap();
    tally(&mut storage, 1100).unwrap();
    // Army 1 wins the first battlefield, the second is a tie, the pool is 10
    assert_eq!(paid(&mut storage, "alice"), 7 + 4 + 5);
    assert_eq!(paid(&mut storage, "bob"), 5 + 4 + 4);
    assert_eq!(paid(&mut storage, "carol"), 0);
}

#[test]
fn a_stake_on_a_won_battlefield_comes_back_without_a_stake_in_the_winner() {
    let mut storage = game();
    stake(&mut storage, &pays("alice", 60), 2, 1).unwrap();
    stake(&mut storage, &pays("bob", 50), 1, 2).unwrap();
    tally(&mut storage, 1100).unwrap();
    // Army 1 has four points, army 2 has three
    assert_eq!(battlefield(&storage, 1).winner, Some(2));
    assert_eq!(battlefield(&storage, 2).winner, Some(1));
    assert_eq!(paid(&mut storage, "alice"), 60);
    assert_eq!(paid(&mut storage, "bob"), 50);
}

#[test]
fn stakes_of_a_tie_come_back_where_nobody_backs_the_winner() {
    let mut storage = game();
    stake(&mut storage, &pays("alice", 10), 2, 1).unwrap();
    stake(&mut storage, &pays("bob", 10), 3, 1).unwrap();
    tally(&mut storage, 1100).unwrap();
    assert_eq!(raw(&storage, b"winner"), Some("[\"red\",\"ipfs://red\",1,\"0\",0]".to_string()));
    assert_eq!(paid(&mut storage, "alice"), 10);
    assert_eq!(paid(&mut storage, "bob"), 10);
}

#[test]
fn stakes_against_the_winner_of_a_battlefield_are_lost() {
    let mut storage = game();
    stake(&mut storage, &pays("alice", 10), 1, 1).unwrap();
    stake(&mut storage, &pays("alice", 5), 2, 2).unwrap();
    stake(&mut storage, &pays("bob", 6), 1, 2).unwrap();
    tally(&mut storage, 1100).unwrap();
    // Of the pool of 5, alice has 10 of 16 and bob 6 of 16
    assert_eq!(paid(&mut storage, "alice"), 10 + 3);
    assert_eq!(paid(&mut storage, "bob"), 6 + 1);
}

#[test]
fn withdrawal_needs_a_stake() {
    let mut storage = game();
    stake(&mut storage, &pays("alice", 10), 1, 1).unwrap();
    tally(&mut storage, 1100).unwrap();
    let before = dump(&storage);
    let r = withdraw(&mut storage, "dave");
    assert!(matches!(r, Err(ContractError::Std(StorageError::NotFound(_)))));
    assert_eq!(dump(&storage), before);
}

#[test]
fn withdrawal_needs_a_winner_and_a_pool() {
    let mut storage = game();
    stake(&mut storage, &pays("alice", 10), 1, 1).unwrap();
    close(&mut storage);
    let r = withdraw(&mut storage, "alice");
    assert!(matches!(r, Err(ContractError::Std(StorageError::NotFound(_)))));
    storage.set(b"winner", b"[\"red\",\"u\",1,\"10\",7]");
    let r = withdraw(&mut storage, "alice");
    assert!(matches!(r, Err(ContractError::Std(StorageError::NotFound(_)))));
    storage.set(b"prize_pool", b"\"4\"");
    assert_eq!(paid(&mut storage, "alice"), 14);
}

#[test]
fn withdrawal_needs_the_battlefields_of_the_stakes() {
    let mut storage = game();
    stake(&mut storage, &pays("alice", 10), 1, 99).unwrap();
    tally(&mut storage, 2000).unwrap();
    let r = withdraw(&mut storage, "alice");
    assert!(matches!(r, Err(ContractError::Std(StorageError::NotFound(_)))));
}

#[test]
fn withdrawal_needs_readable_stakes() {
    let mut storage = game();
    stake(&mut storage, &pays("alice", 10), 1, 1).unwrap();
    stake(&mut storage, &pays("bob", 10), 1, 1).unwrap();
    stake(&mut storage, &pays("carol", 10), 1, 1).unwrap();
    tally(&mut storage, 2000).unwrap();
    storage.set(&stake_key("bob", 1, 1), b"junk");
    storage.remove(&stake_key("carol", 1, 1));
    assert!(withdraw(&mut storage, "alice").is_ok());
    let r = withdraw(&mut storage, "bob");
    assert!(matches!(r, Err(ContractError::Std(StorageError::Unreadable(_)))));
    let r = withdraw(&mut storage, "carol");
    assert!(matches!(r, Err(ContractError::Std(StorageError::Unreadable(_)))));
    storage.set(&map_key("withdrawals", b"dave"), b"junk");
    let r = withdraw(&mut storage, "dave");
    assert!(matches!(r, Err(ContractError::Std(StorageError::Unreadable(_)))));
}

#[test]
fn withdrawal_checks_its_arithmetic() {
    let mut storage = game();
    stake(&mut storage, &pays("alice", 10), 1, 1).unwrap();
    close(&mut storage);
    storage.set(b"prize_pool", b"\"4\"");
    storage.set(b"winner", b"[\"red\",\"u\",1,\"0\",7]");
    assert_eq!(withdraw(&mut storage, "alice"), Err(ContractError::DivideByZero { operand: 10 }));
    storage.set(b"winner", b"[\"red\",\"u\",1,\"5\",7]");
    storage.set(b"prize_pool", format!("\"{}\"", u128::MAX).as_bytes());
    assert_eq!(
        withdraw(&mut storage, "alice"),
        Err(ContractError::Overflow {
            operation: OverflowOperation::Mul,
            left: u128::MAX,
            right: 10
        })
    );
    storage.set(b"winner", b"[\"red\",\"u\",1,\"10\",7]");
    assert_eq!(
        withdraw(&mut storage, "alice"),
        Err(ContractError::Overflow {
            operation: OverflowOperation::Add,
            left: 10,
            right: u128::MAX
        })
    );
}

#[test]
fn a_game_may_close_only_once_it_is_tallied() {
    let contract = BlottoContract::new();
    let mut storage = game();
    assert_eq!(
        contract.closed_game(&ReadStore { storage: &storage }),
        Err(ContractError::NotOver {})
    );
    tally(&mut storage, 1100).unwrap();
    assert_eq!(contract.closed_game(&ReadStore { storage: &storage }).unwrap().denom, "ublot");
}

// Asking about players and the game

#[test]
fn player_info_tells_how_much_and_where() {
    let mut storage = game();
    assert_eq!(
        player_info(&storage, "alice"),
        Ok(PlayerInfo { total_staked: 0, battlefields: vec![] })
    );
    stake(&mut storage, &pays("alice", 5), 2, 1).unwrap();
    stake(&mut storage, &pays("alice", 7), 1, 2).unwrap();
    stake(&mut storage, &pays("alice", 1), 2, 1).unwrap();
    stake(&mut storage, &pays("bob", 11), 2, 1).unwrap();
    assert_eq!(
        player_info(&storage, "alice"),
        Ok(PlayerInfo { total_staked: 13, battlefields: vec![2, 1] })
    );
    assert_eq!(
        player_info(&storage, "bob"),
        Ok(PlayerInfo { total_staked: 11, battlefields: vec![1] })
    );
    storage.set(&stake_key("bob", 2, 1), b"junk");
    let r = player_info(&storage, "bob");
    assert!(matches!(r, Err(ContractError::Std(StorageError::Unreadable(_)))));
}

#[test]
fn player_info_with_a_total_that_does_not_fit_is_refused() {
    let mut storage = game();
    stake(&mut storage, &pays("alice", u128::MAX), 1, 1).unwrap();
    stake(&mut storage, &pays("alice", 2), 2, 2).unwrap();
    assert_eq!(
        player_info(&storage, "alice"),
        Err(ContractError::Overflow {
            operation: OverflowOperation::Add,
            left: u128::MAX,
            right: 2
        })
    );
}

#[test]
fn status_needs_a_readable_phase() {
    let mut storage = MockStorage::new();
    assert!(matches!(status(&storage), Err(StorageError::NotFound(_))));
    storage.set(b"phase", b"1");
    assert!(matches!(status(&storage), Err(StorageError::Unreadable(_))));
}

#[test]
fn phases_are_stored_as_whether_the_game_is_open() {
    assert!(GamePhase::Open.is_open());
    assert!(!GamePhase::Closed.is_open());
    assert_eq!(GamePhase::from_open(true), GamePhase::Open);
    assert_eq!(GamePhase::from_open(false), GamePhase::Closed);
}

#[test]
fn stake_books_are_read_without_writing() {
    let mut storage = game();
    stake(&mut storage, &pays("alice", 5), 2, 1).unwrap();
    let contract = BlottoContract::new();
    let (amount, army, total, stake) = contract
        .stake_books(&ReadStore { storage: &storage }, &pays("bob", 7), 2, 1)
        .unwrap();
    assert_eq!((amount, army.total_staked, total, stake.amount), (7, 12, 12, 7));
    assert_eq!((stake.army, stake.battlefield_id, stake.player.as_str()), (2, 1, "bob"));
    assert_eq!(
        contract.stake_books(&ReadStore { storage: &storage }, &pays("bob", 7), 9, 1),
        Err(ContractError::NoArmy { id: 9 })
    );
    assert_eq!(
        contract.stake_books(&ReadStore { storage: &storage }, &pays("alice", 7), 1, 1),
        Err(ContractError::Traitor {})
    );
}
