//! What setting a game up and staking come to, said of the entries in storage themselves.
use vstd::prelude::*;
use vstd::utf8::encode_utf8;

use crate::accounts::indexed;
use crate::contract::{CONTRACT_NAME, CONTRACT_VERSION, DEFAULT_LIMIT, MAX_LIMIT};
use crate::error::{
    ContractError, Failure, OverflowOperation, PaymentFailure, StorageFailure,
};
use crate::laws::{accepts, after_stake};
use crate::ledger::{
    all_readable, fits_key, load_of, may_load_of, slot, straight, ContractState, Pointer, Slot,
    Table,
};
use crate::msg::{AttributeView, BankMsg, BankMsgView, PlayerInfo, Response, ResponseView};
use crate::payment::paid;
use crate::rules::{defects, oversized, set_up, stake_effect};
use crate::state::{
    coins, Army, ArmyInfo, ArmyView, Battlefield, BattlefieldInfo, Coin, Config, ConfigView,
    MessageInfo, MessageInfoView, StakeInfo, StakeInfoView,
};
use crate::text::decimal;

verus! {

// ---------------------------------------------------------------------------
// Reading entries
// ---------------------------------------------------------------------------

/// The value of an item, if one is stored and decodes.
pub open spec fn held<V>(item: Option<Slot<V>>) -> Option<V> {
    match item {
        Some(Slot::Readable(v)) => Some(v),
        _ => None,
    }
}

/// The value under a key, if one is stored and decodes.
pub open spec fn at<K, V>(entries: Map<K, Slot<V>>, k: K) -> Option<V> {
    if entries.contains_key(k) {
        match entries[k] {
            Slot::Readable(v) => Some(v),
            Slot::Unreadable => None,
        }
    } else {
        None
    }
}

/// Whether bytes are stored under a key that do not decode.
pub open spec fn junk_at<K, V>(entries: Map<K, Slot<V>>, k: K) -> bool {
    entries.contains_key(k) && entries[k] == Slot::<V>::Unreadable
}

/// The total under a key, which is nothing where none can be read.
pub open spec fn total_at<K>(entries: Map<K, Slot<u128>>, k: K) -> nat {
    match at(entries, k) {
        Some(total) => total as nat,
        None => 0,
    }
}

/// The failure of a read that has to find a value: nothing is there, or it does not decode.
pub open spec fn missing<V>(item: Option<Slot<V>>) -> Failure {
    if item is None {
        Failure::Std(StorageFailure::NotFound)
    } else {
        Failure::Std(StorageFailure::Unreadable)
    }
}

pub open spec fn unreadable() -> Failure {
    Failure::Std(StorageFailure::Unreadable)
}

pub open spec fn too_large(left: u128, right: u128) -> Failure {
    Failure::Overflow { operation: OverflowOperation::Add, left, right }
}

/// A read of an entry gives its value exactly where one is stored and decodes. A read that has to
/// find one tells an absent entry from one that does not decode, and a read that may find nothing
/// fails only on the latter.
pub proof fn law_reading_an_entry<K, V>(entries: Map<K, Slot<V>>, k: K)
    ensures
        load_of(slot(entries, k)) is Ok <==> at(entries, k) is Some,
        load_of(slot(entries, k)) matches Ok(v) ==> at(entries, k) == Some(v),
        load_of(slot(entries, k)) == Err::<V, StorageFailure>(StorageFailure::NotFound)
            <==> !entries.contains_key(k),
        load_of(slot(entries, k)) == Err::<V, StorageFailure>(StorageFailure::Unreadable)
            <==> junk_at(entries, k),
        may_load_of(slot(entries, k)) is Err <==> junk_at(entries, k),
        may_load_of(slot(entries, k)) matches Ok(v) ==> v == at(entries, k),
{
}

/// All of a collection can be read exactly where nothing is stored in it that does not decode.
pub proof fn law_when_all_can_be_read<K, V>(t: Table<K, V>)
    ensures
        all_readable(t) <==> !t.strays && forall|k: K| !#[trigger] junk_at(t.entries, k),
{
    if all_readable(t) {
        assert forall|k: K| !#[trigger] junk_at(t.entries, k) by {
            assert(t.entries.contains_key(k) ==> t.entries[k] is Readable);
        }
    }
    if !t.strays && forall|k: K| !#[trigger] junk_at(t.entries, k) {
        assert forall|k: K| #[trigger] t.entries.contains_key(k) implies t.entries[k]
            is Readable by {
            assert(!junk_at(t.entries, k));
        }
    }
}

/// Where the indexes have exactly the entries for the stakes that there are, a player's stakes can
/// be walked over, whoever the player is.
pub proof fn law_stakes_of_every_player_can_be_walked(c: ContractState, player: Seq<char>)
    requires
        indexed(c),
    ensures
        straight(c.stakes, player),
{
}

/// An address fits into a key where it has no more than 65535 bytes.
pub proof fn law_addresses_that_fit(address: Seq<char>)
    ensures
        fits_key(address) <==> encode_utf8(address).len() <= 65535,
{
}

// ---------------------------------------------------------------------------
// Views
// ---------------------------------------------------------------------------

/// Every field of an army, a battlefield, a stake and a configuration is seen as it is.
pub proof fn law_views_show_every_field(
    army: Army,
    field: Battlefield,
    stake: StakeInfo,
    config: Config,
    report: PlayerInfo,
)
    ensures
        army@.name == army.name@,
        army@.ipfs_uri == army.ipfs_uri@,
        army@.id == army.id,
        army@.total_staked == army.total_staked,
        army@.victory_points == army.victory_points,
        field@.name == field.name@,
        field@.ipfs_uri == field.ipfs_uri@,
        field@.id == field.id,
        field@.value == field.value,
        field@.winner == field.winner,
        stake@.amount == stake.amount,
        stake@.army == stake.army,
        stake@.battlefield_id == stake.battlefield_id,
        stake@.player == stake.player@,
        config@.start == config.start,
        config@.battle_duration == config.battle_duration,
        config@.denom == config.denom@,
        report@.total_staked == report.total_staked,
        report@.battlefields == report.battlefields@,
{
}

/// Every coin of a message, and every message, attribute and coin of a reply, is seen as it is,
/// in its place.
pub proof fn law_views_show_every_coin(info: MessageInfo, reply: Response, funds: Seq<Coin>)
    ensures
        info@.sender == info.sender@,
        info@.funds == coins(info.funds@),
        coins(funds).len() == funds.len(),
        forall|i: int|
            0 <= i < funds.len() ==> (#[trigger] coins(funds)[i]).denom == funds[i].denom@
                && coins(funds)[i].amount == funds[i].amount,
        reply@.attributes.len() == reply.attributes@.len(),
        forall|i: int|
            0 <= i < reply.attributes@.len() ==> (#[trigger] reply@.attributes[i]).key
                == reply.attributes@[i].key@ && reply@.attributes[i].value
                == reply.attributes@[i].value@,
        reply@.messages.len() == reply.messages@.len(),
        forall|i: int|
            0 <= i < reply.messages@.len() ==> (match reply.messages@[i] {
                BankMsg::Send { to_address, amount } => #[trigger] reply@.messages[i]
                    == (BankMsgView::Send { to_address: to_address@, amount: coins(amount@) }),
            }),
{
}

/// Every error is seen as what it is.
pub proof fn law_errors_are_told_apart(e: ContractError)
    ensures
        e@ is Std <==> e is Std,
        e is Std ==> e@->Std_0 == e->Std_0@,
        e is Std ==> (e->Std_0@ is NotFound <==> e->Std_0 is NotFound),
        e@ is Payment <==> e is Payment,
        e is Payment ==> e@->Payment_0 == e->Payment_0@,
        e is Payment ==> (e->Payment_0@ is MissingDenom <==> e->Payment_0 is MissingDenom),
        e is Payment ==> (e->Payment_0@ is ExtraDenom <==> e->Payment_0 is ExtraDenom),
        e is Payment ==> (e->Payment_0@ is MultipleDenoms <==> e->Payment_0 is MultipleDenoms),
        e is Payment ==> (e->Payment_0@ is NoFunds <==> e->Payment_0 is NoFunds),
        e is Payment ==> (e->Payment_0@ is NonPayable <==> e->Payment_0 is NonPayable),
        e@ is Overflow <==> e is Overflow,
        e is Overflow ==> e@->operation == e->operation && e@->left == e->left && e@->right
            == e->right,
        e@ is DivideByZero <==> e is DivideByZero,
        e is DivideByZero ==> e@->operand == e->operand,
        e@ is NoArmy <==> e is NoArmy,
        e is NoArmy ==> e@->id == e->id,
        e@ is NotOpen <==> e is NotOpen,
        e@ is NotOver <==> e is NotOver,
        e@ is Traitor <==> e is Traitor,
        e@ is TooManyArmies <==> e is TooManyArmies,
        e@ is TooManyBattlefields <==> e is TooManyBattlefields,
        e@ is NoArmies <==> e is NoArmies,
        e@ is AlreadyWithdrawn <==> e is AlreadyWithdrawn,
{
}

/// What is added to a reply comes behind what is there, and changes nothing of that.
pub proof fn law_replies_grow(
    reply: ResponseView,
    key: Seq<char>,
    value: Seq<char>,
    msg: BankMsgView,
)
    ensures
        ResponseView::empty().attributes.len() == 0,
        ResponseView::empty().messages.len() == 0,
        ({
            let r = reply.attribute(key, value);
            let n = reply.attributes.len() as int;
            &&& r.messages == reply.messages
            &&& r.attributes.len() == n + 1
            &&& r.attributes[n].key == key
            &&& r.attributes[n].value == value
            &&& forall|i: int|
                0 <= i < n ==> #[trigger] r.attributes[i] == reply.attributes[i]
        }),
        ({
            let r = reply.message(msg);
            let n = reply.messages.len() as int;
            &&& r.attributes == reply.attributes
            &&& r.messages.len() == n + 1
            &&& r.messages[n] == msg
            &&& forall|i: int| 0 <= i < n ==> #[trigger] r.messages[i] == reply.messages[i]
        }),
{
}

/// The number that decimal digits stand for.
pub open spec fn number(digits: Seq<char>) -> int
    decreases digits.len(),
{
    if digits.len() == 0 {
        0
    } else {
        number(digits.drop_last()) * 10 + (digits.last() as int - '0' as int)
    }
}

/// A number is written in digits that stand for it, without a leading zero.
pub proof fn law_decimal_reads_back(n: nat)
    ensures
        number(decimal(n)) == n,
        decimal(n).len() > 0,
        forall|i: int|
            0 <= i < decimal(n).len() ==> '0' as int <= (#[trigger] decimal(n)[i]) as int
                <= '9' as int,
        n >= 10 ==> decimal(n)[0] != '0',
        n < 10 ==> decimal(n).len() == 1,
        0 < n < 10 ==> decimal(n)[0] != '0',
    decreases n,
{
    if n >= 10 {
        let front = decimal(n / 10);
        law_decimal_reads_back(n / 10);
        assert(decimal(n).drop_last() =~= front);
        assert(decimal(n)[0] == front[0]);
        assert forall|i: int| 0 <= i < decimal(n).len() implies '0' as int <= (
        #[trigger] decimal(n)[i]) as int <= '9' as int by {
            if i < front.len() {
                assert(decimal(n)[i] == front[i]);
            }
        }
    } else {
        assert(decimal(n).drop_last() =~= Seq::empty());
        assert(number(decimal(n).drop_last()) == 0);
    }
}

// ---------------------------------------------------------------------------
// Setting the game up
// ---------------------------------------------------------------------------

/// A game is set up exactly where it has no more than five armies and ten battlefields. Too many
/// armies are told before too many battlefields.
pub proof fn law_limits_of_a_game(armies: nat, battlefields: nat)
    ensures
        oversized(armies, battlefields) is None <==> armies <= 5 && battlefields <= 10,
        oversized(armies, battlefields) == Some(Failure::TooManyArmies) <==> armies > 5,
        oversized(armies, battlefields) == Some(Failure::TooManyBattlefields) <==> armies <= 5
            && battlefields > 10,
{
}

/// The name and the version that the contract is recorded with, and the limits of its lists.
pub proof fn law_name_and_version()
    ensures
        DEFAULT_LIMIT == 10,
        MAX_LIMIT == 50,
        CONTRACT_NAME@ == "cw-blotto"@,
        CONTRACT_VERSION@ == "0.1.0"@,
{
}

/// Setting a game up stores every army and every battlefield that was given under the ids from one
/// on, each as it was given, with nothing staked, no points and no winner. It opens the game,
/// records the name, the version and the configuration, and leaves everything else alone.
pub proof fn law_set_up_stores_what_was_given(
    c: ContractState,
    name: Seq<char>,
    version: Seq<char>,
    armies: Seq<ArmyInfo>,
    battlefields: Seq<BattlefieldInfo>,
    config: ConfigView,
)
    requires
        armies.len() <= 5,
        battlefields.len() <= 10,
    ensures
        ({
            let d = set_up(c, name, version, armies, battlefields, config);
            &&& d.contract_info == Some((name, version))
            &&& d.phase == Some(Slot::Readable(true))
            &&& d.config == Some(Slot::Readable(config))
            &&& forall|i: int|
                0 <= i < armies.len() ==> ({
                    let a = at(d.armies.entries, #[trigger] ((i + 1) as u8));
                    &&& a is Some
                    &&& a->Some_0.name == armies[i].name@
                    &&& a->Some_0.ipfs_uri == armies[i].ipfs_uri@
                    &&& a->Some_0.id == i + 1
                    &&& a->Some_0.total_staked == 0
                    &&& a->Some_0.victory_points == 0
                })
            &&& forall|i: int|
                0 <= i < battlefields.len() ==> ({
                    let b = at(d.battlefields.entries, #[trigger] ((i + 1) as u8));
                    &&& b is Some
                    &&& b->Some_0.name == battlefields[i].name@
                    &&& b->Some_0.ipfs_uri == battlefields[i].ipfs_uri@
                    &&& b->Some_0.id == i + 1
                    &&& b->Some_0.value == battlefields[i].value
                    &&& b->Some_0.winner is None
                })
            &&& forall|id: u8|
                id == 0 || id > armies.len() ==> (#[trigger] d.armies.entries.contains_key(id)
                    <==> c.armies.entries.contains_key(id)) && (c.armies.entries.contains_key(id)
                    ==> d.armies.entries[id] == c.armies.entries[id])
            &&& forall|id: u8|
                id == 0 || id > battlefields.len() ==> (
                #[trigger] d.battlefields.entries.contains_key(id)
                    <==> c.battlefields.entries.contains_key(id)) && (
                c.battlefields.entries.contains_key(id) ==> d.battlefields.entries[id]
                    == c.battlefields.entries[id])
            &&& d.armies.strays == c.armies.strays
            &&& d.armies.breaks == c.armies.breaks
            &&& d.battlefields.strays == c.battlefields.strays
            &&& d.battlefields.breaks == c.battlefields.breaks
            &&& d.army_totals_by_battlefield == c.army_totals_by_battlefield
            &&& d.player_totals_by_army == c.player_totals_by_army
            &&& d.stakes == c.stakes
            &&& d.prize_pool == c.prize_pool
            &&& d.winner == c.winner
            &&& d.withdrawals == c.withdrawals
        }),
{
}

// ---------------------------------------------------------------------------
// Staking
// ---------------------------------------------------------------------------

/// A payment is taken exactly where one coin came, of the denomination asked for and not zero of
/// it, and it is of that coin's amount. More coins are told first, then nothing sent, then another
/// denomination.
pub proof fn law_payment_is_one_coin(info: MessageInfoView, denom: Seq<char>)
    ensures
        paid(info.funds, denom) is Ok <==> info.funds.len() == 1 && info.funds[0].denom == denom
            && info.funds[0].amount > 0,
        paid(info.funds, denom) is Ok ==> paid(info.funds, denom)->Ok_0 == info.funds[0].amount,
        paid(info.funds, denom) == Err::<u128, PaymentFailure>(PaymentFailure::MultipleDenoms)
            <==> info.funds.len() > 1,
        paid(info.funds, denom) == Err::<u128, PaymentFailure>(PaymentFailure::NoFunds)
            <==> info.funds.len() == 0 || info.funds.len() == 1 && info.funds[0].amount == 0,
        paid(info.funds, denom) == Err::<u128, PaymentFailure>(PaymentFailure::MissingDenom(denom))
            <==> info.funds.len() == 1 && info.funds[0].amount > 0 && info.funds[0].denom != denom,
{
}

/// Whether one coin came that the game takes, and the game is open for it.
pub open spec fn is_paid(c: ContractState, info: MessageInfoView) -> bool {
    &&& held(c.config) is Some
    &&& held(c.phase) == Some(true)
    &&& info.funds.len() == 1
    &&& info.funds[0].denom == held(c.config)->Some_0.denom
    &&& info.funds[0].amount > 0
}

/// A stake is accepted, with every army and on every battlefield, exactly where the game is open,
/// one coin of the game's denomination came and not zero of it, the army is stored and can be
/// read, the player has nothing stored with another army on that battlefield, what the books have
/// of the stake so far is absent or can be read, and the sums fit.
pub proof fn law_when_a_stake_is_accepted(
    c: ContractState,
    info: MessageInfoView,
    army: u8,
    field: u8,
)
    ensures
        accepts(c, info, army, field) <==> ({
            let x = info.funds[0].amount;
            let p = info.sender;
            &&& is_paid(c, info)
            &&& at(c.armies.entries, army) is Some
            &&& at(c.armies.entries, army)->Some_0.total_staked + x <= u128::MAX
            &&& !junk_at(c.army_totals_by_battlefield.entries, (army, field))
            &&& total_at(c.army_totals_by_battlefield.entries, (army, field)) + x <= u128::MAX
            &&& forall|a: u8|
                a != army ==> !#[trigger] c.stakes.entries.contains_key((a, field, p))
            &&& !junk_at(c.stakes.entries, (army, field, p))
            &&& at(c.stakes.entries, (army, field, p)) is Some ==> at(
                c.stakes.entries,
                (army, field, p),
            )->Some_0.army == army && at(c.stakes.entries, (army, field, p))->Some_0.amount + x
                <= u128::MAX
            &&& !junk_at(c.player_totals_by_army, (p, army))
            &&& total_at(c.player_totals_by_army, (p, army)) + x <= u128::MAX
        }),
{
    let p = info.sender;
    lemma_defects(c, p, army, field);
    law_payment_is_one_coin(info, held(c.config)->Some_0.denom);
}

proof fn lemma_defects(c: ContractState, player: Seq<char>, army: u8, field: u8)
    ensures
        defects(c, player, army, field) <==> !(forall|a: u8|
            a != army ==> !#[trigger] c.stakes.entries.contains_key((a, field, player))),
{
    if defects(c, player, army, field) {
        let a = choose|a: u8|
            a != army && #[trigger] slot(c.stakes.entries, (a, field, player)) is Some;
        assert(c.stakes.entries.contains_key((a, field, player)));
    }
    if exists|a: u8|
        a != army && #[trigger] c.stakes.entries.contains_key((a, field, player)) {
        let a = choose|a: u8|
            a != army && #[trigger] c.stakes.entries.contains_key((a, field, player));
        assert(slot(c.stakes.entries, (a, field, player)) is Some);
    }
}

/// An accepted stake is added to the army, to the army's total on the battlefield, to the stake
/// itself and to the player's total with the army. The stake is stored with what it names, the
/// indexes point to it and no longer to what the key held before, and nothing else changes.
pub proof fn law_what_an_accepted_stake_stores(
    c: ContractState,
    info: MessageInfoView,
    army: u8,
    field: u8,
)
    requires
        accepts(c, info, army, field),
    ensures
        ({
            let d = after_stake(c, info, army, field);
            let x = info.funds[0].amount;
            let p = info.sender;
            let key = (army, field, p);
            let old = at(c.stakes.entries, key);
            let before = at(c.armies.entries, army)->Some_0;
            &&& d.armies.entries == c.armies.entries.insert(
                army,
                Slot::Readable(
                    ArmyView {
                        name: before.name,
                        ipfs_uri: before.ipfs_uri,
                        id: before.id,
                        total_staked: (before.total_staked + x) as u128,
                        victory_points: before.victory_points,
                    },
                ),
            )
            &&& d.army_totals_by_battlefield.entries
                == c.army_totals_by_battlefield.entries.insert(
                (army, field),
                Slot::Readable(
                    (total_at(c.army_totals_by_battlefield.entries, (army, field)) + x) as u128,
                ),
            )
            &&& d.stakes.entries == c.stakes.entries.insert(
                key,
                Slot::Readable(
                    StakeInfoView {
                        amount: (x + (if old is Some {
                            old->Some_0.amount
                        } else {
                            0
                        })) as u128,
                        army,
                        battlefield_id: field,
                        player: p,
                    },
                ),
            )
            &&& d.player_totals_by_army == c.player_totals_by_army.insert(
                (p, army),
                Slot::Readable((total_at(c.player_totals_by_army, (p, army)) + x) as u128),
            )
            &&& d.stakes.by_army == c.stakes.by_army.insert((army, key), Pointer::Whole)
            &&& d.stakes.by_battlefield == (if old is Some {
                c.stakes.by_battlefield.remove((old->Some_0.battlefield_id, key))
            } else {
                c.stakes.by_battlefield
            }).insert((field, key), Pointer::Whole)
            &&& d.stakes.by_player == (if old is Some {
                c.stakes.by_player.remove((old->Some_0.player, key))
            } else {
                c.stakes.by_player
            }).insert((p, key), Pointer::Whole)
            &&& d.stakes.strays == c.stakes.strays
            &&& d.armies.strays == c.armies.strays
            &&& d.armies.breaks == c.armies.breaks
            &&& d.army_totals_by_battlefield.strays == c.army_totals_by_battlefield.strays
            &&& d.army_totals_by_battlefield.breaks == c.army_totals_by_battlefield.breaks
            &&& d.battlefields == c.battlefields
            &&& d.contract_info == c.contract_info
            &&& d.config == c.config
            &&& d.phase == c.phase
            &&& d.prize_pool == c.prize_pool
            &&& d.winner == c.winner
            &&& d.withdrawals == c.withdrawals
        }),
{
    law_when_a_stake_is_accepted(c, info, army, field);
    let d = after_stake(c, info, army, field);
    let key = (army, field, info.sender);
    assert(d.stakes.by_army =~= c.stakes.by_army.insert((army, key), Pointer::Whole));
}

/// The reply to an accepted stake tells the action and the two ids, and asks the bank for nothing.
pub proof fn law_reply_to_a_stake(c: ContractState, info: MessageInfoView, army: u8, field: u8)
    requires
        accepts(c, info, army, field),
    ensures
        ({
            let reply = stake_effect(c, info, army, field).1->Ok_0;
            &&& reply.messages =~= Seq::empty()
            &&& reply.attributes =~= seq![
                AttributeView { key: "action"@, value: "stake"@ },
                AttributeView { key: "army_id"@, value: decimal(army as nat) },
                AttributeView { key: "battlefield_id"@, value: decimal(field as nat) },
            ]
        }),
{
}

/// Why a stake is refused. The configuration and the phase come first, then the payment, then the
/// army, its total on the battlefield, the player's side and stake there, and the player's total.
pub proof fn law_why_a_stake_is_refused(
    c: ContractState,
    info: MessageInfoView,
    army: u8,
    field: u8,
)
    requires
        !accepts(c, info, army, field),
    ensures
        after_stake(c, info, army, field) == c,
        ({
            let e = stake_effect(c, info, army, field).1->Err_0;
            let x = info.funds[0].amount;
            let p = info.sender;
            let totals = c.army_totals_by_battlefield.entries;
            let stakes = c.stakes.entries;
            let key = (army, field, p);
            if held(c.config) is None {
                e == missing(c.config)
            } else if held(c.phase) is None {
                e == missing(c.phase)
            } else if held(c.phase) == Some(false) {
                e == Failure::NotOpen
            } else if info.funds.len() > 1 {
                e == Failure::Payment(PaymentFailure::MultipleDenoms)
            } else if info.funds.len() == 0 || x == 0 {
                e == Failure::Payment(PaymentFailure::NoFunds)
            } else if info.funds[0].denom != held(c.config)->Some_0.denom {
                e == Failure::Payment(
                    PaymentFailure::MissingDenom(held(c.config)->Some_0.denom),
                )
            } else if junk_at(c.armies.entries, army) {
                e == unreadable()
            } else if !c.armies.entries.contains_key(army) {
                e == Failure::NoArmy { id: army }
            } else if at(c.armies.entries, army)->Some_0.total_staked + x > u128::MAX {
                e == too_large(at(c.armies.entries, army)->Some_0.total_staked, x)
            } else if junk_at(totals, (army, field)) {
                e == unreadable()
            } else if total_at(totals, (army, field)) + x > u128::MAX {
                e == too_large(total_at(totals, (army, field)) as u128, x)
            } else if exists|a: u8|
                a != army && #[trigger] c.stakes.entries.contains_key((a, field, p)) {
                e == Failure::Traitor
            } else if junk_at(stakes, key) {
                e == unreadable()
            } else if at(stakes, key) is Some && at(stakes, key)->Some_0.army != army {
                e == Failure::Traitor
            } else if at(stakes, key) is Some && at(stakes, key)->Some_0.amount + x > u128::MAX {
                e == too_large(at(stakes, key)->Some_0.amount, x)
            } else if junk_at(c.player_totals_by_army, (p, army)) {
                e == unreadable()
            } else {
                e == too_large(total_at(c.player_totals_by_army, (p, army)) as u128, x)
            }
        }),
{
    let p = info.sender;
    lemma_defects(c, p, army, field);
    law_when_a_stake_is_accepted(c, info, army, field);
    law_payment_is_one_coin(info, held(c.config)->Some_0.denom);
}

} // verus!
