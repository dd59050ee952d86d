use autonomous_execution::auto_executable_transaction::{
    encode_move_call_args, AutoTx, MoveCallArg, MoveObjectRef,
};
use autonomous_execution::autonomous_execution_store::AutoExecutionStore;
use autonomous_execution::base_types::{ObjectID, SuiAddress, TransactionDigest, UID};
use autonomous_execution::error::{SuiError, SuiResult};
use autonomous_execution::execution_cache::{ObjectCacheRead, ObjectSnapshot};
use autonomous_execution::language_storage::{
    write_struct_tag, write_type_tag, write_type_tags, MoveType, StructType,
};
use autonomous_execution::materialize::materialize_decoded;
use autonomous_execution::object::{
    gas_coin_type, MoveObject, MovePackage, Object, Owner, OBJECT_START_VERSION,
};
use autonomous_execution::transaction::TransactionKind;

fn id(n: u128) -> ObjectID {
    ObjectID(n)
}

fn empty() -> AutoExecutionStore<ObjectSnapshot> {
    AutoExecutionStore::new(vec![], ObjectSnapshot::new())
}

fn trigger(own: u128, time: u64, gas: u128) -> AutoTx {
    AutoTx {
        id: UID::new(id(own)),
        trigger_time: time,
        caller: id(0xca11e4),
        callee: id(0xca11ee),
        module_name: b"module".to_vec(),
        function_name: b"function".to_vec(),
        type_inputs: vec![0],
        gas_id: id(gas),
        arguments: vec![0],
    }
}

fn trigger_object(tx: &AutoTx) -> Object {
    let inner =
        MoveObject::new(AutoTx::struct_tag(), false, OBJECT_START_VERSION, tx.to_bcs_bytes())
            .unwrap();
    Object::new_move(inner, Owner::Immutable, TransactionDigest::new([0; 32]))
}

/// A snapshot with a live trigger under each of `ids`: the trigger `n` pays
/// with the coin `n + 1000`, which it owns.
fn live(ids: &[u128]) -> ObjectSnapshot {
    let mut snapshot = ObjectSnapshot::new();
    for &n in ids {
        snapshot.insert(trigger_object(&trigger(n, 7, n + 1000)));
        snapshot.insert(Object::with_id_owner_gas_for_testing(id(n + 1000), SuiAddress(n), 50));
    }
    snapshot
}

fn ids_of(store: &mut AutoExecutionStore<ObjectSnapshot>, from: u64, to: u64) -> Vec<u128> {
    store.get_till(from, to, 1).unwrap().iter().map(|tx| tx.object_id().0).collect()
}

#[test]
fn a_new_index_groups_by_time() {
    let store = AutoExecutionStore::new(
        vec![(10, id(1)), (10, id(2)), (20, id(3)), (10, id(4)), (5, id(5))],
        ObjectSnapshot::new(),
    );
    assert_eq!(store.clock(), 0);
    assert_eq!(store.pending_at(10), Some(vec![id(1), id(2), id(4)]));
    assert_eq!(store.pending_at(20), Some(vec![id(3)]));
    assert_eq!(store.pending_at(5), Some(vec![id(5)]));
    assert_eq!(store.pending_at(0), None);
    assert_eq!(store.pending_at(11), None);
    for (n, t) in [(1, 10), (2, 10), (3, 20), (4, 10), (5, 5)] {
        assert_eq!(store.due_time(&id(n)), Some(t));
    }
    assert_eq!(store.due_time(&id(6)), None);
}

#[test]
fn of_two_entries_for_one_trigger_the_first_counts() {
    let store = AutoExecutionStore::new(
        vec![(10, id(1)), (20, id(1)), (20, id(2)), (20, id(2)), (30, id(1))],
        ObjectSnapshot::new(),
    );
    assert_eq!(store.pending_at(10), Some(vec![id(1)]));
    assert_eq!(store.pending_at(20), Some(vec![id(2)]));
    assert_eq!(store.pending_at(30), None);
    assert_eq!(store.due_time(&id(1)), Some(10));
    assert_eq!(store.due_time(&id(2)), Some(20));
}

#[test]
fn an_update_moves_and_removes() {
    let mut store = AutoExecutionStore::new(
        vec![(10, id(1)), (10, id(2)), (10, id(3)), (20, id(4))],
        ObjectSnapshot::new(),
    );
    // 2 moves to 20, 4 goes, 5 and 6 come
    assert!(store.can_update(
        &vec![(20, id(5)), (30, id(6))],
        &vec![(20, id(2))],
        &vec![id(4)]
    ));
    store.update(vec![(20, id(5)), (30, id(6))], vec![(20, id(2))], vec![id(4)]);
    assert_eq!(store.pending_at(10), Some(vec![id(1), id(3)]));
    assert_eq!(store.pending_at(20), Some(vec![id(5), id(2)]));
    assert_eq!(store.pending_at(30), Some(vec![id(6)]));
    assert_eq!(store.due_time(&id(2)), Some(20));
    assert_eq!(store.due_time(&id(4)), None);
    // every trigger is in the bucket of its time, and in no other
    for t in [10u64, 20, 30] {
        for member in store.pending_at(t).unwrap() {
            assert_eq!(store.due_time(&member), Some(t));
        }
    }
    // the last trigger of a bucket takes the bucket with it
    assert!(store.try_update(vec![], vec![(10, id(6))], vec![]));
    assert_eq!(store.pending_at(30), None);
    assert_eq!(store.pending_at(10), Some(vec![id(1), id(3), id(6)]));
    assert!(store.try_update(vec![], vec![], vec![id(1), id(3), id(6)]));
    assert_eq!(store.pending_at(10), None);
    // a trigger may go and come in one update
    assert!(store.try_update(vec![(40, id(5))], vec![], vec![id(5)]));
    assert_eq!(store.pending_at(20), Some(vec![id(2)]));
    assert_eq!(store.pending_at(40), Some(vec![id(5)]));
    // an update of nothing changes nothing
    assert!(store.try_update(vec![], vec![], vec![]));
    assert_eq!(store.pending_at(20), Some(vec![id(2)]));
}

#[test]
fn an_update_that_may_not_be_is_refused() {
    let mut store =
        AutoExecutionStore::new(vec![(10, id(1)), (10, id(2))], ObjectSnapshot::new());
    // a trigger that is not pending cannot go or move
    assert!(!store.can_update(&vec![], &vec![], &vec![id(3)]));
    assert!(!store.can_update(&vec![], &vec![(20, id(3))], &vec![]));
    // no trigger goes twice, or goes and moves
    assert!(!store.can_update(&vec![], &vec![], &vec![id(1), id(1)]));
    assert!(!store.can_update(&vec![], &vec![(20, id(1))], &vec![id(1)]));
    assert!(!store.can_update(&vec![], &vec![(20, id(1)), (30, id(1))], &vec![]));
    // no trigger comes twice, or comes while it is pending
    assert!(!store.can_update(&vec![(20, id(3)), (30, id(3))], &vec![], &vec![]));
    assert!(!store.can_update(&vec![(20, id(1))], &vec![], &vec![]));
    assert!(!store.can_update(&vec![(20, id(1))], &vec![(30, id(1))], &vec![]));
    // a refused update changes nothing
    assert!(!store.try_update(vec![(20, id(3))], vec![], vec![id(4)]));
    assert_eq!(store.pending_at(10), Some(vec![id(1), id(2)]));
    assert_eq!(store.pending_at(20), None);
    assert_eq!(store.due_time(&id(3)), None);
    // these may be
    assert!(store.can_update(&vec![(20, id(3))], &vec![(30, id(1))], &vec![id(2)]));
    assert!(store.can_update(&vec![(20, id(2))], &vec![], &vec![id(2)]));
}

#[test]
fn no_trigger_is_put_before_the_watermark() {
    let mut store = empty();
    store.get_till(0, 100, 1).unwrap();
    assert_eq!(store.clock(), 100);
    assert!(store.try_update(vec![(50, id(1)), (100, id(2)), (101, id(3)), (0, id(4))], vec![], vec![]));
    assert_eq!(store.pending_at(50), None);
    assert_eq!(store.pending_at(0), None);
    assert_eq!(store.pending_at(100), Some(vec![id(1), id(2), id(4)]));
    assert_eq!(store.pending_at(101), Some(vec![id(3)]));
    // a trigger that moves is held to the watermark too
    assert!(store.try_update(vec![], vec![(7, id(3))], vec![]));
    assert_eq!(store.pending_at(7), None);
    assert_eq!(store.pending_at(100), Some(vec![id(1), id(2), id(4), id(3)]));
    assert_eq!(store.due_time(&id(3)), Some(100));
}

#[test]
fn the_watermark_never_falls() {
    let mut store = empty();
    let mut last = store.clock();
    for (from, to) in [(0u64, 10u64), (5, 7), (100, 50), (0, 0), (49, 51), (3, 51), (u64::MAX, 0)]
    {
        store.get_till(from, to, 1).unwrap();
        assert!(store.clock() >= last);
        assert_eq!(store.clock(), last.max(to));
        last = store.clock();
    }
    assert_eq!(last, 51);
    store.get_till(0, u64::MAX, 1).unwrap();
    assert_eq!(store.clock(), u64::MAX);
    store.update(vec![(3, id(1))], vec![], vec![]);
    assert_eq!(store.clock(), u64::MAX);
    assert_eq!(store.due_time(&id(1)), Some(u64::MAX));
}

#[test]
fn a_range_is_open_below_and_closed_above() {
    let entries = vec![(100, id(1)), (101, id(2)), (150, id(3)), (150, id(4)), (151, id(5))];
    let mut store = AutoExecutionStore::new(entries, live(&[1, 2, 3, 4, 5]));
    assert_eq!(ids_of(&mut store, 100, 150), vec![2, 3, 4]);
    assert_eq!(ids_of(&mut store, 99, 100), vec![1]);
    assert_eq!(ids_of(&mut store, 100, 100), Vec::<u128>::new());
    assert_eq!(ids_of(&mut store, 150, 100), Vec::<u128>::new());
    assert_eq!(ids_of(&mut store, 150, 151), vec![5]);
    assert_eq!(ids_of(&mut store, 0, u64::MAX), vec![1, 2, 3, 4, 5]);
    assert_eq!(ids_of(&mut store, u64::MAX, u64::MAX), Vec::<u128>::new());
    assert_eq!(ids_of(&mut store, 151, u64::MAX), Vec::<u128>::new());
    // the triggers stay where they are
    assert_eq!(store.pending_at(150), Some(vec![id(3), id(4)]));
}

#[test]
fn the_same_question_has_the_same_answer() {
    let entries = vec![(100, id(1)), (120, id(2)), (120, id(3))];
    let mut store = AutoExecutionStore::new(entries, live(&[1, 2, 3]));
    let first = store.get_till(50, 150, 2).unwrap();
    let clock = store.clock();
    let second = store.get_till(50, 150, 2).unwrap();
    assert_eq!(first, second);
    assert_eq!(store.clock(), clock);
    assert_eq!(first.len(), 3);
    let digests: Vec<_> = first.iter().map(|tx| tx.digest()).collect();
    assert_eq!(digests, second.iter().map(|tx| tx.digest()).collect::<Vec<_>>());
    assert_eq!(
        first.iter().map(|tx| tx.to_bytes()).collect::<Vec<_>>(),
        second.iter().map(|tx| tx.to_bytes()).collect::<Vec<_>>()
    );
    // one by one they are the same as in the range
    for tx in &first {
        assert_eq!(store.get_auto_tx_from_id(&tx.object_id(), 2).as_ref(), Some(tx));
    }
    // at another price they are others
    let dearer = store.get_till(50, 150, 3).unwrap();
    assert_ne!(first, dearer);
}

#[test]
fn a_trigger_that_fails_is_left_out() {
    let mut snapshot = live(&[1, 3]);
    // 2 is pending but there is no object; 4 is a coin; 5 cannot be read
    snapshot.insert(Object::with_id_owner_for_testing(id(4), SuiAddress(4)));
    snapshot.insert(trigger_object(&trigger(5, 7, 1005)));
    snapshot.insert(Object::with_id_owner_gas_for_testing(id(1005), SuiAddress(5), 50));
    snapshot.set_failing(&id(5), true);
    let entries = vec![(10, id(1)), (10, id(2)), (10, id(3)), (10, id(4)), (10, id(5))];
    let mut store = AutoExecutionStore::new(entries, snapshot);
    assert_eq!(ids_of(&mut store, 0, 10), vec![1, 3]);
    assert!(store.get_auto_tx_from_id(&id(2), 1).is_none());
    assert!(store.get_auto_tx_from_id(&id(4), 1).is_none());
    assert!(store.get_auto_tx_from_id(&id(5), 1).is_none());
    assert!(store.get_auto_tx_from_id(&id(1), 1).is_some());
}

struct Down;

impl ObjectCacheRead for Down {
    fn get_object(&self, _id: &ObjectID) -> SuiResult<Option<Object>> {
        Err(SuiError::StorageError { error: "down".to_string() })
    }
}

#[test]
fn a_store_that_is_down_gives_nothing() {
    let mut store = AutoExecutionStore::new(vec![(10, id(1))], Down);
    assert!(store.get_auto_tx_from_id(&id(1), 1).is_none());
    assert!(store.get_till(0, 10, 1).unwrap().is_empty());
    assert_eq!(store.clock(), 10);
    assert!(store.object_cache().get_object(&id(1)).is_err());
}

fn store_with(tx: AutoTx, more: Vec<Object>) -> AutoExecutionStore<ObjectSnapshot> {
    let mut snapshot = ObjectSnapshot::new();
    let own = tx.id.id;
    snapshot.insert(Object::with_id_owner_gas_for_testing(tx.gas_id, SuiAddress(own.0), 50));
    snapshot.insert(trigger_object(&tx));
    for object in more {
        snapshot.insert(object);
    }
    AutoExecutionStore::new(vec![(tx.trigger_time, own)], snapshot)
}

#[test]
fn the_gas_must_be_a_coin_of_the_gas_currency() {
    let tx = trigger(1, 7, 2);
    // no gas object
    let mut snapshot = ObjectSnapshot::new();
    snapshot.insert(trigger_object(&tx));
    let store = AutoExecutionStore::new(vec![(7, id(1))], snapshot);
    assert!(store.get_auto_tx_from_id(&id(1), 1).is_none());
    // the gas object cannot be read
    let mut snapshot = live(&[1]);
    snapshot.set_failing(&id(1001), true);
    let store = AutoExecutionStore::new(vec![(7, id(1))], snapshot);
    assert!(store.get_auto_tx_from_id(&id(1), 1).is_none());
    // a package
    let mut snapshot = ObjectSnapshot::new();
    snapshot.insert(trigger_object(&tx));
    snapshot.insert(Object::new_package(
        MovePackage { id: id(2), version: 1 },
        TransactionDigest::new([0; 32]),
    ));
    let store = AutoExecutionStore::new(vec![(7, id(1))], snapshot);
    assert!(store.get_auto_tx_from_id(&id(1), 1).is_none());
    // a coin of another currency
    let mut other = gas_coin_type();
    other.type_params = vec![MoveType::U64];
    let mut contents = id(2).to_vec();
    contents.extend(50u64.to_le_bytes());
    let coin = Object::new_move(
        MoveObject::new(other, true, 1, contents.clone()).unwrap(),
        Owner::AddressOwner(SuiAddress(1)),
        TransactionDigest::new([0; 32]),
    );
    assert!(!coin.is_gas_coin());
    assert_eq!(coin.as_coin_maybe().unwrap().value(), 50);
    let mut snapshot = ObjectSnapshot::new();
    snapshot.insert(trigger_object(&tx));
    snapshot.insert(coin);
    let store = AutoExecutionStore::new(vec![(7, id(1))], snapshot);
    assert!(store.get_auto_tx_from_id(&id(1), 1).is_none());
    // a gas coin whose bytes are no coin
    contents.push(0);
    let broken = Object::new_move(
        MoveObject::new(gas_coin_type(), true, 1, contents).unwrap(),
        Owner::AddressOwner(SuiAddress(1)),
        TransactionDigest::new([0; 32]),
    );
    assert!(broken.is_gas_coin());
    assert!(broken.as_coin_maybe().is_none());
    let mut snapshot = ObjectSnapshot::new();
    snapshot.insert(trigger_object(&tx));
    snapshot.insert(broken);
    let store = AutoExecutionStore::new(vec![(7, id(1))], snapshot);
    assert!(store.get_auto_tx_from_id(&id(1), 1).is_none());
}

#[test]
fn type_inputs_are_decoded_and_objects_put_their_type_in() {
    let mut tx = trigger(1, 7, 2);
    // bool, vector of u64, address
    tx.type_inputs = vec![3, 0, 6, 2, 4];
    assert_eq!(
        tx.type_inputs,
        bcs::to_bytes(&vec![
            move_core_types::language_storage::TypeTag::Bool,
            move_core_types::language_storage::TypeTag::Vector(Box::new(
                move_core_types::language_storage::TypeTag::U64
            )),
            move_core_types::language_storage::TypeTag::Address,
        ])
        .unwrap()
    );
    tx.arguments = encode_move_call_args(&vec![
        MoveCallArg::Pure(vec![1]),
        MoveCallArg::Object(MoveObjectRef { id: id(3), mutable: false, receiving: false }),
    ]);
    let owned = Object::with_id_owner_for_testing(id(3), SuiAddress(1));
    let reference = owned.compute_object_reference();
    let store = store_with(tx, vec![owned]);
    let made = store.get_auto_tx_from_id(&id(1), 1).unwrap();
    match made.transaction().kind() {
        TransactionKind::AutonomousExecution(pt) => {
            assert_eq!(
                pt.type_arguments,
                vec![
                    MoveType::Bool,
                    MoveType::Struct(Box::new(gas_coin_type())),
                    MoveType::Address
                ]
            );
            assert_eq!(pt.arguments.len(), 2);
            assert_eq!(
                pt.arguments[1],
                autonomous_execution::transaction::CallArg::Object(
                    autonomous_execution::transaction::ObjectArg::ImmOrOwnedObject(reference)
                )
            );
        }
        _ => panic!("not an autonomous execution"),
    }
}

#[test]
fn struct_types_are_decoded_field_for_field() {
    let mut tx = trigger(1, 7, 2);
    let tag = move_core_types::language_storage::StructTag {
        address: move_core_types::account_address::AccountAddress::new(id(0xabc).0.to_be_bytes()),
        module: move_core_types::identifier::Identifier::new("mod").unwrap(),
        name: move_core_types::identifier::Identifier::new("Name").unwrap(),
        type_params: vec![move_core_types::language_storage::TypeTag::Signer],
    };
    tx.type_inputs =
        bcs::to_bytes(&vec![move_core_types::language_storage::TypeTag::Struct(tag)]).unwrap();
    let store = store_with(tx, vec![]);
    let made = store.get_auto_tx_from_id(&id(1), 1).unwrap();
    match made.transaction().kind() {
        TransactionKind::AutonomousExecution(pt) => {
            assert_eq!(
                pt.type_arguments,
                vec![MoveType::Struct(Box::new(
                    autonomous_execution::language_storage::StructType {
                        address: id(0xabc),
                        module: b"mod".to_vec(),
                        name: b"Name".to_vec(),
                        type_params: vec![MoveType::Signer],
                    }
                ))]
            );
        }
        _ => panic!("not an autonomous execution"),
    }
}

#[test]
fn a_trigger_that_is_not_well_made_gives_nothing() {
    // type inputs that do not decode
    for bad in [vec![], vec![1], vec![1, 8], vec![1, 0, 0], vec![0x80, 0x00]] {
        let mut tx = trigger(1, 7, 2);
        tx.type_inputs = bad;
        assert!(store_with(tx, vec![]).get_auto_tx_from_id(&id(1), 1).is_none());
    }
    // arguments that do not decode
    for bad in [vec![], vec![1], vec![1, 2], vec![0, 0]] {
        let mut tx = trigger(1, 7, 2);
        tx.arguments = bad;
        assert!(store_with(tx, vec![]).get_auto_tx_from_id(&id(1), 1).is_none());
    }
    // more arguments than type inputs
    let mut tx = trigger(1, 7, 2);
    tx.type_inputs = vec![1, 1];
    tx.arguments = encode_move_call_args(&vec![MoveCallArg::Pure(vec![]), MoveCallArg::Pure(vec![])]);
    assert!(store_with(tx.clone(), vec![]).get_auto_tx_from_id(&id(1), 1).is_none());
    tx.type_inputs = vec![2, 1, 1];
    assert!(store_with(tx.clone(), vec![]).get_auto_tx_from_id(&id(1), 1).is_some());
    // fewer arguments than type inputs
    tx.type_inputs = vec![3, 1, 1, 1];
    assert!(store_with(tx, vec![]).get_auto_tx_from_id(&id(1), 1).is_some());
    // an object that is not there, and a package, which has no type
    let wanted = MoveCallArg::Object(MoveObjectRef { id: id(3), mutable: false, receiving: false });
    let mut tx = trigger(1, 7, 2);
    tx.type_inputs = vec![1, 1];
    tx.arguments = encode_move_call_args(&vec![wanted]);
    assert!(store_with(tx.clone(), vec![]).get_auto_tx_from_id(&id(1), 1).is_none());
    let package =
        Object::new_package(MovePackage { id: id(3), version: 1 }, TransactionDigest::new([0; 32]));
    assert!(store_with(tx.clone(), vec![package]).get_auto_tx_from_id(&id(1), 1).is_none());
    let there = Object::with_id_owner_for_testing(id(3), SuiAddress(9));
    assert!(store_with(tx, vec![there]).get_auto_tx_from_id(&id(1), 1).is_some());
}

#[test]
fn type_inputs_that_are_decoded_are_written_back_as_they_were() {
    let inner = move_core_types::language_storage::StructTag {
        address: move_core_types::account_address::AccountAddress::new(id(2).0.to_be_bytes()),
        module: move_core_types::identifier::Identifier::new("sui").unwrap(),
        name: move_core_types::identifier::Identifier::new("SUI").unwrap(),
        type_params: vec![],
    };
    let outer = move_core_types::language_storage::StructTag {
        address: move_core_types::account_address::AccountAddress::new(id(2).0.to_be_bytes()),
        module: move_core_types::identifier::Identifier::new("coin").unwrap(),
        name: move_core_types::identifier::Identifier::new("Coin").unwrap(),
        type_params: vec![
            move_core_types::language_storage::TypeTag::Struct(inner),
            move_core_types::language_storage::TypeTag::Vector(Box::new(
                move_core_types::language_storage::TypeTag::Vector(Box::new(
                    move_core_types::language_storage::TypeTag::U128,
                )),
            )),
        ],
    };
    let tags = vec![
        move_core_types::language_storage::TypeTag::Bool,
        move_core_types::language_storage::TypeTag::U8,
        move_core_types::language_storage::TypeTag::U64,
        move_core_types::language_storage::TypeTag::U128,
        move_core_types::language_storage::TypeTag::Address,
        move_core_types::language_storage::TypeTag::Signer,
        move_core_types::language_storage::TypeTag::Struct(outer),
    ];
    let bytes = bcs::to_bytes(&tags).unwrap();
    let mut tx = trigger(1, 7, 2);
    tx.type_inputs = bytes.clone();
    let made = store_with(tx, vec![]).get_auto_tx_from_id(&id(1), 1).unwrap();
    match made.transaction().kind() {
        TransactionKind::AutonomousExecution(pt) => {
            assert_eq!(pt.type_arguments.len(), 7);
            assert_eq!(pt.type_arguments[6], MoveType::Struct(Box::new(gas_coin_like())));
            let mut written = Vec::new();
            write_type_tags(&mut written, &pt.type_arguments);
            assert_eq!(written, bytes);
        }
        _ => panic!("not an autonomous execution"),
    }
}

fn gas_coin_like() -> autonomous_execution::language_storage::StructType {
    let mut tag = gas_coin_type();
    tag.type_params.push(MoveType::Vector(Box::new(MoveType::Vector(Box::new(MoveType::U128)))));
    tag
}

/// Numbers that are the same at every run.
struct Numbers(u64);

impl Numbers {
    fn next(&mut self) -> u64 {
        self.0 ^= self.0 << 13;
        self.0 ^= self.0 >> 7;
        self.0 ^= self.0 << 17;
        self.0
    }

    fn below(&mut self, n: u64) -> u64 {
        self.next() % n
    }

    fn name(&mut self) -> String {
        let length = 1 + self.below(140);
        (0..length).map(|_| (b'a' + self.below(26) as u8) as char).collect()
    }

    /// A type of the library, and the same type as the decoder has it.
    fn tag(&mut self, depth: u32) -> (MoveType, move_core_types::language_storage::TypeTag) {
        let kinds = if depth == 0 { 6 } else { 8 };
        match self.below(kinds) {
            0 => (MoveType::Bool, move_core_types::language_storage::TypeTag::Bool),
            1 => (MoveType::U8, move_core_types::language_storage::TypeTag::U8),
            2 => (MoveType::U64, move_core_types::language_storage::TypeTag::U64),
            3 => (MoveType::U128, move_core_types::language_storage::TypeTag::U128),
            4 => (MoveType::Address, move_core_types::language_storage::TypeTag::Address),
            5 => (MoveType::Signer, move_core_types::language_storage::TypeTag::Signer),
            6 => {
                let (ours, theirs) = self.tag(depth - 1);
                (
                    MoveType::Vector(Box::new(ours)),
                    move_core_types::language_storage::TypeTag::Vector(Box::new(theirs)),
                )
            }
            _ => {
                let (ours, theirs) = self.struct_tag(depth - 1);
                (
                    MoveType::Struct(Box::new(ours)),
                    move_core_types::language_storage::TypeTag::Struct(theirs),
                )
            }
        }
    }

    fn struct_tag(
        &mut self,
        depth: u32,
    ) -> (StructType, move_core_types::language_storage::StructTag) {
        let address = ((self.next() as u128) << 64) | self.next() as u128;
        let module = self.name();
        let name = self.name();
        let count = self.below(4);
        let params: Vec<_> = (0..count).map(|_| self.tag(depth)).collect();
        (
            StructType {
                address: id(address),
                module: module.as_bytes().to_vec(),
                name: name.as_bytes().to_vec(),
                type_params: params.iter().map(|(ours, _)| ours.clone()).collect(),
            },
            move_core_types::language_storage::StructTag {
                address: move_core_types::account_address::AccountAddress::new(
                    address.to_be_bytes(),
                ),
                module: move_core_types::identifier::Identifier::new(module).unwrap(),
                name: move_core_types::identifier::Identifier::new(name).unwrap(),
                type_params: params.into_iter().map(|(_, theirs)| theirs).collect(),
            },
        )
    }
}

#[test]
fn types_are_written_as_the_decoder_reads_them() {
    let mut numbers = Numbers(0x2545_f491_4f6c_dd1d);
    for round in 0..1500 {
        let count = numbers.below(5);
        let tags: Vec<_> = (0..count).map(|_| numbers.tag(4)).collect();
        let ours: Vec<MoveType> = tags.iter().map(|(ours, _)| ours.clone()).collect();
        let theirs: Vec<_> = tags.into_iter().map(|(_, theirs)| theirs).collect();
        // the list, as the bytes of a trigger hold it
        let mut written = Vec::new();
        write_type_tags(&mut written, &ours);
        assert_eq!(written, bcs::to_bytes(&theirs).unwrap(), "round {}", round);
        // each type on its own, after bytes that are there already
        for (own, their) in ours.iter().zip(&theirs) {
            let mut written = vec![0xaa];
            write_type_tag(&mut written, own);
            assert_eq!(&written[1..], &bcs::to_bytes(their).unwrap()[..]);
        }
        let (own, their) = numbers.struct_tag(3);
        let mut written = Vec::new();
        write_struct_tag(&mut written, &own);
        assert_eq!(written, bcs::to_bytes(&their).unwrap());
        // and the decoder reads the list back as it was
        let mut tx = trigger(1, 7, 2);
        tx.type_inputs = bcs::to_bytes(&theirs).unwrap();
        let made = store_with(tx, vec![]).get_auto_tx_from_id(&id(1), 1).unwrap();
        match made.transaction().kind() {
            TransactionKind::AutonomousExecution(pt) => assert_eq!(pt.type_arguments, ours),
            _ => panic!("not an autonomous execution"),
        }
    }
}

#[test]
fn a_decoded_trigger_becomes_a_transaction_if_its_arguments_resolve() {
    let tx = trigger(1, 7, 2);
    let gas = Object::with_id_owner_gas_for_testing(id(2), SuiAddress(1), 50);
    let mut snapshot = ObjectSnapshot::new();
    let owned = Object::with_id_owner_for_testing(id(3), SuiAddress(1));
    let reference = owned.compute_object_reference();
    snapshot.insert(owned);
    let pure = || MoveCallArg::Pure(vec![1, 2]);
    let object = |n: u128, receiving: bool| {
        MoveCallArg::Object(MoveObjectRef { id: id(n), mutable: false, receiving })
    };
    let make = |types: Vec<MoveType>, args: Vec<MoveCallArg>| {
        materialize_decoded(&snapshot, &tx, &gas, 50, 9, types, args)
    };
    // no arguments, and type inputs that no argument stands for
    let made = make(vec![MoveType::U8, MoveType::Bool], vec![]).unwrap();
    assert_eq!(made.object_id(), id(1));
    assert_eq!(made.trigger_time(), 7);
    assert_eq!(made.transaction().gas_budget(), 50);
    assert_eq!(made.transaction().gas_price(), 9);
    match made.transaction().kind() {
        TransactionKind::AutonomousExecution(pt) => {
            assert_eq!(pt.type_arguments, vec![MoveType::U8, MoveType::Bool]);
            assert!(pt.arguments.is_empty());
        }
        _ => panic!("not an autonomous execution"),
    }
    // the type of an object takes the place of the type input at its position
    let made = make(
        vec![MoveType::U8, MoveType::Bool, MoveType::U64],
        vec![pure(), object(3, true)],
    )
    .unwrap();
    match made.transaction().kind() {
        TransactionKind::AutonomousExecution(pt) => {
            assert_eq!(
                pt.type_arguments,
                vec![MoveType::U8, MoveType::Struct(Box::new(gas_coin_type())), MoveType::U64]
            );
            assert_eq!(
                pt.arguments,
                vec![
                    autonomous_execution::transaction::CallArg::Pure(vec![1, 2]),
                    autonomous_execution::transaction::CallArg::Object(
                        autonomous_execution::transaction::ObjectArg::Receiving(reference)
                    ),
                ]
            );
        }
        _ => panic!("not an autonomous execution"),
    }
    // as many arguments as type inputs may be, one more may not
    assert!(make(vec![MoveType::U8], vec![pure()]).is_some());
    assert!(make(vec![MoveType::U8], vec![pure(), pure()]).is_none());
    assert!(make(vec![], vec![pure()]).is_none());
    assert!(make(vec![], vec![]).is_some());
    // an object that is not there
    assert!(make(vec![MoveType::U8, MoveType::U8], vec![pure(), object(4, false)]).is_none());
    assert!(make(vec![MoveType::U8, MoveType::U8], vec![object(4, false), pure()]).is_none());
    // gas that the trigger does not own
    let foreign = Object::with_id_owner_gas_for_testing(id(2), SuiAddress(5), 50);
    assert!(materialize_decoded(&snapshot, &tx, &foreign, 50, 9, vec![], vec![]).is_none());
}

#[test]
fn an_object_that_is_read_has_the_identifier_asked_for() {
    let snapshot = live(&[1, 2, 3]);
    for n in [1u128, 2, 3, 1001, 1002, 1003] {
        let read = snapshot.get_object(&id(n)).unwrap().unwrap();
        assert_eq!(read.id(), id(n));
    }
    let mut store = AutoExecutionStore::new(vec![(10, id(1)), (20, id(2)), (20, id(3))], snapshot);
    let txs = store.get_till(0, 20, 1).unwrap();
    // one transaction for each trigger, with the identifier of its trigger
    assert_eq!(txs.iter().map(|tx| tx.object_id()).collect::<Vec<_>>(), vec![id(1), id(2), id(3)]);
    for tx in &txs {
        let due = store.due_time(&tx.object_id()).unwrap();
        assert!(0 < due && due <= 20);
        assert!(store.pending_at(due).unwrap().contains(&tx.object_id()));
    }
}
