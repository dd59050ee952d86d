use autonomous_execution::auto_executable_transaction::{
    encode_move_call_args, AutoTx, MoveCallArg, MoveObjectRef,
};
use autonomous_execution::autonomous_execution_store::AutoExecutionStore;
use autonomous_execution::base_types::{ObjectID, SuiAddress, TransactionDigest, UID};
use autonomous_execution::error::SuiError;
use autonomous_execution::execution_cache::{ObjectCacheRead, ObjectSnapshot};
use autonomous_execution::object::{MoveObject, Object, Owner, OBJECT_START_VERSION};
use autonomous_execution::transaction::{CallArg, ObjectArg, TransactionKind};

fn trigger(id: u128, time: u64, gas: u128) -> AutoTx {
    AutoTx {
        id: UID::new(ObjectID(id)),
        trigger_time: time,
        caller: ObjectID(0xca11e4),
        callee: ObjectID(0xca11ee),
        module_name: b"module".to_vec(),
        function_name: b"function".to_vec(),
        type_inputs: vec![0],
        gas_id: ObjectID(gas),
        arguments: vec![0],
    }
}

fn trigger_object(tx: &AutoTx) -> Object {
    let contents = tx.to_bcs_bytes();
    let inner =
        MoveObject::new(AutoTx::struct_tag(), false, OBJECT_START_VERSION, contents).unwrap();
    Object::new_move(inner, Owner::AddressOwner(SuiAddress(0x7a105)), TransactionDigest::new([0; 32]))
}

#[test]
fn the_owner_of_the_gas_decides() {
    let x = 0x1000;
    let g = 0x2000;
    let mut snapshot = ObjectSnapshot::new();
    snapshot.insert(trigger_object(&trigger(x, 100, g)));
    snapshot.insert(Object::with_id_owner_gas_for_testing(ObjectID(g), SuiAddress(x), 5_000_000));
    let mut store = AutoExecutionStore::new(vec![(100, ObjectID(x))], snapshot);
    let tx = store.get_auto_tx_from_id(&ObjectID(x), 1).unwrap();
    assert_eq!(tx.object_id(), ObjectID(x));
    assert_eq!(tx.trigger_time(), 100);
    assert_eq!(tx.transaction().gas_budget(), 5_000_000);
    assert_eq!(tx.transaction().gas_price(), 1);
    assert_eq!(tx.transaction().sender(), SuiAddress(x));
    assert_eq!(tx.transaction().signers(), vec![SuiAddress(x)]);
    match tx.transaction().kind() {
        TransactionKind::AutonomousExecution(pt) => {
            assert_eq!(pt.package, ObjectID(0xca11ee));
            assert_eq!(pt.module, b"module".to_vec());
            assert_eq!(pt.function, b"function".to_vec());
            assert!(pt.type_arguments.is_empty());
            assert!(pt.arguments.is_empty());
        }
        _ => panic!("not an autonomous execution"),
    }
    let all = store.get_till(0, 100, 1).unwrap();
    assert_eq!(all.len(), 1);

    // another owner of the gas coin: no transaction
    let mut snapshot = ObjectSnapshot::new();
    snapshot.insert(trigger_object(&trigger(x, 100, g)));
    snapshot.insert(Object::with_id_owner_gas_for_testing(ObjectID(g), SuiAddress(0xbad), 5_000_000));
    let mut store = AutoExecutionStore::new(vec![(100, ObjectID(x))], snapshot);
    assert!(store.get_auto_tx_from_id(&ObjectID(x), 1).is_none());
    assert!(store.get_till(0, 100, 1).unwrap().is_empty());
}

#[test]
fn a_trigger_that_is_added_and_deleted_is_gone() {
    let x = ObjectID(0x1000);
    let mut store = AutoExecutionStore::new(vec![], ObjectSnapshot::new());
    assert!(store.try_update(vec![(100, x)], vec![], vec![]));
    assert_eq!(store.pending_at(100), Some(vec![x]));
    assert_eq!(store.due_time(&x), Some(100));
    assert!(store.try_update(vec![], vec![], vec![x]));
    assert_eq!(store.pending_at(100), None);
    assert_eq!(store.due_time(&x), None);
}

#[test]
fn a_trigger_that_is_added_is_returned() {
    let y = 0x3000;
    let g = 0x4000;
    let mut snapshot = ObjectSnapshot::new();
    snapshot.insert(trigger_object(&trigger(y, 120, g)));
    snapshot.insert(Object::with_id_owner_gas_for_testing(ObjectID(g), SuiAddress(y), 5_000_000));
    let mut store = AutoExecutionStore::new(vec![], snapshot);
    assert!(store.get_till(50, 150, 1).unwrap().is_empty());
    assert_eq!(store.clock(), 150);
    assert!(store.try_update(vec![(120, ObjectID(y))], vec![], vec![]));
    // 120 is before the watermark: the trigger is due at the watermark
    assert_eq!(store.due_time(&ObjectID(y)), Some(150));
    let txs = store.get_till(100, 200, 1).unwrap();
    assert_eq!(txs.len(), 1);
    assert_eq!(txs[0].object_id(), ObjectID(y));
    assert_eq!(store.clock(), 200);
}

#[test]
fn object_arguments_are_resolved() {
    let x = 0x1000;
    let g = 0x2000;
    let shared = 0x5000;
    let owned = 0x6000;
    let mut tx = trigger(x, 100, g);
    // three type inputs, all u8; three arguments
    tx.type_inputs = vec![3, 1, 1, 1];
    let args = vec![
        MoveCallArg::Pure(vec![7, 8]),
        MoveCallArg::Object(MoveObjectRef { id: ObjectID(shared), mutable: true, receiving: false }),
        MoveCallArg::Object(MoveObjectRef { id: ObjectID(owned), mutable: false, receiving: true }),
    ];
    let mut bytes = vec![3u8, 0, 2, 7, 8];
    bytes.push(1);
    bytes.extend(ObjectID(shared).to_vec());
    bytes.extend([1, 0]);
    bytes.push(1);
    bytes.extend(ObjectID(owned).to_vec());
    bytes.extend([0, 1]);
    assert_eq!(encode_move_call_args(&args), bytes);
    tx.arguments = bytes;
    let mut snapshot = ObjectSnapshot::new();
    snapshot.insert(trigger_object(&tx));
    snapshot.insert(Object::with_id_owner_gas_for_testing(ObjectID(g), SuiAddress(x), 9));
    let mut shared_object = Object::with_id_owner_for_testing(ObjectID(shared), SuiAddress(1));
    shared_object.owner = Owner::Shared { initial_shared_version: 42 };
    snapshot.insert(shared_object);
    let owned_object = Object::with_id_owner_for_testing(ObjectID(owned), SuiAddress(x));
    let owned_ref = owned_object.compute_object_reference();
    snapshot.insert(owned_object);
    let store = AutoExecutionStore::new(vec![(100, ObjectID(x))], snapshot);
    let made = store.get_auto_tx_from_id(&ObjectID(x), 3).unwrap();
    match made.transaction().kind() {
        TransactionKind::AutonomousExecution(pt) => {
            assert_eq!(pt.arguments.len(), 3);
            assert_eq!(pt.arguments[0], CallArg::Pure(vec![7, 8]));
            assert_eq!(
                pt.arguments[1],
                CallArg::Object(ObjectArg::SharedObject {
                    id: ObjectID(shared),
                    initial_shared_version: 42,
                    mutable: true
                })
            );
            assert_eq!(pt.arguments[2], CallArg::Object(ObjectArg::Receiving(owned_ref)));
            assert_eq!(pt.type_arguments.len(), 3);
        }
        _ => panic!("not an autonomous execution"),
    }
}

#[test]
fn a_snapshot_answers_for_what_it_holds() {
    let mut snapshot = ObjectSnapshot::new();
    let coin = Object::with_id_owner_for_testing(ObjectID(7), SuiAddress(9));
    let reference = coin.compute_object_reference();
    snapshot.insert(coin);
    let read = snapshot.get_object(&ObjectID(7)).unwrap().unwrap();
    assert_eq!(read.compute_object_reference(), reference);
    assert!(read.is_gas_coin());
    assert_eq!(read.as_coin_maybe().unwrap().value(), 300_000_000_000_000);
    assert!(snapshot.get_object(&ObjectID(8)).unwrap().is_none());
    // an object takes the place of the one that was there
    snapshot.insert(Object::with_id_owner_gas_for_testing(ObjectID(7), SuiAddress(9), 5));
    let read = snapshot.get_object(&ObjectID(7)).unwrap().unwrap();
    assert_eq!(read.as_coin_maybe().unwrap().value(), 5);
    // a snapshot that fails for an identifier fails for that one only
    snapshot.insert(Object::with_id_owner_for_testing(ObjectID(8), SuiAddress(9)));
    snapshot.set_failing(&ObjectID(7), true);
    assert!(matches!(
        snapshot.get_object(&ObjectID(7)),
        Err(SuiError::StorageError { .. })
    ));
    assert!(snapshot.get_object(&ObjectID(8)).unwrap().is_some());
    snapshot.set_failing(&ObjectID(7), false);
    assert!(snapshot.get_object(&ObjectID(7)).unwrap().is_some());
    snapshot.remove(&ObjectID(7));
    assert!(snapshot.get_object(&ObjectID(7)).unwrap().is_none());
}
