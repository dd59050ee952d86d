use autonomous_execution::auto_executable_transaction::AutoExecutableTransaction;
use autonomous_execution::auto_execution::{
    joined_entries, key_range, merged_entry, timestamp_key, AutoExecutionStore,
};
use autonomous_execution::base_types::{ObjectDigest, ObjectID, SuiAddress, TransactionDigest};
use autonomous_execution::error::SuiError;
use autonomous_execution::object::{Coin, MovePackage, Object, Owner};
use autonomous_execution::object_authenticator::ObjectAuthenticator;
use autonomous_execution::transaction::{
    GasData, ProgrammableTransaction, TransactionData, TransactionKind,
};
use blake2::digest::consts::U32;
use blake2::{Blake2b, Digest};

fn tx(n: u128) -> AutoExecutableTransaction {
    let data = TransactionData {
        kind: TransactionKind::AutonomousExecution(ProgrammableTransaction {
            package: ObjectID(n),
            module: b"m".to_vec(),
            function: b"f".to_vec(),
            type_arguments: vec![],
            arguments: vec![],
        }),
        sender: SuiAddress(n),
        gas_data: GasData { payment: vec![], owner: SuiAddress(n), price: 1, budget: 1 },
    };
    AutoExecutableTransaction::new(ObjectID(n), 0, data).unwrap()
}

fn ids(txs: &[AutoExecutableTransaction]) -> Vec<u128> {
    txs.iter().map(|tx| tx.object_id().0).collect()
}

#[test]
fn the_log_adds_to_an_entry() {
    let mut log = AutoExecutionStore::new_for_test();
    log.insert_transactions(10, vec![tx(1), tx(2)]);
    log.insert_transactions(10, vec![tx(3)]);
    log.insert_transactions(10, vec![]);
    log.insert_transactions(5, vec![tx(4)]);
    assert_eq!(ids(&log.query_transactions(0, 10).unwrap()), vec![4, 1, 2, 3]);
    assert_eq!(ids(&log.query_transactions(5, 10).unwrap()), vec![1, 2, 3]);
    assert_eq!(ids(&log.query_transactions(4, 5).unwrap()), vec![4]);
    assert_eq!(ids(&log.query_transactions(10, 20).unwrap()), Vec::<u128>::new());
    assert_eq!(ids(&log.query_transactions(10, 5).unwrap()), Vec::<u128>::new());
    assert_eq!(ids(&log.query_transactions(u64::MAX, u64::MAX).unwrap()), Vec::<u128>::new());
    assert_eq!(ids(&log.query_transactions(0, u64::MAX).unwrap()), vec![4, 1, 2, 3]);
    // what is asked for stays
    assert_eq!(ids(&log.query_transactions(0, 10).unwrap()), vec![4, 1, 2, 3]);
}

#[test]
fn the_log_forgets_a_range() {
    let mut log = AutoExecutionStore::new();
    for t in [1u64, 2, 3, 4, 5] {
        log.insert_transactions(t, vec![tx(t as u128)]);
    }
    log.remove_transactions(1, 3).unwrap();
    assert_eq!(ids(&log.query_transactions(0, 10).unwrap()), vec![1, 4, 5]);
    log.remove_transactions(5, 5).unwrap();
    log.remove_transactions(9, 2).unwrap();
    assert_eq!(ids(&log.query_transactions(0, 10).unwrap()), vec![1, 4, 5]);
    log.remove_transactions(0, u64::MAX).unwrap();
    assert_eq!(ids(&log.query_transactions(0, 10).unwrap()), Vec::<u128>::new());
    log.insert_transactions(2, vec![tx(7)]);
    assert_eq!(ids(&log.query_transactions(1, 2).unwrap()), vec![7]);
}

#[test]
fn an_entry_is_merged_and_a_range_has_its_keys() {
    assert_eq!(ids(&merged_entry(None, vec![tx(1)])), vec![1]);
    assert_eq!(ids(&merged_entry(Some(vec![tx(1), tx(2)]), vec![tx(3)])), vec![1, 2, 3]);
    assert_eq!(ids(&merged_entry(Some(vec![]), vec![])), Vec::<u128>::new());
    assert_eq!(ids(&joined_entries(vec![])), Vec::<u128>::new());
    assert_eq!(ids(&joined_entries(vec![vec![], vec![tx(1)], vec![]])), vec![1]);
    assert_eq!(
        ids(&joined_entries(vec![vec![tx(4), tx(1)], vec![tx(3)], vec![tx(2), tx(5)]])),
        vec![4, 1, 3, 2, 5]
    );
    assert_eq!(key_range(3, 7), Some((4, 7)));
    assert_eq!(key_range(3, 4), Some((4, 4)));
    assert_eq!(key_range(3, 3), None);
    assert_eq!(key_range(7, 3), None);
    assert_eq!(key_range(u64::MAX, u64::MAX), None);
    assert_eq!(key_range(u64::MAX - 1, u64::MAX), Some((u64::MAX, u64::MAX)));
}

#[test]
fn an_object_authenticator_names_its_object() {
    let authenticator = ObjectAuthenticator::new(ObjectID(0x1234));
    assert_eq!(authenticator.get_address(), SuiAddress(0x1234));
    assert_eq!(authenticator.to_vec(), ObjectID(0x1234).to_vec());
    assert_eq!(authenticator.verify_user_authenticator_epoch(0, None), Ok(()));
    assert_eq!(authenticator.verify_user_authenticator_epoch(u64::MAX, Some(3)), Ok(()));
    assert_eq!(
        authenticator.verify_claims(SuiAddress(0x1234)),
        Err(SuiError::InvalidSignature {
            error: "Object authenticator should not be checked".to_string()
        })
    );
    assert!(ObjectAuthenticator::new(ObjectID(1)) < ObjectAuthenticator::new(ObjectID(2)));
}

#[test]
fn identifiers_are_their_bytes() {
    let mut bytes = [0u8; 16];
    bytes[15] = 2;
    assert_eq!(ObjectID::new(bytes), ObjectID(2));
    assert_eq!(ObjectID(2).to_vec(), bytes.to_vec());
    let all: Vec<u8> = (1..=16).collect();
    let id = ObjectID::from_bytes(&all).unwrap();
    assert_eq!(id, ObjectID(0x0102_0304_0506_0708_090a_0b0c_0d0e_0f10));
    assert_eq!(id.to_vec(), all);
    assert_eq!(ObjectID::from_bytes(&all[1..]), None);
    assert_eq!(ObjectID::from_bytes(&[]), None);
    assert_eq!(ObjectID(u128::MAX).to_vec(), vec![0xff; 16]);
    assert_eq!(ObjectID::new([0xff; 16]), ObjectID(u128::MAX));
    // identifiers are ordered as their bytes are
    assert!(ObjectID(0x00ff) < ObjectID(0x0100));
    assert!(ObjectID(0x00ff).to_vec() < ObjectID(0x0100).to_vec());
    assert_eq!(SuiAddress::from_object_id(ObjectID(77)), SuiAddress(77));
}

fn blake2b256(data: &[u8]) -> [u8; 32] {
    let mut hasher = Blake2b::<U32>::new();
    hasher.update(data);
    hasher.finalize().into()
}

#[test]
fn an_object_is_told_by_its_reference() {
    let coin = Object::with_id_owner_gas_for_testing(ObjectID(7), SuiAddress(9), 1234);
    assert_eq!(coin.id(), ObjectID(7));
    assert_eq!(coin.version(), 1);
    assert!(coin.is_gas_coin());
    assert!(!coin.is_shared());
    assert_eq!(coin.get_single_owner(), Some(SuiAddress(9)));
    assert_eq!(coin.owner, Owner::AddressOwner(SuiAddress(9)));
    assert_eq!(
        coin.as_coin_maybe(),
        Some(Coin { id: autonomous_execution::base_types::UID::new(ObjectID(7)), balance: 1234 })
    );
    let bytes = coin.to_bytes();
    let digest = coin.digest();
    assert_eq!(digest, ObjectDigest(blake2b256(&bytes)));
    assert_eq!(coin.compute_object_reference(), (ObjectID(7), 1, digest));
    assert_eq!(coin.duplicate().compute_object_reference(), (ObjectID(7), 1, digest));
    // the bytes: a Move object, its type, flag, version and contents, then the owner
    assert_eq!(bytes[0], 0);
    assert_eq!(&bytes[1..17], &2u128.to_be_bytes());
    assert_eq!(&bytes[17..22], &[4, b'c', b'o', b'i', b'n']);
    assert_eq!(bytes[bytes.len() - 32 - 17], 0);
    assert_eq!(&bytes[bytes.len() - 32 - 16..bytes.len() - 32], &9u128.to_be_bytes());
    assert_eq!(&bytes[bytes.len() - 32..], &[0u8; 32]);
    // another balance, another digest
    let richer = Object::with_id_owner_gas_for_testing(ObjectID(7), SuiAddress(9), 1235);
    assert_ne!(richer.digest(), digest);
    let mut shared = Object::with_id_owner_gas_for_testing(ObjectID(7), SuiAddress(9), 1234);
    shared.owner = Owner::Shared { initial_shared_version: 3 };
    assert!(shared.is_shared());
    assert_eq!(shared.get_single_owner(), None);
    assert_ne!(shared.digest(), digest);
    let package =
        Object::new_package(MovePackage { id: ObjectID(8), version: 4 }, TransactionDigest::new([1; 32]));
    assert_eq!(package.id(), ObjectID(8));
    assert_eq!(package.version(), 4);
    assert!(!package.is_gas_coin());
    assert!(package.as_coin_maybe().is_none());
    assert!(package.get_move_template_type().is_none());
    assert_eq!(package.digest(), ObjectDigest(blake2b256(&package.to_bytes())));
}

#[test]
fn the_keys_of_the_log_are_ordered_as_the_times() {
    assert_eq!(timestamp_key(0), vec![0; 8]);
    assert_eq!(timestamp_key(1), vec![0, 0, 0, 0, 0, 0, 0, 1]);
    assert_eq!(timestamp_key(0x0102030405060708), vec![1, 2, 3, 4, 5, 6, 7, 8]);
    assert_eq!(timestamp_key(u64::MAX), vec![0xff; 8]);
    let times = [0u64, 1, 2, 255, 256, 257, 65535, 65536, 1 << 32, (1 << 40) + 5, u64::MAX - 1, u64::MAX];
    for a in times {
        assert_eq!(timestamp_key(a), a.to_be_bytes().to_vec());
        for b in times {
            assert_eq!(a < b, timestamp_key(a) < timestamp_key(b), "{} and {}", a, b);
        }
    }
}
