use autonomous_execution::auto_executable_transaction::{
    auto_execution_module, auto_execution_struct, decode_move_call_args, encode_move_call_args,
    AutoExecutableTransaction, AutoTx, MoveCallArg, MoveObjectRef, AUTO_EXECUTION_MODULE_NAME,
    AUTO_EXECUTION_STRUCT_NAME, TALUS_FRAMEWORK_ADDRESS,
};
use autonomous_execution::base_types::{ObjectID, SuiAddress, TransactionDigest, UID};
use autonomous_execution::error::SuiError;
use autonomous_execution::language_storage::{MoveType, MoveTypeLayout, StructType};
use autonomous_execution::object::{
    gas_coin_type, MoveObject, MovePackage, Object, Owner, OBJECT_START_VERSION,
};
use autonomous_execution::transaction::{
    CallArg, GasData, ProgrammableTransaction, TransactionData, TransactionKey, TransactionKind,
};
use autonomous_execution::wire::DecodeError;
use blake2::digest::consts::U32;
use blake2::{Blake2b, Digest};

type TriggerFields =
    ([u8; 16], u64, [u8; 16], [u8; 16], Vec<u8>, Vec<u8>, Vec<u8>, [u8; 16], Vec<u8>);

fn id_bytes(id: ObjectID) -> [u8; 16] {
    id.0.to_be_bytes()
}

fn fields_of(tx: &AutoTx) -> TriggerFields {
    (
        id_bytes(tx.id.id),
        tx.trigger_time,
        id_bytes(tx.caller),
        id_bytes(tx.callee),
        tx.module_name.clone(),
        tx.function_name.clone(),
        tx.type_inputs.clone(),
        id_bytes(tx.gas_id),
        tx.arguments.clone(),
    )
}

fn sample(id: u128, gas: u128) -> AutoTx {
    AutoTx {
        id: UID::new(ObjectID(id)),
        trigger_time: 1234567890,
        caller: ObjectID(0x0123_4567_89ab_cdef_0011_2233_4455_6677),
        callee: ObjectID(0xfedc_ba98_7654_3210_8899_aabb_ccdd_eeff),
        module_name: b"module".to_vec(),
        function_name: b"function".to_vec(),
        type_inputs: bcs::to_bytes(&Vec::<move_core_types::language_storage::TypeTag>::new())
            .unwrap(),
        gas_id: ObjectID(gas),
        arguments: encode_move_call_args(&Vec::new()),
    }
}

#[test]
fn test_auto_tx_from_bcs_bytes() {
    let auto_tx = sample(0xa11ce, 0x9a5);
    let bytes = bcs::to_bytes(&fields_of(&auto_tx)).unwrap();
    let deserialized_auto_tx = AutoTx::from_bcs_bytes(&bytes).unwrap();
    assert_eq!(auto_tx, deserialized_auto_tx);
}

#[test]
fn test_auto_tx_try_from_object() {
    let owner = Owner::AddressOwner(SuiAddress(TALUS_FRAMEWORK_ADDRESS));
    let id = UID::new(ObjectID(0xa11ce));
    let gas = Object::with_id_owner_for_testing(
        ObjectID(0x9a5),
        SuiAddress::from_object_id(*id.object_id()),
    );
    let auto_tx = AutoTx {
        id,
        trigger_time: 1234567890,
        caller: ObjectID(0xca11e4),
        callee: ObjectID(0xca11ee),
        module_name: b"module".to_vec(),
        function_name: b"function".to_vec(),
        type_inputs: bcs::to_bytes(&Vec::<move_core_types::language_storage::TypeTag>::new())
            .unwrap(),
        gas_id: gas.id(),
        arguments: encode_move_call_args(&Vec::new()),
    };
    let bytes = bcs::to_bytes(&fields_of(&auto_tx)).unwrap();
    let obj = Object::new_move(
        MoveObject::create_for_test(AutoTx::struct_tag(), false, OBJECT_START_VERSION, &bytes)
            .unwrap(),
        owner,
        TransactionDigest::new([7; 32]),
    );
    let deserialized_auto_tx = AutoTx::try_from_object(&obj).unwrap();
    assert_eq!(auto_tx, deserialized_auto_tx);

    let auto_executable_transaction = AutoExecutableTransaction::try_from_obj(
        &auto_tx,
        &gas,
        gas.as_coin_maybe().unwrap().balance,
        1,
        vec![],
        vec![],
    );

    assert!(auto_executable_transaction.is_some());
}

#[test]
fn trigger_bytes_are_the_canonical_ones() {
    let auto_tx = sample(0xa11ce, 0x9a5);
    let ours = auto_tx.to_bcs_bytes();
    let theirs = bcs::to_bytes(&fields_of(&auto_tx)).unwrap();
    assert_eq!(ours, theirs);
    // identifier, time, caller, callee, then the strings with their length
    assert_eq!(&ours[0..16], &id_bytes(ObjectID(0xa11ce)));
    assert_eq!(&ours[16..24], &1234567890u64.to_le_bytes());
    assert_eq!(ours[56], 6);
    assert_eq!(&ours[57..63], b"module");
    assert_eq!(ours.len(), 16 + 8 + 16 + 16 + 7 + 9 + 2 + 16 + 2);
}

#[test]
fn long_strings_have_long_lengths() {
    for n in [0usize, 1, 127, 128, 129, 255, 256, 16383, 16384, 70000] {
        let mut auto_tx = sample(1, 2);
        auto_tx.type_inputs = vec![0x5a; n];
        let ours = auto_tx.to_bcs_bytes();
        assert_eq!(ours, bcs::to_bytes(&fields_of(&auto_tx)).unwrap(), "length {}", n);
        assert_eq!(AutoTx::from_bcs_bytes(&ours), Ok(auto_tx));
    }
}

#[test]
fn bytes_that_are_no_trigger_are_refused() {
    let auto_tx = sample(0xa11ce, 0x9a5);
    let good = auto_tx.to_bcs_bytes();
    // every proper prefix is too short
    for cut in 0..good.len() {
        assert_eq!(AutoTx::from_bcs_bytes(&good[..cut]), Err(DecodeError {}), "cut at {}", cut);
        assert!(bcs::from_bytes::<TriggerFields>(&good[..cut]).is_err());
    }
    // a byte too many
    let mut long = good.clone();
    long.push(0);
    assert_eq!(AutoTx::from_bcs_bytes(&long), Err(DecodeError {}));
    assert!(bcs::from_bytes::<TriggerFields>(&long).is_err());
    // a length that is not written in the shortest way: 6 as 0x86 0x00
    let mut padded = good[..56].to_vec();
    padded.extend([0x86, 0x00]);
    padded.extend(&good[57..]);
    assert_eq!(AutoTx::from_bcs_bytes(&padded), Err(DecodeError {}));
    assert!(bcs::from_bytes::<TriggerFields>(&padded).is_err());
    // a length beyond 32 bits
    let mut huge = good[..56].to_vec();
    huge.extend([0xff, 0xff, 0xff, 0xff, 0x1f]);
    assert_eq!(AutoTx::from_bcs_bytes(&huge), Err(DecodeError {}));
    assert!(bcs::from_bytes::<TriggerFields>(&huge).is_err());
    // a length beyond the longest sequence
    let mut over = good[..56].to_vec();
    over.extend([0x80, 0x80, 0x80, 0x80, 0x08]);
    assert_eq!(AutoTx::from_bcs_bytes(&over), Err(DecodeError {}));
    assert!(bcs::from_bytes::<TriggerFields>(&over).is_err());
}

#[test]
fn decoder_agrees_with_the_canonical_one_on_odd_bytes() {
    // go through small changes of a good encoding and compare the verdicts
    let good = sample(0xa11ce, 0x9a5).to_bcs_bytes();
    for at in 0..good.len() {
        for delta in [1u8, 0x7f, 0x80, 0xff] {
            let mut bytes = good.clone();
            bytes[at] = bytes[at].wrapping_add(delta);
            let ours = AutoTx::from_bcs_bytes(&bytes);
            let theirs = bcs::from_bytes::<TriggerFields>(&bytes);
            match (ours, theirs) {
                (Ok(tx), Ok(fields)) => assert_eq!(fields_of(&tx), fields),
                (Err(_), Err(_)) => {}
                (ours, theirs) => panic!("at {}: {:?} but {:?}", at, ours, theirs.is_ok()),
            }
        }
    }
}

type WireArg = Result<Vec<u8>, ([u8; 16], bool, bool)>;

fn wire_args(args: &[MoveCallArg]) -> Vec<WireArg> {
    args.iter()
        .map(|arg| match arg {
            MoveCallArg::Pure(bytes) => Ok(bytes.clone()),
            MoveCallArg::Object(object) => {
                Err((id_bytes(object.id), object.mutable, object.receiving))
            }
        })
        .collect()
}

#[test]
fn call_arguments_round_trip() {
    let args = vec![
        MoveCallArg::Pure(vec![]),
        MoveCallArg::Object(MoveObjectRef { id: ObjectID(77), mutable: true, receiving: false }),
        MoveCallArg::Pure(vec![1, 2, 3]),
        MoveCallArg::Object(MoveObjectRef {
            id: ObjectID(u128::MAX),
            mutable: false,
            receiving: true,
        }),
    ];
    let bytes = encode_move_call_args(&args);
    assert_eq!(bytes, bcs::to_bytes(&wire_args(&args)).unwrap());
    assert_eq!(decode_move_call_args(&bytes), Some(args));
    assert_eq!(encode_move_call_args(&vec![]), vec![0]);
    assert_eq!(decode_move_call_args(&[0]), Some(vec![]));
}

#[test]
fn call_arguments_that_are_no_list_are_refused() {
    let args = vec![
        MoveCallArg::Pure(vec![9; 5]),
        MoveCallArg::Object(MoveObjectRef { id: ObjectID(77), mutable: true, receiving: false }),
    ];
    let good = encode_move_call_args(&args);
    for cut in 0..good.len() {
        assert_eq!(decode_move_call_args(&good[..cut]), None, "cut at {}", cut);
    }
    for at in 0..good.len() {
        for delta in [1u8, 2, 0x80, 0xff] {
            let mut bytes = good.clone();
            bytes[at] = bytes[at].wrapping_add(delta);
            let ours = decode_move_call_args(&bytes);
            let theirs = bcs::from_bytes::<Vec<WireArg>>(&bytes).ok();
            assert_eq!(ours.as_deref().map(wire_args), theirs, "at {} by {}", at, delta);
        }
    }
    // no variant 2, no truth value 2, nothing after the list
    assert_eq!(decode_move_call_args(&[1, 2, 0]), None);
    let mut bad_flag = vec![1u8, 1];
    bad_flag.extend([0; 16]);
    bad_flag.extend([2, 0]);
    assert_eq!(decode_move_call_args(&bad_flag), None);
    assert_eq!(decode_move_call_args(&[0, 0]), None);
    assert_eq!(decode_move_call_args(&[]), None);
}

#[test]
fn the_trigger_type_is_told_by_its_tag() {
    let tag = AutoTx::struct_tag();
    assert_eq!(tag.address, ObjectID(TALUS_FRAMEWORK_ADDRESS));
    assert_eq!(tag.module, AUTO_EXECUTION_MODULE_NAME.as_bytes());
    assert_eq!(tag.name, AUTO_EXECUTION_STRUCT_NAME.as_bytes());
    assert_eq!(auto_execution_module(), b"auto_tx");
    assert_eq!(auto_execution_struct(), b"AutoTx");
    assert_eq!(tag.type_params.len(), 11);
    assert_eq!(tag.type_params[0], MoveType::U64);
    assert_eq!(tag.type_params[3], MoveType::Vector(Box::new(MoveType::Address)));
    assert!(AutoTx::is_auto_tx(&tag));

    // all of the type arguments must be there, in their order, and no other
    let short = StructType { type_params: vec![MoveType::U64, MoveType::Address], ..tag.clone() };
    assert!(!AutoTx::is_auto_tx(&short));
    let none = StructType { type_params: vec![], ..tag.clone() };
    assert!(!AutoTx::is_auto_tx(&none));
    let wrong = StructType { type_params: vec![MoveType::U8], ..tag.clone() };
    assert!(!AutoTx::is_auto_tx(&wrong));
    let mut long = tag.clone();
    long.type_params.push(MoveType::U8);
    assert!(!AutoTx::is_auto_tx(&long));
    let mut swapped = tag.clone();
    swapped.type_params.swap(0, 1);
    assert!(!AutoTx::is_auto_tx(&swapped));
    let mut last = tag.clone();
    last.type_params[10] = MoveType::Vector(Box::new(MoveType::U64));
    assert!(!AutoTx::is_auto_tx(&last));
    assert!(AutoTx::is_auto_tx(&tag.clone()));
    let elsewhere = StructType { address: ObjectID(2), ..tag.clone() };
    assert!(!AutoTx::is_auto_tx(&elsewhere));
    let other_module = StructType { module: b"auto_ty".to_vec(), ..tag.clone() };
    assert!(!AutoTx::is_auto_tx(&other_module));
    let other_name = StructType { name: b"AutoTy".to_vec(), ..tag.clone() };
    assert!(!AutoTx::is_auto_tx(&other_name));
    assert!(!AutoTx::is_auto_tx(&gas_coin_type()));
}

#[test]
fn the_layout_lists_the_fields_in_their_order() {
    let layout = AutoTx::layout();
    assert_eq!(layout.type_, AutoTx::struct_tag());
    let names: Vec<&str> = layout.fields.iter().map(|field| field.name.as_str()).collect();
    assert_eq!(
        names,
        vec![
            "trigger_time",
            "caller",
            "callee",
            "module_name",
            "function_name",
            "type_inputs",
            "gas_id",
            "arguments"
        ]
    );
    let bytes = || MoveTypeLayout::Vector(Box::new(MoveTypeLayout::U8));
    let layouts: Vec<&MoveTypeLayout> = layout.fields.iter().map(|field| &field.layout).collect();
    assert_eq!(
        layouts,
        vec![
            &MoveTypeLayout::U64,
            &MoveTypeLayout::Address,
            &MoveTypeLayout::Address,
            &bytes(),
            &bytes(),
            &bytes(),
            &MoveTypeLayout::Address,
            &bytes()
        ]
    );
}

#[test]
fn only_trigger_objects_hold_a_trigger() {
    let auto_tx = sample(0xa11ce, 0x9a5);
    assert_eq!(auto_tx.trigger_time(), 1234567890);
    // a coin is no trigger
    let coin = Object::with_id_owner_for_testing(ObjectID(5), SuiAddress(6));
    assert_eq!(AutoTx::try_from_object(&coin), None);
    // a package is no trigger
    let package = Object::new_package(
        MovePackage { id: ObjectID(8), version: 1 },
        TransactionDigest::new([0; 32]),
    );
    assert_eq!(AutoTx::try_from_object(&package), None);
    // the bytes of a trigger under another type are no trigger
    let other = Object::new_move(
        MoveObject::new(gas_coin_type(), false, 1, auto_tx.to_bcs_bytes()).unwrap(),
        Owner::Immutable,
        TransactionDigest::new([0; 32]),
    );
    assert_eq!(AutoTx::try_from_object(&other), None);
    // an object of the trigger type is not made of other bytes
    assert!(matches!(
        MoveObject::new(AutoTx::struct_tag(), false, 1, vec![0; 40]),
        Err(SuiError::ObjectDeserializationError { .. })
    ));
    assert!(matches!(
        MoveObject::new(gas_coin_type(), false, 1, vec![0; 15]),
        Err(SuiError::ObjectDeserializationError { .. })
    ));
    assert!(MoveObject::new(gas_coin_type(), false, 1, vec![0; 16]).is_ok());
}

fn transaction(kind_is_autonomous: bool, sender: u128, gas_owner: u128) -> TransactionData {
    let pt = ProgrammableTransaction {
        package: ObjectID(1),
        module: b"m".to_vec(),
        function: b"f".to_vec(),
        type_arguments: vec![],
        arguments: vec![CallArg::Pure(vec![1])],
    };
    TransactionData {
        kind: if kind_is_autonomous {
            TransactionKind::AutonomousExecution(pt)
        } else {
            TransactionKind::ProgrammableTransaction(pt)
        },
        sender: SuiAddress(sender),
        gas_data: GasData { payment: vec![], owner: SuiAddress(gas_owner), price: 1, budget: 2 },
    }
}

#[test]
fn a_transaction_of_a_trigger_has_one_signer() {
    let made = AutoExecutableTransaction::new(ObjectID(9), 55, transaction(true, 4, 4)).unwrap();
    assert_eq!(made.object_id(), ObjectID(9));
    assert_eq!(made.trigger_time(), 55);
    assert_eq!(made.transaction(), &transaction(true, 4, 4));
    assert_eq!(made.transaction().signers(), vec![SuiAddress(4)]);
    assert_eq!(transaction(true, 4, 5).signers(), vec![SuiAddress(4), SuiAddress(5)]);
    // not an autonomous execution
    assert!(AutoExecutableTransaction::new(ObjectID(9), 55, transaction(false, 4, 4)).is_none());
    // two signers
    assert!(AutoExecutableTransaction::new(ObjectID(9), 55, transaction(true, 4, 5)).is_none());
    // parts that were stored are taken by the number of signers alone
    assert!(AutoExecutableTransaction::from_parts(ObjectID(9), 55, transaction(false, 4, 4)).is_ok());
    assert_eq!(
        AutoExecutableTransaction::from_parts(ObjectID(9), 55, transaction(true, 4, 5)),
        Err("AutoExecutableTransaction should have only one signer as caller".to_string())
    );
}

fn blake2b256(data: &[u8]) -> [u8; 32] {
    let mut hasher = Blake2b::<U32>::new();
    hasher.update(data);
    hasher.finalize().into()
}

#[test]
fn the_digest_is_the_hash_of_the_canonical_bytes() {
    let made = AutoExecutableTransaction::new(ObjectID(9), 55, transaction(true, 4, 4)).unwrap();
    let bytes = made.to_bytes();
    let mut expected = Vec::new();
    expected.extend(id_bytes(ObjectID(9)));
    expected.extend(55u64.to_le_bytes());
    expected.push(1); // autonomous execution
    expected.extend(id_bytes(ObjectID(1)));
    expected.extend([1, b'm', 1, b'f']);
    expected.push(0); // no type arguments
    expected.extend([1, 0, 1, 1]); // one argument: pure, one byte
    expected.extend(4u128.to_be_bytes());
    expected.push(0); // no gas coins
    expected.extend(4u128.to_be_bytes());
    expected.extend(1u64.to_le_bytes());
    expected.extend(2u64.to_le_bytes());
    assert_eq!(bytes, expected);

    let mut message = b"AutoExecutableTransaction::".to_vec();
    message.extend(&bytes);
    let digest = made.digest();
    assert_eq!(digest.0, blake2b256(&message));
    assert_ne!(digest.0.to_vec(), message);
    assert_eq!(made.key(), TransactionKey::Digest(digest));
    // the same again, and another for another transaction
    assert_eq!(made.duplicate().digest(), digest);
    let other = AutoExecutableTransaction::new(ObjectID(9), 56, transaction(true, 4, 4)).unwrap();
    assert_ne!(other.digest(), digest);
}

#[test]
fn names_must_be_identifiers() {
    let gas = Object::with_id_owner_for_testing(ObjectID(2), SuiAddress(1));
    let make = |module: &[u8], function: &[u8]| {
        let mut auto_tx = sample(1, 2);
        auto_tx.module_name = module.to_vec();
        auto_tx.function_name = function.to_vec();
        AutoExecutableTransaction::try_from_obj(&auto_tx, &gas, 10, 1, vec![], vec![])
    };
    for good in ["a", "Z9", "a_b", "_a", "__", "_0", "<SELF>", "module", "f00_Bar"] {
        assert!(make(good.as_bytes(), b"f").is_some(), "{}", good);
        assert!(make(b"m", good.as_bytes()).is_some(), "{}", good);
        assert!(move_core_types::identifier::Identifier::new(good).is_ok());
    }
    for bad in ["", "_", "9a", "a-b", "a b", "<SELF", "<SELF>x", "a\u{e9}", "\u{e9}a", "a.b"] {
        assert!(make(bad.as_bytes(), b"f").is_none(), "{}", bad);
        assert!(make(b"m", bad.as_bytes()).is_none(), "{}", bad);
        assert!(move_core_types::identifier::Identifier::new(bad).is_err());
    }
    // bytes that are no text
    assert!(make(&[b'a', 0xff], b"f").is_none());
    assert!(make(&[0xc3, 0x28], b"f").is_none());
}

#[test]
fn the_trigger_pays_with_gas_that_it_owns() {
    let auto_tx = sample(1, 2);
    let build = |gas: &Object| {
        AutoExecutableTransaction::try_from_obj(&auto_tx, gas, 5_000_000, 3, vec![], vec![])
    };
    let own = Object::with_id_owner_for_testing(ObjectID(2), SuiAddress(1));
    let made = build(&own).unwrap();
    assert_eq!(made.object_id(), ObjectID(1));
    assert_eq!(made.trigger_time(), 1234567890);
    let data = made.transaction();
    assert_eq!(data.sender(), SuiAddress(1));
    assert_eq!(data.gas_owner(), SuiAddress(1));
    assert_eq!(data.gas_budget(), 5_000_000);
    assert_eq!(data.gas_price(), 3);
    assert_eq!(data.gas_data.payment, vec![own.compute_object_reference()]);
    // the owner is another address
    let foreign = Object::with_id_owner_for_testing(ObjectID(2), SuiAddress(0xbad));
    assert!(build(&foreign).is_none());
    // an object owns it, but not the trigger
    let mut by_object = Object::with_id_owner_for_testing(ObjectID(2), SuiAddress(1));
    by_object.owner = Owner::ObjectOwner(SuiAddress(1));
    assert!(build(&by_object).is_some());
    by_object.owner = Owner::ObjectOwner(SuiAddress(3));
    assert!(build(&by_object).is_none());
    // nobody owns it
    let mut shared = Object::with_id_owner_for_testing(ObjectID(2), SuiAddress(1));
    shared.owner = Owner::Shared { initial_shared_version: 1 };
    assert!(build(&shared).is_none());
    shared.owner = Owner::Immutable;
    assert!(build(&shared).is_none());
}

/// A stream of bytes that is the same at every run.
struct Stream(u64);

impl Stream {
    fn next(&mut self) -> u64 {
        self.0 ^= self.0 << 13;
        self.0 ^= self.0 >> 7;
        self.0 ^= self.0 << 17;
        self.0
    }

    fn below(&mut self, n: usize) -> usize {
        (self.next() % n as u64) as usize
    }

    /// Some bytes, fewer than `most`.
    fn bytes(&mut self, most: usize) -> Vec<u8> {
        let n = self.below(most);
        (0..n).map(|_| self.next() as u8).collect()
    }
}

fn changed(stream: &mut Stream, good: &[u8]) -> Vec<u8> {
    let mut bytes = good.to_vec();
    for _ in 0..1 + stream.below(3) {
        match stream.below(4) {
            0 if !bytes.is_empty() => {
                let at = stream.below(bytes.len());
                bytes[at] = stream.next() as u8;
            }
            1 if !bytes.is_empty() => {
                let at = stream.below(bytes.len());
                bytes.remove(at);
            }
            2 => {
                let at = stream.below(bytes.len() + 1);
                bytes.insert(at, stream.next() as u8);
            }
            _ => {
                let keep = stream.below(bytes.len() + 1);
                bytes.truncate(keep);
            }
        }
    }
    bytes
}

#[test]
fn the_decoders_agree_with_the_canonical_one_on_many_inputs() {
    let mut stream = Stream(0x9e37_79b9_7f4a_7c15);
    let mut accepted = 0;
    for round in 0..4000 {
        // a trigger with strings of some length, and some changes to its bytes
        let mut auto_tx = sample(stream.next() as u128, stream.next() as u128);
        auto_tx.module_name = stream.bytes(200);
        auto_tx.function_name = stream.bytes(3);
        auto_tx.type_inputs = stream.bytes(130);
        auto_tx.arguments = stream.bytes(20);
        let good = auto_tx.to_bcs_bytes();
        assert_eq!(good, bcs::to_bytes(&fields_of(&auto_tx)).unwrap());
        let bytes = if round % 4 == 0 { good } else { changed(&mut stream, &good) };
        let ours = AutoTx::from_bcs_bytes(&bytes).ok();
        let theirs = bcs::from_bytes::<TriggerFields>(&bytes).ok();
        assert_eq!(ours.as_ref().map(fields_of), theirs, "round {}", round);
        if let Some(tx) = ours {
            assert_eq!(tx.to_bcs_bytes(), bytes);
            accepted += 1;
        }

        // a list of arguments, and some changes to its bytes
        let count = stream.below(5);
        let args: Vec<MoveCallArg> = (0..count)
            .map(|_| {
                if stream.below(2) == 0 {
                    MoveCallArg::Pure(stream.bytes(140))
                } else {
                    MoveCallArg::Object(MoveObjectRef {
                        id: ObjectID(stream.next() as u128),
                        mutable: stream.below(2) == 0,
                        receiving: stream.below(2) == 0,
                    })
                }
            })
            .collect();
        let good = encode_move_call_args(&args);
        assert_eq!(good, bcs::to_bytes(&wire_args(&args)).unwrap());
        let bytes = if round % 4 == 0 { good } else { changed(&mut stream, &good) };
        let ours = decode_move_call_args(&bytes);
        let theirs = bcs::from_bytes::<Vec<WireArg>>(&bytes).ok();
        assert_eq!(ours.as_deref().map(wire_args), theirs, "round {}", round);
        if let Some(args) = ours {
            assert_eq!(encode_move_call_args(&args), bytes);
        }
    }
    assert!(accepted >= 1000);
}
