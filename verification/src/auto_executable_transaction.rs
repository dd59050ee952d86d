//! Triggers as they are stored on chain, and the transactions made from them.
use crate::base_types::{ObjectID, ObjectRef, SuiAddress, TimestampMs, TransactionDigest, UID};
use crate::crypto::{blake2b256, default_hash};
use crate::language_storage::{
    copy_bytes, is_valid_identifier, lemma_struct_tag_view, same_struct_tag, type_tags_view,
    valid_identifier, MoveFieldLayout, MoveStructLayout, MoveType, MoveTypeLayout, MoveTypeView,
    StructType, StructTypeView,
};
use crate::object::{DataView, Object, ObjectView};
use crate::transaction::{
    call_args_view, object_refs_view, CallArg, CallArgView, GasDataView, ProgrammableTransaction,
    ProgrammableTransactionView, TransactionData, TransactionDataView, TransactionKey,
    TransactionKind, TransactionKindView,
};
use crate::wire::{
    bool_encoding, bytes_encoding, le_bytes, lemma_bool_encoding_of_taken,
    lemma_bytes_encoding_of_taken, lemma_id_encoding_of_taken, lemma_take_bool_of_encoding,
    lemma_take_bytes_of_encoding, lemma_take_id_of_encoding, lemma_take_u64_of_encoding,
    lemma_take_uleb128_of_encoding, lemma_u64_encoding_of_taken, lemma_uleb128_of_taken, read_bool,
    read_bytes, read_id, read_length, read_u64, take_bool, take_bytes, take_id, take_length,
    take_u64, uleb128, write_bool, write_bytes, write_u128_be, write_u64_le, write_uleb128,
    DecodeError, MAX_SEQUENCE_LENGTH,
};
use vstd::prelude::*;

verus! {

/// Smallest balance that a gas coin of a trigger is expected to hold.
pub const MINMUM_GAS: u64 = 1_000_000;

/// The module that declares the trigger type.
pub const AUTO_EXECUTION_MODULE_NAME: &'static str = "auto_tx";

/// The name of the trigger type.
pub const AUTO_EXECUTION_STRUCT_NAME: &'static str = "AutoTx";

/// Field of a trigger: the time at which it is due.
pub const TRIGGER_TIME: &'static str = "trigger_time";

/// Field of a trigger: who asked for the call.
pub const CALLER: &'static str = "caller";

/// Field of a trigger: the package that is called.
pub const CALLEE: &'static str = "callee";

/// Field of a trigger: the module that is called.
pub const MODULE_NAME: &'static str = "module_name";

/// Field of a trigger: the function that is called.
pub const FUNCTION_NAME: &'static str = "function_name";

/// Field of a trigger: the type arguments of the call, encoded.
pub const TYPE_INPUTS: &'static str = "type_inputs";

/// Field of a trigger: the coin that pays for the call.
pub const GAS_ID: &'static str = "gas_id";

/// Name of a field: the version of the gas coin.
pub const GAS_SEQUENCE: &'static str = "gas_sequence";

/// Name of a field: the digest of the gas coin.
pub const GAS_DIGEST: &'static str = "gas_digest";

/// Field of a trigger: the arguments of the call, encoded.
pub const ARGUMENTS: &'static str = "arguments";

/// Name of a field: the most that a call may spend on gas.
pub const GAS_BUDGET: &'static str = "gas_budget";

/// Name of a field: the price of a unit of gas.
pub const GAS_PRICE: &'static str = "gas_price";

/// A request, stored in an object on chain, to call a function once a time
/// has come.
#[derive(Debug, Clone, Eq, PartialEq)]
pub struct AutoTx {
    pub id: UID,
    pub trigger_time: TimestampMs,
    pub caller: ObjectID,
    pub callee: ObjectID,
    pub module_name: Vec<u8>,
    pub function_name: Vec<u8>,
    pub type_inputs: Vec<u8>,
    pub gas_id: ObjectID,
    pub arguments: Vec<u8>,
}

/// What an [`AutoTx`] stands for.
pub ghost struct AutoTxView {
    pub id: ObjectID,
    pub trigger_time: u64,
    pub caller: ObjectID,
    pub callee: ObjectID,
    pub module_name: Seq<u8>,
    pub function_name: Seq<u8>,
    pub type_inputs: Seq<u8>,
    pub gas_id: ObjectID,
    pub arguments: Seq<u8>,
}

impl View for AutoTx {
    type V = AutoTxView;

    open spec fn view(&self) -> AutoTxView {
        AutoTxView {
            id: self.id.id,
            trigger_time: self.trigger_time,
            caller: self.caller,
            callee: self.callee,
            module_name: self.module_name@,
            function_name: self.function_name@,
            type_inputs: self.type_inputs@,
            gas_id: self.gas_id,
            arguments: self.arguments@,
        }
    }
}

impl AutoTxView {
    /// The bytes of the trigger as an object holds them: the fields in their
    /// order, identifiers as their sixteen bytes, the time as eight bytes with
    /// the least significant first, byte strings with their length before them.
    pub open spec fn encoding(self) -> Seq<u8> {
        self.id.bytes() + (le_bytes(self.trigger_time as nat, 8) + (self.caller.bytes() + (
        self.callee.bytes() + self.call_encoding())))
    }

    /// The bytes of the fields that describe the call.
    pub open spec fn call_encoding(self) -> Seq<u8> {
        bytes_encoding(self.module_name) + (bytes_encoding(self.function_name) + (bytes_encoding(
            self.type_inputs,
        ) + (self.gas_id.bytes() + bytes_encoding(self.arguments))))
    }

    /// Whether every byte string of the trigger is short enough to be encoded.
    pub open spec fn encodable(self) -> bool {
        &&& self.module_name.len() <= MAX_SEQUENCE_LENGTH
        &&& self.function_name.len() <= MAX_SEQUENCE_LENGTH
        &&& self.type_inputs.len() <= MAX_SEQUENCE_LENGTH
        &&& self.arguments.len() <= MAX_SEQUENCE_LENGTH
    }
}

/// Reads a trigger off the front of `s`, field by field, and gives it with
/// the number of bytes it took.
pub open spec fn take_auto_tx(s: Seq<u8>) -> Option<(AutoTxView, nat)> {
    match take_id(s) {
        None => None,
        Some((id, n0)) => match take_u64(s.skip(n0 as int)) {
            None => None,
            Some((trigger_time, n1)) => match take_id(s.skip((n0 + n1) as int)) {
                None => None,
                Some((caller, n2)) => match take_id(s.skip((n0 + n1 + n2) as int)) {
                    None => None,
                    Some((callee, n3)) => take_auto_tx_call(
                        s,
                        n0 + n1 + n2 + n3,
                        ObjectID(id),
                        trigger_time,
                        ObjectID(caller),
                        ObjectID(callee),
                    ),
                },
            },
        },
    }
}

/// Reads the fields of a trigger that describe the call, from position `at`
/// of `s` on.
pub open spec fn take_auto_tx_call(
    s: Seq<u8>,
    at: nat,
    id: ObjectID,
    trigger_time: u64,
    caller: ObjectID,
    callee: ObjectID,
) -> Option<(AutoTxView, nat)> {
    match take_bytes(s.skip(at as int)) {
        None => None,
        Some((module_name, n4)) => match take_bytes(s.skip((at + n4) as int)) {
            None => None,
            Some((function_name, n5)) => match take_bytes(s.skip((at + n4 + n5) as int)) {
                None => None,
                Some((type_inputs, n6)) => match take_id(s.skip((at + n4 + n5 + n6) as int)) {
                    None => None,
                    Some((gas_id, n7)) => match take_bytes(
                        s.skip((at + n4 + n5 + n6 + n7) as int),
                    ) {
                        None => None,
                        Some((arguments, n8)) => Some(
                            (
                                AutoTxView {
                                    id,
                                    trigger_time,
                                    caller,
                                    callee,
                                    module_name,
                                    function_name,
                                    type_inputs,
                                    gas_id: ObjectID(gas_id),
                                    arguments,
                                },
                                at + n4 + n5 + n6 + n7 + n8,
                            ),
                        ),
                    },
                },
            },
        },
    }
}

/// The trigger that the bytes `s` hold: they are read as a trigger, and no
/// byte is left. `None` for bytes that are not the encoding of a trigger.
pub open spec fn decoded_auto_tx(s: Seq<u8>) -> Option<AutoTxView> {
    match take_auto_tx(s) {
        Some((v, taken)) => if taken == s.len() {
            Some(v)
        } else {
            None
        },
        None => None,
    }
}

// ---------------------------------------------------------------------------
// The type of trigger objects
// ---------------------------------------------------------------------------
/// Address of the framework package that declares the trigger type, as a
/// number.
pub const TALUS_FRAMEWORK_ADDRESS: u128 = 0x7a105;

/// The module that declares the trigger type: `auto_tx`.
pub open spec fn auto_execution_module_name() -> Seq<u8> {
    seq![0x61u8, 0x75u8, 0x74u8, 0x6fu8, 0x5fu8, 0x74u8, 0x78u8]
}

/// The name of the trigger type: `AutoTx`.
pub open spec fn auto_execution_struct_name() -> Seq<u8> {
    seq![0x41u8, 0x75u8, 0x74u8, 0x6fu8, 0x54u8, 0x78u8]
}

/// The type arguments of the trigger type, in their order.
pub open spec fn auto_execution_type_params() -> Seq<MoveTypeView> {
    seq![
        // Trigger time
        MoveTypeView::U64,
        // Owner, object ID
        MoveTypeView::Address,
        // Pure inputs
        MoveTypeView::Vector(Box::new(MoveTypeView::U8)),
        // Object inputs, IDs
        MoveTypeView::Vector(Box::new(MoveTypeView::Address)),
        // Object inputs, sequence numbers
        MoveTypeView::Vector(Box::new(MoveTypeView::U64)),
        // Move call, object ID
        MoveTypeView::Address,
        // Move call, module name
        MoveTypeView::Vector(Box::new(MoveTypeView::U8)),
        // Move call, function name
        MoveTypeView::Vector(Box::new(MoveTypeView::U8)),
        // Move call, type inputs
        MoveTypeView::Vector(Box::new(MoveTypeView::U8)),
        // Gas ID
        MoveTypeView::Address,
        // Move call, arguments
        MoveTypeView::Vector(Box::new(MoveTypeView::U8)),
    ]
}

/// The fields that a trigger object holds after its own identifier, each
/// with its layout, in their order.
pub open spec fn auto_tx_fields() -> Seq<(Seq<char>, MoveTypeLayout)> {
    seq![
        (TRIGGER_TIME@, MoveTypeLayout::U64),
        (CALLER@, MoveTypeLayout::Address),
        (CALLEE@, MoveTypeLayout::Address),
        (MODULE_NAME@, MoveTypeLayout::Vector(Box::new(MoveTypeLayout::U8))),
        (FUNCTION_NAME@, MoveTypeLayout::Vector(Box::new(MoveTypeLayout::U8))),
        (TYPE_INPUTS@, MoveTypeLayout::Vector(Box::new(MoveTypeLayout::U8))),
        (GAS_ID@, MoveTypeLayout::Address),
        (ARGUMENTS@, MoveTypeLayout::Vector(Box::new(MoveTypeLayout::U8))),
    ]
}

/// The struct tag of trigger objects.
pub open spec fn auto_tx_struct_tag() -> StructTypeView {
    StructTypeView {
        address: ObjectID(TALUS_FRAMEWORK_ADDRESS),
        module: auto_execution_module_name(),
        name: auto_execution_struct_name(),
        type_params: auto_execution_type_params(),
    }
}

/// Whether a struct tag marks a trigger object: it is the struct tag of the
/// trigger type, with all of its type arguments, in their order.
pub open spec fn is_auto_tx_tag(s: StructTypeView) -> bool {
    s == auto_tx_struct_tag()
}

/// The module that declares the trigger type.
pub fn auto_execution_module() -> (r: Vec<u8>)
    ensures
        r@ == auto_execution_module_name(),
{
    let r = vec![0x61u8, 0x75u8, 0x74u8, 0x6fu8, 0x5fu8, 0x74u8, 0x78u8];
    assert(r@ =~= auto_execution_module_name());
    r
}

/// The name of the trigger type.
pub fn auto_execution_struct() -> (r: Vec<u8>)
    ensures
        r@ == auto_execution_struct_name(),
{
    let r = vec![0x41u8, 0x75u8, 0x74u8, 0x6fu8, 0x54u8, 0x78u8];
    assert(r@ =~= auto_execution_struct_name());
    r
}

/// The type arguments of the trigger type.
pub fn auto_execution_type_param_list() -> (r: Vec<MoveType>)
    ensures
        type_tags_view(r@) == auto_execution_type_params(),
{
    let mut r: Vec<MoveType> = Vec::new();
    r.push(MoveType::U64);
    r.push(MoveType::Address);
    r.push(MoveType::Vector(Box::new(MoveType::U8)));
    r.push(MoveType::Vector(Box::new(MoveType::Address)));
    r.push(MoveType::Vector(Box::new(MoveType::U64)));
    r.push(MoveType::Address);
    r.push(MoveType::Vector(Box::new(MoveType::U8)));
    r.push(MoveType::Vector(Box::new(MoveType::U8)));
    r.push(MoveType::Vector(Box::new(MoveType::U8)));
    r.push(MoveType::Address);
    r.push(MoveType::Vector(Box::new(MoveType::U8)));
    proof {
        reveal_with_fuel(crate::language_storage::type_tag_view, 3);
        assert(type_tags_view(r@) =~= auto_execution_type_params());
    }
    r
}

impl AutoTx {
    /// The struct tag of trigger objects.
    pub fn struct_tag() -> (r: StructType)
        ensures
            r@ == auto_tx_struct_tag(),
    {
        let r = StructType {
            address: ObjectID(TALUS_FRAMEWORK_ADDRESS),
            module: auto_execution_module(),
            name: auto_execution_struct(),
            type_params: auto_execution_type_param_list(),
        };
        proof {
            lemma_struct_tag_view(r);
        }
        r
    }

    /// The layout of the fields that a trigger object holds after its own
    /// identifier.
    pub fn layout() -> (r: MoveStructLayout)
        ensures
            r.type_@ == auto_tx_struct_tag(),
            r.fields@.len() == 8,
            forall|i: int|
                0 <= i < 8 ==> (#[trigger] r.fields@[i]).name@ == auto_tx_fields()[i].0
                    && r.fields@[i].layout == auto_tx_fields()[i].1,
    {
        let mut fields: Vec<MoveFieldLayout> = Vec::new();
        fields.push(MoveFieldLayout::new(TRIGGER_TIME.to_owned(), MoveTypeLayout::U64));
        fields.push(MoveFieldLayout::new(CALLER.to_owned(), MoveTypeLayout::Address));
        fields.push(MoveFieldLayout::new(CALLEE.to_owned(), MoveTypeLayout::Address));
        fields.push(
            MoveFieldLayout::new(
                MODULE_NAME.to_owned(),
                MoveTypeLayout::Vector(Box::new(MoveTypeLayout::U8)),
            ),
        );
        fields.push(
            MoveFieldLayout::new(
                FUNCTION_NAME.to_owned(),
                MoveTypeLayout::Vector(Box::new(MoveTypeLayout::U8)),
            ),
        );
        fields.push(
            MoveFieldLayout::new(
                TYPE_INPUTS.to_owned(),
                MoveTypeLayout::Vector(Box::new(MoveTypeLayout::U8)),
            ),
        );
        fields.push(MoveFieldLayout::new(GAS_ID.to_owned(), MoveTypeLayout::Address));
        fields.push(
            MoveFieldLayout::new(
                ARGUMENTS.to_owned(),
                MoveTypeLayout::Vector(Box::new(MoveTypeLayout::U8)),
            ),
        );
        MoveStructLayout { type_: Self::struct_tag(), fields }
    }

    /// Whether `s` marks a trigger object.
    pub fn is_auto_tx(s: &StructType) -> (r: bool)
        ensures
            r == is_auto_tx_tag(s@),
    {
        same_struct_tag(s, &Self::struct_tag())
    }
}

impl AutoTx {
    /// Decodes a trigger from the contents of its object.
    pub fn from_bcs_bytes(content: &[u8]) -> (r: Result<Self, DecodeError>)
        ensures
            match r {
                Ok(tx) => decoded_auto_tx(content@) == Some(tx@),
                Err(_) => decoded_auto_tx(content@) is None,
            },
    {
        proof {
            assert(content@.skip(0) =~= content@);
        }
        let (id, pos0) = match read_id(content, 0) {
            Some(x) => x,
            None => { return Err(DecodeError {  }) },
        };
        let (trigger_time, pos1) = match read_u64(content, pos0) {
            Some(x) => x,
            None => { return Err(DecodeError {  }) },
        };
        let (caller, pos2) = match read_id(content, pos1) {
            Some(x) => x,
            None => { return Err(DecodeError {  }) },
        };
        let (callee, pos3) = match read_id(content, pos2) {
            Some(x) => x,
            None => { return Err(DecodeError {  }) },
        };
        let (module_name, pos4) = match read_bytes(content, pos3) {
            Some(x) => x,
            None => { return Err(DecodeError {  }) },
        };
        let (function_name, pos5) = match read_bytes(content, pos4) {
            Some(x) => x,
            None => { return Err(DecodeError {  }) },
        };
        let (type_inputs, pos6) = match read_bytes(content, pos5) {
            Some(x) => x,
            None => { return Err(DecodeError {  }) },
        };
        let (gas_id, pos7) = match read_id(content, pos6) {
            Some(x) => x,
            None => { return Err(DecodeError {  }) },
        };
        let (arguments, pos8) = match read_bytes(content, pos7) {
            Some(x) => x,
            None => { return Err(DecodeError {  }) },
        };
        if pos8 != content.len() {
            return Err(DecodeError {  });
        }
        Ok(
            AutoTx {
                id: UID::new(ObjectID(id)),
                trigger_time,
                caller: ObjectID(caller),
                callee: ObjectID(callee),
                module_name,
                function_name,
                type_inputs,
                gas_id: ObjectID(gas_id),
                arguments,
            },
        )
    }

    /// Encodes the trigger as an object holds it.
    pub fn to_bcs_bytes(&self) -> (r: Vec<u8>)
        ensures
            r@ == self@.encoding(),
    {
        let mut out: Vec<u8> = Vec::new();
        write_u128_be(&mut out, self.id.id.0);
        write_u64_le(&mut out, self.trigger_time);
        write_u128_be(&mut out, self.caller.0);
        write_u128_be(&mut out, self.callee.0);
        write_bytes(&mut out, &self.module_name);
        write_bytes(&mut out, &self.function_name);
        write_bytes(&mut out, &self.type_inputs);
        write_u128_be(&mut out, self.gas_id.0);
        write_bytes(&mut out, &self.arguments);
        proof {
            assert(out@ =~= self@.encoding());
        }
        out
    }

    /// The time at which the trigger asks to be executed.
    pub fn trigger_time(&self) -> (r: TimestampMs)
        ensures
            r == self@.trigger_time,
    {
        self.trigger_time
    }
}

/// A trigger whose byte strings are short enough is decoded from its own
/// encoding.
pub proof fn lemma_decode_of_encoding(v: AutoTxView)
    requires
        v.encodable(),
    ensures
        decoded_auto_tx(v.encoding()) == Some(v),
{
    let s = v.encoding();
    let call = v.call_encoding();
    let r2 = v.callee.bytes() + call;
    let r1 = v.caller.bytes() + r2;
    let r0 = le_bytes(v.trigger_time as nat, 8) + r1;
    lemma_take_id_of_encoding(v.id.0, r0);
    lemma_take_u64_of_encoding(v.trigger_time, r1);
    lemma_take_id_of_encoding(v.caller.0, r2);
    lemma_take_id_of_encoding(v.callee.0, call);
    assert(s.skip(0) == s) by {
        assert(s.skip(0) =~= s);
    }
    lemma_step(s, 0, v.id.bytes(), r0);
    lemma_step(s, 16, le_bytes(v.trigger_time as nat, 8), r1);
    lemma_step(s, 24, v.caller.bytes(), r2);
    lemma_step(s, 40, v.callee.bytes(), call);
    lemma_take_call_of_encoding(s, 56, v);
    assert(s.len() == 56 + call.len());
}

proof fn lemma_take_call_of_encoding(s: Seq<u8>, at: nat, v: AutoTxView)
    requires
        v.encodable(),
        at <= s.len(),
        s.skip(at as int) == v.call_encoding(),
    ensures
        take_auto_tx_call(s, at, v.id, v.trigger_time, v.caller, v.callee) == Some(
            (v, at + v.call_encoding().len()),
        ),
{
    let e4 = bytes_encoding(v.module_name);
    let e5 = bytes_encoding(v.function_name);
    let e6 = bytes_encoding(v.type_inputs);
    let e7 = v.gas_id.bytes();
    let e8 = bytes_encoding(v.arguments);
    let r8 = Seq::<u8>::empty();
    let r7 = e8;
    let r6 = e7 + r7;
    let r5 = e6 + r6;
    let r4 = e5 + r5;
    lemma_take_bytes_of_encoding(v.module_name, r4);
    lemma_step(s, at, e4, r4);
    let pos4 = at + e4.len();
    lemma_take_bytes_of_encoding(v.function_name, r5);
    lemma_step(s, pos4, e5, r5);
    let pos5 = pos4 + e5.len();
    lemma_take_bytes_of_encoding(v.type_inputs, r6);
    lemma_step(s, pos5, e6, r6);
    let pos6 = pos5 + e6.len();
    lemma_take_id_of_encoding(v.gas_id.0, r7);
    lemma_step(s, pos6, e7, r7);
    let pos7 = pos6 + e7.len();
    lemma_take_bytes_of_encoding(v.arguments, r8);
    assert(e8 + r8 == e8) by {
        assert(e8 + r8 =~= e8);
    }
}

proof fn lemma_step(s: Seq<u8>, at: nat, e: Seq<u8>, rest: Seq<u8>)
    requires
        at <= s.len(),
        s.skip(at as int) == e + rest,
    ensures
        at + e.len() <= s.len(),
        s.skip((at + e.len()) as int) == rest,
{
    assert((e + rest).len() == e.len() + rest.len());
    assert(s.skip(at as int).skip(e.len() as int) =~= s.skip((at + e.len()) as int));
    assert((e + rest).skip(e.len() as int) =~= rest);
}

/// What was taken off the front of the bytes from `at` on, and what follows
/// it, are together the bytes from `at` on.
proof fn lemma_rejoin(s: Seq<u8>, at: nat, taken: nat)
    requires
        at + taken <= s.len(),
    ensures
        s.skip(at as int) == s.skip(at as int).take(taken as int) + s.skip((at + taken) as int),
{
    assert(s.skip(at as int) =~= s.skip(at as int).take(taken as int) + s.skip(
        (at + taken) as int,
    ));
}

/// Bytes that decode as a trigger are that trigger's encoding, and the
/// trigger's byte strings are short enough to be encoded.
pub proof fn lemma_encoding_of_decoded(s: Seq<u8>)
    ensures
        match decoded_auto_tx(s) {
            Some(v) => v.encoding() == s && v.encodable(),
            None => true,
        },
{
    match decoded_auto_tx(s) {
        Some(v) => {
            lemma_id_encoding_of_taken(s);
            lemma_u64_encoding_of_taken(s.skip(16));
            lemma_id_encoding_of_taken(s.skip(24));
            lemma_id_encoding_of_taken(s.skip(40));
            lemma_call_encoding_of_taken(s, 56, v.id, v.trigger_time, v.caller, v.callee);
            assert(s.skip(0) == s) by {
                assert(s.skip(0) =~= s);
            }
            lemma_rejoin(s, 0, 16);
            lemma_rejoin(s, 16, 8);
            lemma_rejoin(s, 24, 16);
            lemma_rejoin(s, 40, 16);
        },
        None => {},
    }
}

proof fn lemma_call_encoding_of_taken(
    s: Seq<u8>,
    at: nat,
    id: ObjectID,
    trigger_time: u64,
    caller: ObjectID,
    callee: ObjectID,
)
    requires
        at <= s.len(),
    ensures
        match take_auto_tx_call(s, at, id, trigger_time, caller, callee) {
            Some((v, end)) => end <= s.len() && v.encodable() && (end == s.len()
                ==> v.call_encoding() == s.skip(at as int)),
            None => true,
        },
{
    match take_auto_tx_call(s, at, id, trigger_time, caller, callee) {
        Some((v, end)) => {
            let t4 = s.skip(at as int);
            lemma_bytes_encoding_of_taken(t4);
            let n4 = take_bytes(t4).unwrap().1;
            let pos4 = at + n4;
            let t5 = s.skip(pos4 as int);
            lemma_bytes_encoding_of_taken(t5);
            let n5 = take_bytes(t5).unwrap().1;
            let pos5 = pos4 + n5;
            let t6 = s.skip(pos5 as int);
            lemma_bytes_encoding_of_taken(t6);
            let n6 = take_bytes(t6).unwrap().1;
            let pos6 = pos5 + n6;
            let t7 = s.skip(pos6 as int);
            lemma_id_encoding_of_taken(t7);
            let pos7 = pos6 + 16;
            let t8 = s.skip(pos7 as int);
            lemma_bytes_encoding_of_taken(t8);
            let n8 = take_bytes(t8).unwrap().1;
            if end == s.len() {
                lemma_rejoin(s, at, n4);
                lemma_rejoin(s, pos4, n5);
                lemma_rejoin(s, pos5, n6);
                lemma_rejoin(s, pos6, 16);
                assert(t8 == t8.take(n8 as int)) by {
                    assert(t8 =~= t8.take(n8 as int));
                }
            }
        },
        None => {},
    }
}

// ---------------------------------------------------------------------------
// Call arguments of a trigger
// ---------------------------------------------------------------------------
/// An object that a trigger hands to the function it calls.
#[derive(Debug, Clone, Copy, PartialEq, Eq, Structural)]
pub struct MoveObjectRef {
    pub id: ObjectID,
    pub mutable: bool,
    pub receiving: bool,
}

/// An argument of the call that a trigger asks for.
#[derive(Debug, Clone, PartialEq, Eq)]
pub enum MoveCallArg {
    /// Bytes that hold no struct and no object.
    Pure(Vec<u8>),
    /// An object.
    Object(MoveObjectRef),
}

/// What a [`MoveCallArg`] stands for.
pub ghost enum MoveCallArgView {
    Pure(Seq<u8>),
    Object(MoveObjectRef),
}

impl View for MoveCallArg {
    type V = MoveCallArgView;

    open spec fn view(&self) -> MoveCallArgView {
        match self {
            MoveCallArg::Pure(bytes) => MoveCallArgView::Pure(bytes@),
            MoveCallArg::Object(object) => MoveCallArgView::Object(*object),
        }
    }
}

/// What a list of call arguments stands for.
pub open spec fn move_call_args_view(args: Seq<MoveCallArg>) -> Seq<MoveCallArgView> {
    Seq::new(args.len(), |i: int| args[i]@)
}

impl MoveCallArgView {
    /// The bytes of the argument: the number of its variant, then a byte
    /// string, or an identifier and two truth values.
    pub open spec fn encoding(self) -> Seq<u8> {
        match self {
            MoveCallArgView::Pure(bytes) => seq![0u8] + bytes_encoding(bytes),
            MoveCallArgView::Object(object) => seq![1u8] + (object.id.bytes() + (bool_encoding(
                object.mutable,
            ) + bool_encoding(object.receiving))),
        }
    }

    /// Whether the argument can be encoded: a byte string must not be too
    /// long.
    pub open spec fn encodable(self) -> bool {
        match self {
            MoveCallArgView::Pure(bytes) => bytes.len() <= MAX_SEQUENCE_LENGTH,
            MoveCallArgView::Object(_) => true,
        }
    }
}

/// Reads one call argument off the front of `s`.
pub open spec fn take_move_call_arg(s: Seq<u8>) -> Option<(MoveCallArgView, nat)> {
    if s.len() == 0 {
        None
    } else if s[0] == 0 {
        match take_bytes(s.skip(1)) {
            Some((bytes, n)) => Some((MoveCallArgView::Pure(bytes), 1 + n)),
            None => None,
        }
    } else if s[0] == 1 {
        match take_id(s.skip(1)) {
            None => None,
            Some((id, n0)) => match take_bool(s.skip(17)) {
                None => None,
                Some((mutable, n1)) => match take_bool(s.skip(18)) {
                    None => None,
                    Some((receiving, n2)) => Some(
                        (
                            MoveCallArgView::Object(
                                MoveObjectRef { id: ObjectID(id), mutable, receiving },
                            ),
                            19nat,
                        ),
                    ),
                },
            },
        }
    } else {
        None
    }
}

/// The bytes of the arguments, one after the other.
pub open spec fn move_call_args_joined(args: Seq<MoveCallArgView>) -> Seq<u8>
    decreases args.len(),
{
    if args.len() == 0 {
        Seq::empty()
    } else {
        args[0].encoding() + move_call_args_joined(args.skip(1))
    }
}

/// The bytes of a list of arguments: its length, then the arguments.
pub open spec fn move_call_args_encoding(args: Seq<MoveCallArgView>) -> Seq<u8> {
    uleb128(args.len()) + move_call_args_joined(args)
}

/// Reads `n` call arguments off the front of `s`.
pub open spec fn take_move_call_args(s: Seq<u8>, n: nat) -> Option<(Seq<MoveCallArgView>, nat)>
    decreases n,
{
    if n == 0 {
        Some((Seq::empty(), 0nat))
    } else {
        match take_move_call_arg(s) {
            None => None,
            Some((first, k)) => match take_move_call_args(s.skip(k as int), (n - 1) as nat) {
                None => None,
                Some((rest, m)) => Some((seq![first] + rest, k + m)),
            },
        }
    }
}

/// The list of arguments that the bytes `s` hold: a length, that many
/// arguments, and no byte more. `None` for bytes that are no such list.
pub open spec fn decoded_move_call_args(s: Seq<u8>) -> Option<Seq<MoveCallArgView>> {
    match take_length(s) {
        None => None,
        Some((n, k)) => match take_move_call_args(s.skip(k as int), n) {
            None => None,
            Some((args, m)) => if k + m == s.len() {
                Some(args)
            } else {
                None
            },
        },
    }
}

/// Reads one call argument at `pos`, and gives it with the position after it.
fn read_move_call_arg(bytes: &[u8], pos: usize) -> (r: Option<(MoveCallArg, usize)>)
    requires
        pos <= bytes@.len(),
    ensures
        match r {
            Some((arg, next)) => pos < next <= bytes@.len() && take_move_call_arg(
                bytes@.skip(pos as int),
            ) == Some((arg@, (next - pos) as nat)),
            None => take_move_call_arg(bytes@.skip(pos as int)) is None,
        },
{
    let ghost s = bytes@.skip(pos as int);
    if pos >= bytes.len() {
        return None;
    }
    let variant: u8 = bytes[pos];
    proof {
        assert(s[0] == variant);
        assert(s.skip(1) =~= bytes@.skip(pos + 1));
    }
    if variant == 0 {
        match read_bytes(bytes, pos + 1) {
            Some((b, next)) => Some((MoveCallArg::Pure(b), next)),
            None => None,
        }
    } else if variant == 1 {
        let (id, pos0) = match read_id(bytes, pos + 1) {
            Some(x) => x,
            None => { return None },
        };
        proof {
            assert(s.skip(17) =~= bytes@.skip(pos + 17));
        }
        let (mutable, pos1) = match read_bool(bytes, pos0) {
            Some(x) => x,
            None => { return None },
        };
        proof {
            assert(s.skip(18) =~= bytes@.skip(pos + 18));
        }
        let (receiving, pos2) = match read_bool(bytes, pos1) {
            Some(x) => x,
            None => { return None },
        };
        Some((MoveCallArg::Object(MoveObjectRef { id: ObjectID(id), mutable, receiving }), pos2))
    } else {
        None
    }
}

/// What reading `n` arguments from the start gives, once `done` have been
/// read and `inner` is what reading the others gives.
spec fn args_continued(
    done: Seq<MoveCallArgView>,
    used: nat,
    inner: Option<(Seq<MoveCallArgView>, nat)>,
) -> Option<(Seq<MoveCallArgView>, nat)> {
    match inner {
        Some((rest, m)) => Some((done + rest, used + m)),
        None => None,
    }
}

proof fn lemma_args_continued_step(
    start: Seq<u8>,
    done: Seq<MoveCallArgView>,
    used: nat,
    left: nat,
)
    requires
        left > 0,
        used <= start.len(),
    ensures
        args_continued(done, used, take_move_call_args(start.skip(used as int), left))
            == match take_move_call_arg(start.skip(used as int)) {
            None => None,
            Some((first, k)) => args_continued(
                done.push(first),
                used + k,
                take_move_call_args(start.skip((used + k) as int), (left - 1) as nat),
            ),
        },
{
    let s = start.skip(used as int);
    match take_move_call_arg(s) {
        None => {},
        Some((first, k)) => {
            lemma_move_call_arg_taken(s);
            assert(s.skip(k as int) =~= start.skip((used + k) as int));
            match take_move_call_args(s.skip(k as int), (left - 1) as nat) {
                None => {},
                Some((rest, m)) => {
                    assert(done + (seq![first] + rest) =~= done.push(first) + rest);
                },
            }
        },
    }
}

/// What is read as an argument lies within the bytes.
proof fn lemma_move_call_arg_taken(s: Seq<u8>)
    ensures
        match take_move_call_arg(s) {
            Some((arg, k)) => 0 < k <= s.len() && arg.encodable() && s.take(k as int)
                == arg.encoding(),
            None => true,
        },
{
    match take_move_call_arg(s) {
        Some((arg, k)) => {
            if s[0] == 0 {
                lemma_bytes_encoding_of_taken(s.skip(1));
                assert(s.take(k as int) =~= seq![0u8] + s.skip(1).take((k - 1) as int));
            } else {
                lemma_id_encoding_of_taken(s.skip(1));
                lemma_bool_encoding_of_taken(s.skip(17));
                lemma_bool_encoding_of_taken(s.skip(18));
                assert(s.take(19) =~= seq![1u8] + (s.skip(1).take(16) + (s.skip(17).take(1)
                    + s.skip(18).take(1))));
            }
        },
        None => {},
    }
}

/// Appends the bytes of one call argument.
fn write_move_call_arg(out: &mut Vec<u8>, arg: &MoveCallArg)
    ensures
        final(out)@ == old(out)@ + arg@.encoding(),
{
    match arg {
        MoveCallArg::Pure(bytes) => {
            out.push(0u8);
            write_bytes(out, bytes);
        },
        MoveCallArg::Object(object) => {
            out.push(1u8);
            write_u128_be(out, object.id.0);
            write_bool(out, object.mutable);
            write_bool(out, object.receiving);
        },
    }
    proof {
        assert(out@ =~= old(out)@ + arg@.encoding());
    }
}

/// The bytes of the arguments and then of one more are the bytes of the
/// longer list.
pub proof fn lemma_move_call_args_joined_push(args: Seq<MoveCallArgView>, last: MoveCallArgView)
    ensures
        move_call_args_joined(args.push(last)) == move_call_args_joined(args) + last.encoding(),
    decreases args.len(),
{
    if args.len() == 0 {
        assert(args.push(last).skip(1) =~= args);
        assert(move_call_args_joined(args.push(last)) =~= move_call_args_joined(args)
            + last.encoding());
    } else {
        assert(args.push(last).skip(1) =~= args.skip(1).push(last));
        lemma_move_call_args_joined_push(args.skip(1), last);
        assert(args.push(last)[0] == args[0]);
        assert(move_call_args_joined(args.push(last)) =~= move_call_args_joined(args)
            + last.encoding());
    }
}

/// Encodes a list of call arguments as a trigger holds it.
pub fn encode_move_call_args(args: &Vec<MoveCallArg>) -> (r: Vec<u8>)
    ensures
        r@ == move_call_args_encoding(move_call_args_view(args@)),
{
    let ghost views = move_call_args_view(args@);
    let mut out: Vec<u8> = Vec::new();
    write_uleb128(&mut out, args.len());
    let ghost head = out@;
    let mut i: usize = 0;
    proof {
        assert(views.take(0) =~= Seq::<MoveCallArgView>::empty());
        assert(head + move_call_args_joined(views.take(0)) =~= head);
    }
    while i < args.len()
        invariant
            i <= args.len(),
            views == move_call_args_view(args@),
            out@ == head + move_call_args_joined(views.take(i as int)),
        decreases args.len() - i,
    {
        write_move_call_arg(&mut out, &args[i]);
        proof {
            lemma_move_call_args_joined_push(views.take(i as int), views[i as int]);
            assert(views.take(i + 1) =~= views.take(i as int).push(views[i as int]));
            assert(out@ =~= head + move_call_args_joined(views.take(i + 1)));
        }
        i += 1;
    }
    proof {
        assert(views.take(views.len() as int) =~= views);
        assert(out@ =~= move_call_args_encoding(views));
    }
    out
}

/// A list of arguments is read back from its bytes, whatever follows them,
/// if each of its byte strings is short enough to be encoded.
pub proof fn lemma_take_move_call_args_of_encoding(args: Seq<MoveCallArgView>, rest: Seq<u8>)
    requires
        forall|i: int| 0 <= i < args.len() ==> (#[trigger] args[i]).encodable(),
    ensures
        take_move_call_args(move_call_args_joined(args) + rest, args.len()) == Some(
            (args, move_call_args_joined(args).len()),
        ),
    decreases args.len(),
{
    let s = move_call_args_joined(args) + rest;
    if args.len() == 0 {
    } else {
        let first = args[0];
        let tail = move_call_args_joined(args.skip(1)) + rest;
        assert(s =~= first.encoding() + tail);
        lemma_take_move_call_arg_of_encoding(first, tail);
        assert(s.skip(first.encoding().len() as int) =~= tail);
        assert forall|i: int| 0 <= i < args.skip(1).len() implies (#[trigger] args.skip(
            1,
        )[i]).encodable() by {
            assert(args.skip(1)[i] == args[i + 1]);
        }
        lemma_take_move_call_args_of_encoding(args.skip(1), rest);
        assert(seq![first] + args.skip(1) =~= args);
    }
}

/// One argument is read back from its bytes, whatever follows them.
proof fn lemma_take_move_call_arg_of_encoding(arg: MoveCallArgView, rest: Seq<u8>)
    requires
        arg.encodable(),
    ensures
        take_move_call_arg(arg.encoding() + rest) == Some((arg, arg.encoding().len())),
{
    let s = arg.encoding() + rest;
    match arg {
        MoveCallArgView::Pure(bytes) => {
            assert(s[0] == 0);
            assert(s.skip(1) =~= bytes_encoding(bytes) + rest);
            lemma_take_bytes_of_encoding(bytes, rest);
        },
        MoveCallArgView::Object(object) => {
            let tail0 = bool_encoding(object.mutable) + (bool_encoding(object.receiving) + rest);
            assert(s[0] == 1);
            assert(s.skip(1) =~= object.id.bytes() + tail0);
            lemma_take_id_of_encoding(object.id.0, tail0);
            assert(s.skip(17) =~= tail0);
            lemma_take_bool_of_encoding(object.mutable, bool_encoding(object.receiving) + rest);
            assert(s.skip(18) =~= bool_encoding(object.receiving) + rest);
            lemma_take_bool_of_encoding(object.receiving, rest);
        },
    }
}

/// A list of arguments that can be encoded is decoded from its own bytes.
pub proof fn lemma_decode_of_move_call_args_encoding(args: Seq<MoveCallArgView>)
    requires
        args.len() <= MAX_SEQUENCE_LENGTH,
        forall|i: int| 0 <= i < args.len() ==> (#[trigger] args[i]).encodable(),
    ensures
        decoded_move_call_args(move_call_args_encoding(args)) == Some(args),
{
    let s = move_call_args_encoding(args);
    let body = move_call_args_joined(args);
    lemma_take_uleb128_of_encoding(args.len(), body);
    assert(s.skip(uleb128(args.len()).len() as int) =~= body);
    assert(body + Seq::<u8>::empty() =~= body);
    lemma_take_move_call_args_of_encoding(args, Seq::<u8>::empty());
}

/// What is read as `n` arguments lies within the bytes, and is the bytes of
/// the arguments read.
proof fn lemma_move_call_args_taken(s: Seq<u8>, n: nat)
    ensures
        match take_move_call_args(s, n) {
            Some((args, taken)) => taken <= s.len() && args.len() == n && s.take(taken as int)
                == move_call_args_joined(args) && forall|i: int|
                0 <= i < args.len() ==> (#[trigger] args[i]).encodable(),
            None => true,
        },
    decreases n,
{
    match take_move_call_args(s, n) {
        Some((args, taken)) => {
            if n == 0 {
                assert(s.take(0) =~= move_call_args_joined(args));
            } else {
                lemma_move_call_arg_taken(s);
                let (first, k) = take_move_call_arg(s).unwrap();
                lemma_move_call_args_taken(s.skip(k as int), (n - 1) as nat);
                let (rest, m) = take_move_call_args(s.skip(k as int), (n - 1) as nat).unwrap();
                assert(args.skip(1) =~= rest);
                assert(args[0] == first);
                assert(s.take(taken as int) =~= s.take(k as int) + s.skip(k as int).take(m as int));
                assert forall|i: int| 0 <= i < args.len() implies (
                #[trigger] args[i]).encodable() by {
                    if i > 0 {
                        assert(args[i] == rest[i - 1]);
                    }
                }
            }
        },
        None => {},
    }
}

/// Bytes that decode as a list of arguments are the bytes of that list, and
/// the list can be encoded.
pub proof fn lemma_move_call_args_encoding_of_decoded(s: Seq<u8>)
    ensures
        match decoded_move_call_args(s) {
            Some(args) => move_call_args_encoding(args) == s && args.len() <= MAX_SEQUENCE_LENGTH
                && forall|i: int| 0 <= i < args.len() ==> (#[trigger] args[i]).encodable(),
            None => true,
        },
{
    match decoded_move_call_args(s) {
        Some(args) => {
            lemma_uleb128_of_taken(s);
            let (n, k) = take_length(s).unwrap();
            lemma_move_call_args_taken(s.skip(k as int), n);
            let (_, m) = take_move_call_args(s.skip(k as int), n).unwrap();
            assert(s.skip(k as int).take(m as int) =~= s.skip(k as int));
            assert(s =~= s.take(k as int) + s.skip(k as int));
        },
        None => {},
    }
}

/// Decodes the list of call arguments that a trigger holds.
pub fn decode_move_call_args(bytes: &[u8]) -> (r: Option<Vec<MoveCallArg>>)
    ensures
        match r {
            Some(args) => decoded_move_call_args(bytes@) == Some(move_call_args_view(args@)),
            None => decoded_move_call_args(bytes@) is None,
        },
{
    proof {
        assert(bytes@.skip(0) =~= bytes@);
    }
    let (n, start) = match read_length(bytes, 0) {
        Some(x) => x,
        None => { return None },
    };
    let ghost body = bytes@.skip(start as int);
    let mut args: Vec<MoveCallArg> = Vec::new();
    let mut pos: usize = start;
    let mut i: usize = 0;
    proof {
        assert(body.skip(0) =~= body);
        assert(move_call_args_view(args@) + Seq::<MoveCallArgView>::empty()
            =~= move_call_args_view(args@));
        match take_move_call_args(body, n as nat) {
            Some((rest, m)) => {
                assert(Seq::<MoveCallArgView>::empty() + rest =~= rest);
            },
            None => {},
        }
    }
    while i < n
        invariant
            i <= n,
            start <= pos <= bytes@.len(),
            body == bytes@.skip(start as int),
            take_length(bytes@) == Some((n as nat, start as nat)),
            args@.len() == i,
            take_move_call_args(body, n as nat) == args_continued(
                move_call_args_view(args@),
                (pos - start) as nat,
                take_move_call_args(body.skip(pos - start), (n - i) as nat),
            ),
        decreases n - i,
    {
        proof {
            lemma_args_continued_step(
                body,
                move_call_args_view(args@),
                (pos - start) as nat,
                (n - i) as nat,
            );
            assert(body.skip(pos - start) =~= bytes@.skip(pos as int));
        }
        let ghost before = move_call_args_view(args@);
        match read_move_call_arg(bytes, pos) {
            Some((arg, next)) => {
                args.push(arg);
                proof {
                    assert(move_call_args_view(args@) =~= before.push(arg@));
                }
                pos = next;
            },
            None => {
                proof {
                    assert(take_move_call_arg(body.skip(pos - start)) is None);
                    assert(take_move_call_args(body, n as nat) is None);
                }
                return None;
            },
        }
        i += 1;
    }
    proof {
        assert(move_call_args_view(args@) + Seq::<MoveCallArgView>::empty()
            =~= move_call_args_view(args@));
    }
    if pos != bytes.len() {
        return None;
    }
    Some(args)
}

// ---------------------------------------------------------------------------
// Reading a trigger out of an object
// ---------------------------------------------------------------------------
/// The trigger that an object holds: for a Move object of the trigger type,
/// what its contents decode to; for every other object, none.
pub open spec fn trigger_of(object: ObjectView) -> Option<AutoTxView> {
    match object.data {
        DataView::Move(o) => if is_auto_tx_tag(o.type_) {
            decoded_auto_tx(o.contents)
        } else {
            None
        },
        DataView::Package(_) => None,
    }
}

/// The trigger that an object holds has the identifier of the object: both
/// are the first sixteen bytes of the object's contents.
pub proof fn lemma_trigger_has_the_id_of_its_object(object: ObjectView)
    requires
        trigger_of(object) is Some,
    ensures
        trigger_of(object).unwrap().id == object.id(),
{
    match object.data {
        DataView::Move(o) => {
            assert(o.contents.take(16) =~= o.contents.subrange(0, 16));
        },
        DataView::Package(_) => {},
    }
}

impl AutoTx {
    /// The trigger that `obj` holds, if it is a trigger object. The contents
    /// of a trigger object always decode: an object is only ever made with
    /// contents that do.
    pub fn try_from_object(obj: &Object) -> (r: Option<Self>)
        ensures
            match r {
                Some(tx) => trigger_of(obj@) == Some(tx@),
                None => trigger_of(obj@) is None,
            },
            r is Some <==> (obj@.data is Move && is_auto_tx_tag(obj@.data->Move_0.type_)),
    {
        if let Some(move_obj) = obj.data.try_as_move() {
            if move_obj.is_auto_tx() {
                let contents = move_obj.contents();
                return match AutoTx::from_bcs_bytes(contents.as_slice()) {
                    Ok(tx) => Some(tx),
                    Err(_) => vstd::pervasive::unreached(),
                };
            }
        }
        None
    }
}

// ---------------------------------------------------------------------------
// Transactions made from triggers
// ---------------------------------------------------------------------------
/// A transaction made from a trigger: the trigger's identifier, the time it
/// was set for, and the transaction.
#[derive(Debug, PartialEq, Eq)]
pub struct AutoExecutableTransaction {
    object_id: ObjectID,
    trigger_time: TimestampMs,
    transaction: TransactionData,
}

/// What an [`AutoExecutableTransaction`] stands for.
pub ghost struct AutoExecutableTransactionView {
    pub object_id: ObjectID,
    pub trigger_time: TimestampMs,
    pub transaction: TransactionDataView,
}

/// The words that stand before the bytes of a transaction when it is hashed:
/// `AutoExecutableTransaction::`.
pub open spec fn digest_prefix() -> Seq<u8> {
    seq![
        0x41u8, 0x75u8, 0x74u8, 0x6fu8, 0x45u8, 0x78u8, 0x65u8, 0x63u8, 0x75u8, 0x74u8, 0x61u8,
        0x62u8, 0x6cu8, 0x65u8, 0x54u8, 0x72u8, 0x61u8, 0x6eu8, 0x73u8, 0x61u8, 0x63u8, 0x74u8,
        0x69u8, 0x6fu8, 0x6eu8, 0x3au8, 0x3au8,
    ]
}

impl AutoExecutableTransactionView {
    /// What holds of every transaction made from a trigger: one address signs
    /// it.
    pub open spec fn wf(self) -> bool {
        self.transaction.signers().len() == 1
    }

    /// The canonical bytes: the trigger's identifier, the time, the
    /// transaction.
    pub open spec fn encoding(self) -> Seq<u8> {
        self.object_id.bytes() + (le_bytes(self.trigger_time as nat, 8)
            + self.transaction.encoding())
    }

    /// The digest: the hash of the prefix and the canonical bytes.
    pub open spec fn digest(self) -> Seq<u8> {
        blake2b256(digest_prefix() + self.encoding())
    }
}

impl View for AutoExecutableTransaction {
    type V = AutoExecutableTransactionView;

    closed spec fn view(&self) -> AutoExecutableTransactionView {
        AutoExecutableTransactionView {
            object_id: self.object_id,
            trigger_time: self.trigger_time,
            transaction: self.transaction@,
        }
    }
}

impl Clone for AutoExecutableTransaction {
    fn clone(&self) -> (r: Self)
        ensures
            r@ == self@,
    {
        self.duplicate()
    }
}

/// What a list of such transactions stands for.
pub open spec fn transactions_view(txs: Seq<AutoExecutableTransaction>) -> Seq<
    AutoExecutableTransactionView,
> {
    Seq::new(txs.len(), |i: int| txs[i]@)
}

/// The transaction that a trigger asks for, with the gas coin `gas` of balance
/// `balance` to pay for it at `price`, and the type arguments and arguments
/// already resolved. The trigger's own identifier sends the transaction and
/// owns its gas. There is none where the module or the function is not named
/// by an identifier, or where the address that owns the gas coin is not the
/// trigger's identifier.
pub open spec fn transaction_from_trigger(
    auto_tx: AutoTxView,
    gas: ObjectView,
    balance: u64,
    price: u64,
    type_inputs: Seq<MoveTypeView>,
    arguments: Seq<CallArgView>,
) -> Option<AutoExecutableTransactionView> {
    let sender = SuiAddress(auto_tx.id.0);
    if !is_valid_identifier(auto_tx.module_name) || !is_valid_identifier(auto_tx.function_name) {
        None
    } else if gas.single_owner() != Some(sender) {
        None
    } else {
        Some(
            AutoExecutableTransactionView {
                object_id: auto_tx.id,
                trigger_time: auto_tx.trigger_time,
                transaction: TransactionDataView {
                    kind: TransactionKindView::AutonomousExecution(
                        ProgrammableTransactionView {
                            package: auto_tx.callee,
                            module: auto_tx.module_name,
                            function: auto_tx.function_name,
                            type_arguments: type_inputs,
                            arguments,
                        },
                    ),
                    sender,
                    gas_data: GasDataView {
                        payment: seq![(gas.id(), gas.version(), gas.digest())],
                        owner: sender,
                        price,
                        budget: balance,
                    },
                },
            },
        )
    }
}

impl AutoExecutableTransaction {
    #[verifier::type_invariant]
    spec fn well_formed(self) -> bool {
        self@.wf()
    }

    /// The identifier of the trigger.
    pub fn object_id(&self) -> (r: ObjectID)
        ensures
            r == self@.object_id,
    {
        self.object_id
    }

    /// The time that the trigger was set for.
    pub fn trigger_time(&self) -> (r: TimestampMs)
        ensures
            r == self@.trigger_time,
    {
        self.trigger_time
    }

    /// The transaction.
    pub fn transaction(&self) -> (r: &TransactionData)
        ensures
            r@ == self@.transaction,
            self@.wf(),
    {
        proof {
            use_type_invariant(self);
        }
        &self.transaction
    }

    /// A copy of the transaction.
    pub fn duplicate(&self) -> (r: AutoExecutableTransaction)
        ensures
            r@ == self@,
    {
        proof {
            use_type_invariant(self);
        }
        AutoExecutableTransaction {
            object_id: self.object_id,
            trigger_time: self.trigger_time,
            transaction: self.transaction.duplicate(),
        }
    }

    /// The canonical bytes of the transaction.
    pub fn to_bytes(&self) -> (r: Vec<u8>)
        ensures
            r@ == self@.encoding(),
    {
        let mut out: Vec<u8> = Vec::new();
        write_u128_be(&mut out, self.object_id.0);
        write_u64_le(&mut out, self.trigger_time);
        self.transaction.write_to(&mut out);
        proof {
            assert(out@ =~= self@.encoding());
        }
        out
    }

    /// The digest of the transaction.
    pub fn digest(&self) -> (r: TransactionDigest)
        ensures
            r.0@ == self@.digest(),
    {
        let mut message: Vec<u8> = vec![
            0x41u8, 0x75u8, 0x74u8, 0x6fu8, 0x45u8, 0x78u8, 0x65u8, 0x63u8, 0x75u8, 0x74u8, 0x61u8,
            0x62u8, 0x6cu8, 0x65u8, 0x54u8, 0x72u8, 0x61u8, 0x6eu8, 0x73u8, 0x61u8, 0x63u8, 0x74u8,
            0x69u8, 0x6fu8, 0x6eu8, 0x3au8, 0x3au8,
        ];
        proof {
            assert(message@ =~= digest_prefix());
        }
        write_u128_be(&mut message, self.object_id.0);
        write_u64_le(&mut message, self.trigger_time);
        self.transaction.write_to(&mut message);
        proof {
            assert(message@ =~= digest_prefix() + self@.encoding());
        }
        TransactionDigest::new(default_hash(message.as_slice()))
    }

    /// The key under which the transaction is found: its digest.
    pub fn key(&self) -> (r: TransactionKey)
        ensures
            r matches TransactionKey::Digest(digest) && digest.0@ == self@.digest(),
    {
        TransactionKey::Digest(self.digest())
    }

    /// A transaction for the trigger `id`, if `transaction` is an autonomous
    /// execution that one address signs.
    pub fn new(id: ObjectID, trigger_time: TimestampMs, transaction: TransactionData) -> (r: Option<
        Self,
    >)
        ensures
            r is Some <==> (transaction@.kind is AutonomousExecution && transaction@.signers().len()
                == 1),
            r is Some ==> r.unwrap()@ == (AutoExecutableTransactionView {
                object_id: id,
                trigger_time,
                transaction: transaction@,
            }),
    {
        match transaction.kind() {
            TransactionKind::AutonomousExecution(_) => {},
            _ => {
                return None;
            },
        }
        if transaction.gas_owner() != transaction.sender() {
            return None;
        }
        Some(AutoExecutableTransaction { object_id: id, trigger_time, transaction })
    }

    /// A transaction for the trigger `object_id` out of parts that were
    /// stored: they are taken if one address signs the transaction, and
    /// refused with a message if not.
    pub fn from_parts(
        object_id: ObjectID,
        trigger_time: TimestampMs,
        transaction: TransactionData,
    ) -> (r: Result<Self, String>)
        ensures
            r is Ok <==> transaction@.signers().len() == 1,
            r is Ok ==> r.unwrap()@ == (AutoExecutableTransactionView {
                object_id,
                trigger_time,
                transaction: transaction@,
            }),
            r matches Err(message) ==> message@
                == "AutoExecutableTransaction should have only one signer as caller"@,
    {
        let signer = transaction.signers();
        if signer.len() != 1 {
            return Err(
                "AutoExecutableTransaction should have only one signer as caller".to_owned(),
            );
        }
        Ok(AutoExecutableTransaction { object_id, trigger_time, transaction })
    }

    /// The transaction that the trigger `auto_tx` asks for, paid for by the
    /// coin `gas`.
    pub fn try_from_obj(
        auto_tx: &AutoTx,
        gas: &Object,
        balance: u64,
        price: u64,
        type_inputs: Vec<MoveType>,
        arguments: Vec<CallArg>,
    ) -> (r: Option<Self>)
        ensures
            match r {
                Some(tx) => transaction_from_trigger(
                    auto_tx@,
                    gas@,
                    balance,
                    price,
                    type_tags_view(type_inputs@),
                    call_args_view(arguments@),
                ) == Some(tx@),
                None => transaction_from_trigger(
                    auto_tx@,
                    gas@,
                    balance,
                    price,
                    type_tags_view(type_inputs@),
                    call_args_view(arguments@),
                ) is None,
            },
    {
        if !valid_identifier(&auto_tx.module_name) || !valid_identifier(&auto_tx.function_name) {
            return None;
        }
        let pt = ProgrammableTransaction {
            package: auto_tx.callee,
            module: copy_bytes(&auto_tx.module_name),
            function: copy_bytes(&auto_tx.function_name),
            type_arguments: type_inputs,
            arguments,
        };
        let id: ObjectID = *auto_tx.id.object_id();
        let sender = SuiAddress::from_object_id(id);
        let mut payment: Vec<ObjectRef> = Vec::new();
        payment.push(gas.compute_object_reference());
        proof {
            assert(object_refs_view(payment@) =~= seq![(gas@.id(), gas@.version(), gas@.digest())]);
        }
        let transaction = TransactionData::new_with_gas_coins(
            TransactionKind::AutonomousExecution(pt),
            sender,
            payment,
            balance,
            price,
        );
        match gas.get_single_owner() {
            Some(owner) => {
                if owner != sender {
                    return None;
                }
            },
            None => {
                return None;
            },
        }
        AutoExecutableTransaction::new(id, auto_tx.trigger_time(), transaction)
    }
}

} // verus!
