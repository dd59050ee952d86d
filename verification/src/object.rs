//! Objects as the object store hands them out.
use crate::auto_executable_transaction::{decoded_auto_tx, is_auto_tx_tag, AutoTx};
use crate::base_types::{
    ObjectDigest, ObjectID, ObjectRef, SequenceNumber, SuiAddress, TransactionDigest, UID,
};
use crate::crypto::{blake2b256, default_hash};
use crate::error::{SuiError, SuiResult};
use crate::language_storage::{
    copy_bytes, copy_struct_tag, lemma_struct_tag_view, same_bytes, same_struct_tag,
    struct_tag_encoding, write_struct_tag, MoveType, MoveTypeView, StructType, StructTypeView,
};
use crate::wire::{
    be_bytes, be_value, bool_encoding, bytes_encoding, le_bytes, le_value, lemma_be_value_bound,
    lemma_le_value_bound, lemma_radix_pow_values, read_u128_be, read_u64_le, write_bool,
    write_bytes, write_u128_be, write_u64_le,
};
use vstd::prelude::*;

verus! {

/// The version that an object is created with.
pub const OBJECT_START_VERSION: SequenceNumber = 1;

/// The balance of a gas coin made for tests.
pub const GAS_VALUE_FOR_TESTING: u64 = 300_000_000_000_000;

/// Address of the package that declares coins, as a number.
pub const SUI_FRAMEWORK_ADDRESS: u128 = 0x2;

/// Who may use an object.
#[derive(Debug, Clone, Copy, PartialEq, Eq, Structural)]
pub enum Owner {
    /// An account owns the object.
    AddressOwner(SuiAddress),
    /// Another object owns the object.
    ObjectOwner(SuiAddress),
    /// Anybody may use the object; it was shared at the given version.
    Shared { initial_shared_version: SequenceNumber },
    /// Nobody may change the object.
    Immutable,
}

/// The module that declares coins: `coin`.
pub open spec fn coin_module_name() -> Seq<u8> {
    seq![0x63u8, 0x6fu8, 0x69u8, 0x6eu8]
}

/// The name of the coin type: `Coin`.
pub open spec fn coin_struct_name() -> Seq<u8> {
    seq![0x43u8, 0x6fu8, 0x69u8, 0x6eu8]
}

/// The module that declares the gas currency: `sui`.
pub open spec fn gas_module_name() -> Seq<u8> {
    seq![0x73u8, 0x75u8, 0x69u8]
}

/// The name of the gas currency: `SUI`.
pub open spec fn gas_struct_name() -> Seq<u8> {
    seq![0x53u8, 0x55u8, 0x49u8]
}

/// The type of the gas currency.
pub open spec fn gas_currency_tag() -> StructTypeView {
    StructTypeView {
        address: ObjectID(SUI_FRAMEWORK_ADDRESS),
        module: gas_module_name(),
        name: gas_struct_name(),
        type_params: Seq::empty(),
    }
}

/// Whether `s` is the type of a coin, of any currency.
pub open spec fn is_coin_tag(s: StructTypeView) -> bool {
    &&& s.address == ObjectID(SUI_FRAMEWORK_ADDRESS)
    &&& s.module == coin_module_name()
    &&& s.name == coin_struct_name()
    &&& s.type_params.len() == 1
}

/// Whether `s` is the type of a coin of the gas currency.
pub open spec fn is_gas_coin_tag(s: StructTypeView) -> bool {
    &&& is_coin_tag(s)
    &&& s.type_params[0] == MoveTypeView::Struct(Box::new(gas_currency_tag()))
}

/// The type of the gas currency.
pub fn gas_currency_type() -> (r: StructType)
    ensures
        r@ == gas_currency_tag(),
{
    let r = StructType {
        address: ObjectID(SUI_FRAMEWORK_ADDRESS),
        module: vec![0x73u8, 0x75u8, 0x69u8],
        name: vec![0x53u8, 0x55u8, 0x49u8],
        type_params: Vec::new(),
    };
    proof {
        lemma_struct_tag_view(r);
        assert(r@.module =~= gas_module_name());
        assert(r@.name =~= gas_struct_name());
        assert(r@.type_params =~= Seq::<MoveTypeView>::empty());
    }
    r
}

/// The type of coins of the gas currency.
pub fn gas_coin_type() -> (r: StructType)
    ensures
        is_gas_coin_tag(r@),
        r@.type_params == seq![MoveTypeView::Struct(Box::new(gas_currency_tag()))],
{
    let mut params: Vec<MoveType> = Vec::new();
    params.push(MoveType::Struct(Box::new(gas_currency_type())));
    let r = StructType {
        address: ObjectID(SUI_FRAMEWORK_ADDRESS),
        module: vec![0x63u8, 0x6fu8, 0x69u8, 0x6eu8],
        name: vec![0x43u8, 0x6fu8, 0x69u8, 0x6eu8],
        type_params: params,
    };
    proof {
        lemma_struct_tag_view(r);
        assert(r@.module =~= coin_module_name());
        assert(r@.name =~= coin_struct_name());
        assert(r@.type_params =~= seq![MoveTypeView::Struct(Box::new(gas_currency_tag()))]);
    }
    r
}

/// Whether `s` is the type of a coin, of any currency.
pub fn is_coin_type(s: &StructType) -> (r: bool)
    ensures
        r == is_coin_tag(s@),
{
    proof {
        lemma_struct_tag_view(*s);
    }
    let module: Vec<u8> = vec![0x63u8, 0x6fu8, 0x69u8, 0x6eu8];
    let name: Vec<u8> = vec![0x43u8, 0x6fu8, 0x69u8, 0x6eu8];
    proof {
        assert(module@ =~= coin_module_name());
        assert(name@ =~= coin_struct_name());
    }
    s.address == ObjectID(SUI_FRAMEWORK_ADDRESS) && same_bytes(&s.module, &module) && same_bytes(
        &s.name,
        &name,
    ) && s.type_params.len() == 1
}

/// A coin: its own identifier and the balance it holds.
#[derive(Debug, Clone, Copy, PartialEq, Eq, Structural)]
pub struct Coin {
    pub id: UID,
    pub balance: u64,
}

impl Coin {
    /// The balance of the coin.
    pub fn value(&self) -> (r: u64)
        ensures
            r == self.balance,
    {
        self.balance
    }
}

/// The coin that the bytes `s` hold: an identifier, then a balance, and no
/// byte more.
pub open spec fn decoded_coin(s: Seq<u8>) -> Option<Coin> {
    if s.len() == 24 {
        Some(
            Coin {
                id: UID { id: ObjectID(be_value(s.subrange(0, 16)) as u128) },
                balance: le_value(s.subrange(16, 24)) as u64,
            },
        )
    } else {
        None
    }
}

/// An object that holds a value of a Move struct type.
pub struct MoveObject {
    type_: StructType,
    has_public_transfer: bool,
    version: SequenceNumber,
    contents: Vec<u8>,
}

/// What a [`MoveObject`] stands for.
pub ghost struct MoveObjectView {
    pub type_: StructTypeView,
    pub has_public_transfer: bool,
    pub version: SequenceNumber,
    pub contents: Seq<u8>,
}

impl MoveObjectView {
    /// What holds of every Move object: its contents begin with the sixteen
    /// bytes of its identifier, and where its type is the trigger type, its
    /// contents are the encoding of a trigger.
    pub open spec fn wf(self) -> bool {
        &&& self.contents.len() >= 16
        &&& is_auto_tx_tag(self.type_) ==> decoded_auto_tx(self.contents) is Some
    }

    /// The identifier of the object: the first sixteen bytes of its contents.
    pub open spec fn id(self) -> ObjectID {
        ObjectID(be_value(self.contents.subrange(0, 16)) as u128)
    }

    /// The canonical bytes of the object.
    pub open spec fn encoding(self) -> Seq<u8> {
        struct_tag_encoding(self.type_) + (bool_encoding(self.has_public_transfer) + (le_bytes(
            self.version as nat,
            8,
        ) + bytes_encoding(self.contents)))
    }
}

impl View for MoveObject {
    type V = MoveObjectView;

    closed spec fn view(&self) -> MoveObjectView {
        MoveObjectView {
            type_: self.type_@,
            has_public_transfer: self.has_public_transfer,
            version: self.version,
            contents: self.contents@,
        }
    }
}

impl MoveObject {
    #[verifier::type_invariant]
    spec fn well_formed(self) -> bool {
        self@.wf()
    }

    /// A Move object of the given type, version and contents. The contents
    /// must begin with the object's identifier, and those of a trigger object
    /// must decode as a trigger: other contents are refused.
    pub fn new(
        type_: StructType,
        has_public_transfer: bool,
        version: SequenceNumber,
        contents: Vec<u8>,
    ) -> (r: SuiResult<MoveObject>)
        ensures
            match r {
                Ok(object) => object@ == (MoveObjectView {
                    type_: type_@,
                    has_public_transfer,
                    version,
                    contents: contents@,
                }) && object@.wf(),
                Err(e) => !(MoveObjectView {
                    type_: type_@,
                    has_public_transfer,
                    version,
                    contents: contents@,
                }).wf() && e is ObjectDeserializationError,
            },
    {
        if contents.len() < 16 {
            return Err(
                SuiError::ObjectDeserializationError {
                    error: "object contents are shorter than an identifier".to_string(),
                },
            );
        }
        if AutoTx::is_auto_tx(&type_) {
            match AutoTx::from_bcs_bytes(contents.as_slice()) {
                Ok(_) => {},
                Err(_) => {
                    return Err(
                        SuiError::ObjectDeserializationError {
                            error: "trigger object does not decode".to_string(),
                        },
                    );
                },
            }
        }
        Ok(MoveObject { type_, has_public_transfer, version, contents })
    }

    /// A Move object for a test, with a copy of `contents`.
    pub fn create_for_test(
        type_: StructType,
        has_public_transfer: bool,
        version: SequenceNumber,
        contents: &Vec<u8>,
    ) -> (r: SuiResult<MoveObject>)
        ensures
            match r {
                Ok(object) => object@ == (MoveObjectView {
                    type_: type_@,
                    has_public_transfer,
                    version,
                    contents: contents@,
                }) && object@.wf(),
                Err(e) => !(MoveObjectView {
                    type_: type_@,
                    has_public_transfer,
                    version,
                    contents: contents@,
                }).wf() && e is ObjectDeserializationError,
            },
    {
        MoveObject::new(type_, has_public_transfer, version, copy_bytes(contents))
    }

    /// The type of the object.
    pub fn type_(&self) -> (r: &StructType)
        ensures
            r@ == self@.type_,
    {
        &self.type_
    }

    /// Whether anybody may transfer the object.
    pub fn has_public_transfer(&self) -> (r: bool)
        ensures
            r == self@.has_public_transfer,
    {
        self.has_public_transfer
    }

    /// The version of the object.
    pub fn version(&self) -> (r: SequenceNumber)
        ensures
            r == self@.version,
    {
        self.version
    }

    /// The contents of the object.
    pub fn contents(&self) -> (r: &Vec<u8>)
        ensures
            r@ == self@.contents,
            self@.wf(),
    {
        proof {
            use_type_invariant(self);
        }
        &self.contents
    }

    /// The identifier of the object.
    pub fn id(&self) -> (r: ObjectID)
        ensures
            r == self@.id(),
    {
        proof {
            use_type_invariant(self);
            lemma_be_value_bound(self.contents@.subrange(0, 16));
            lemma_radix_pow_values();
        }
        ObjectID(read_u128_be(self.contents.as_slice(), 0))
    }

    /// Whether the object is a trigger.
    pub fn is_auto_tx(&self) -> (r: bool)
        ensures
            r == is_auto_tx_tag(self@.type_),
    {
        AutoTx::is_auto_tx(&self.type_)
    }

    /// Whether the object is a coin of the gas currency.
    pub fn is_gas_coin(&self) -> (r: bool)
        ensures
            r == is_gas_coin_tag(self@.type_),
    {
        proof {
            lemma_struct_tag_view(self.type_);
        }
        if !is_coin_type(&self.type_) {
            return false;
        }
        let currency = gas_currency_type();
        match &self.type_.type_params[0] {
            MoveType::Struct(tag) => same_struct_tag(tag, &currency),
            _ => false,
        }
    }

    /// A copy of the object.
    pub fn duplicate(&self) -> (r: MoveObject)
        ensures
            r@ == self@,
    {
        proof {
            use_type_invariant(self);
        }
        MoveObject {
            type_: copy_struct_tag(&self.type_),
            has_public_transfer: self.has_public_transfer,
            version: self.version,
            contents: copy_bytes(&self.contents),
        }
    }
}

/// A published package.
#[derive(Debug, Clone, Copy, PartialEq, Eq, Structural)]
pub struct MovePackage {
    pub id: ObjectID,
    pub version: SequenceNumber,
}

/// What an object holds.
pub enum Data {
    /// A value of a Move struct type.
    Move(MoveObject),
    /// A package of modules.
    Package(MovePackage),
}

/// What a [`Data`] stands for.
pub ghost enum DataView {
    Move(MoveObjectView),
    Package(MovePackage),
}

impl View for Data {
    type V = DataView;

    open spec fn view(&self) -> DataView {
        match self {
            Data::Move(object) => DataView::Move(object@),
            Data::Package(package) => DataView::Package(*package),
        }
    }
}

impl Data {
    /// The Move object, where the data is one.
    pub fn try_as_move(&self) -> (r: Option<&MoveObject>)
        ensures
            match r {
                Some(object) => self@ == DataView::Move(object@),
                None => self@ is Package,
            },
    {
        match self {
            Data::Move(object) => Some(object),
            Data::Package(_) => None,
        }
    }
}

/// An object: what it holds, who owns it, and the transaction that wrote it.
pub struct Object {
    pub data: Data,
    pub owner: Owner,
    pub previous_transaction: TransactionDigest,
}

/// What an [`Object`] stands for.
pub ghost struct ObjectView {
    pub data: DataView,
    pub owner: Owner,
    pub previous_transaction: TransactionDigest,
}

impl View for Object {
    type V = ObjectView;

    open spec fn view(&self) -> ObjectView {
        ObjectView {
            data: self.data@,
            owner: self.owner,
            previous_transaction: self.previous_transaction,
        }
    }
}

/// The canonical bytes of an owner.
pub open spec fn owner_encoding(owner: Owner) -> Seq<u8> {
    match owner {
        Owner::AddressOwner(address) => seq![0u8] + be_bytes(address.0 as nat, 16),
        Owner::ObjectOwner(address) => seq![1u8] + be_bytes(address.0 as nat, 16),
        Owner::Shared { initial_shared_version } => seq![2u8] + le_bytes(
            initial_shared_version as nat,
            8,
        ),
        Owner::Immutable => seq![3u8],
    }
}

impl ObjectView {
    /// What holds of every object: a Move object in it is well formed.
    pub open spec fn wf(self) -> bool {
        match self.data {
            DataView::Move(object) => object.wf(),
            DataView::Package(_) => true,
        }
    }

    /// The identifier of the object.
    pub open spec fn id(self) -> ObjectID {
        match self.data {
            DataView::Move(object) => object.id(),
            DataView::Package(package) => package.id,
        }
    }

    /// The version of the object.
    pub open spec fn version(self) -> SequenceNumber {
        match self.data {
            DataView::Move(object) => object.version,
            DataView::Package(package) => package.version,
        }
    }

    /// The canonical bytes of the object: what it holds, its owner, and the
    /// digest of the transaction that wrote it.
    pub open spec fn encoding(self) -> Seq<u8> {
        (match self.data {
            DataView::Move(object) => seq![0u8] + object.encoding(),
            DataView::Package(package) => seq![1u8] + (package.id.bytes() + le_bytes(
                package.version as nat,
                8,
            )),
        }) + (owner_encoding(self.owner) + self.previous_transaction.0@)
    }

    /// The digest of the object: the hash of its canonical bytes.
    pub open spec fn digest(self) -> Seq<u8> {
        blake2b256(self.encoding())
    }

    /// Whether the object is a coin of the gas currency.
    pub open spec fn is_gas_coin(self) -> bool {
        match self.data {
            DataView::Move(object) => is_gas_coin_tag(object.type_),
            DataView::Package(_) => false,
        }
    }

    /// The coin that the object is, if it is one: its type is a coin type and
    /// its contents are the bytes of a coin.
    pub open spec fn coin(self) -> Option<Coin> {
        match self.data {
            DataView::Move(object) => if is_coin_tag(object.type_) {
                decoded_coin(object.contents)
            } else {
                None
            },
            DataView::Package(_) => None,
        }
    }

    /// The type that the object has at run time: its struct type, for a Move
    /// object. A package has none.
    pub open spec fn template_type(self) -> Option<MoveTypeView> {
        match self.data {
            DataView::Move(object) => Some(MoveTypeView::Struct(Box::new(object.type_))),
            DataView::Package(_) => None,
        }
    }

    /// The one address that owns the object, if one does.
    pub open spec fn single_owner(self) -> Option<SuiAddress> {
        match self.owner {
            Owner::AddressOwner(address) => Some(address),
            Owner::ObjectOwner(address) => Some(address),
            _ => None,
        }
    }
}

/// Appends the canonical bytes of an owner.
pub fn write_owner(out: &mut Vec<u8>, owner: &Owner)
    ensures
        final(out)@ == old(out)@ + owner_encoding(*owner),
{
    match owner {
        Owner::AddressOwner(address) => {
            out.push(0u8);
            write_u128_be(out, address.0);
        },
        Owner::ObjectOwner(address) => {
            out.push(1u8);
            write_u128_be(out, address.0);
        },
        Owner::Shared { initial_shared_version } => {
            out.push(2u8);
            write_u64_le(out, *initial_shared_version);
        },
        Owner::Immutable => {
            out.push(3u8);
        },
    }
    proof {
        assert(out@ =~= old(out)@ + owner_encoding(*owner));
    }
}

/// Appends the 32 bytes of a digest.
pub fn write_digest(out: &mut Vec<u8>, digest: &[u8; 32])
    ensures
        final(out)@ == old(out)@ + digest@,
{
    let mut i: usize = 0;
    while i < 32
        invariant
            i <= 32,
            out@ == old(out)@ + digest@.take(i as int),
        decreases 32 - i,
    {
        out.push(digest[i]);
        proof {
            assert(digest@.take(i + 1) =~= digest@.take(i as int).push(digest@[i as int]));
        }
        i += 1;
    }
    proof {
        assert(digest@.take(32) =~= digest@);
    }
}

impl Object {
    /// An object that holds a Move object.
    pub fn new_move(o: MoveObject, owner: Owner, previous_transaction: TransactionDigest) -> (r:
        Object)
        ensures
            r@ == (ObjectView { data: DataView::Move(o@), owner, previous_transaction }),
    {
        Object { data: Data::Move(o), owner, previous_transaction }
    }

    /// An object that holds a package.
    pub fn new_package(package: MovePackage, previous_transaction: TransactionDigest) -> (r:
        Object)
        ensures
            r@ == (ObjectView {
                data: DataView::Package(package),
                owner: Owner::Immutable,
                previous_transaction,
            }),
    {
        Object { data: Data::Package(package), owner: Owner::Immutable, previous_transaction }
    }

    /// A coin of the gas currency for a test: it has the identifier `id`,
    /// the balance of test coins, and the account `owner` owns it.
    pub fn with_id_owner_for_testing(id: ObjectID, owner: SuiAddress) -> (r: Object)
        ensures
            r@.data is Move,
            r@.data->Move_0.has_public_transfer,
            r@.is_gas_coin(),
            r@.wf(),
            r@.id() == id,
            r@.version() == OBJECT_START_VERSION,
            r@.coin() == Some(Coin { id: UID { id }, balance: GAS_VALUE_FOR_TESTING }),
            r@.owner == Owner::AddressOwner(owner),
            r@.previous_transaction.0@ == Seq::new(32, |i: int| 0u8),
    {
        Object::with_id_owner_gas_for_testing(id, owner, GAS_VALUE_FOR_TESTING)
    }

    /// A coin of the gas currency for a test: it has the identifier `id` and
    /// the balance `gas`, and the account `owner` owns it.
    pub fn with_id_owner_gas_for_testing(id: ObjectID, owner: SuiAddress, gas: u64) -> (r: Object)
        ensures
            r@.data is Move,
            r@.data->Move_0.has_public_transfer,
            r@.is_gas_coin(),
            r@.wf(),
            r@.id() == id,
            r@.version() == OBJECT_START_VERSION,
            r@.coin() == Some(Coin { id: UID { id }, balance: gas }),
            r@.owner == Owner::AddressOwner(owner),
            r@.previous_transaction.0@ == Seq::new(32, |i: int| 0u8),
    {
        let mut contents: Vec<u8> = Vec::new();
        write_u128_be(&mut contents, id.0);
        write_u64_le(&mut contents, gas);
        proof {
            crate::wire::lemma_be_bytes_len(id.0 as nat, 16);
            crate::wire::lemma_le_bytes_len(gas as nat, 8);
            lemma_radix_pow_values();
            crate::wire::lemma_be_value_of_bytes(id.0 as nat, 16);
            crate::wire::lemma_le_value_of_bytes(gas as nat, 8);
            assert(contents@.subrange(0, 16) =~= be_bytes(id.0 as nat, 16));
            assert(contents@.subrange(16, 24) =~= le_bytes(gas as nat, 8));
        }
        let type_ = gas_coin_type();
        proof {
            let tag = type_@;
            assert(tag.address != ObjectID(
                crate::auto_executable_transaction::TALUS_FRAMEWORK_ADDRESS,
            ));
        }
        let object = match MoveObject::new(type_, true, OBJECT_START_VERSION, contents) {
            Ok(object) => object,
            Err(_) => { vstd::pervasive::unreached() },
        };
        let zero: [u8; 32] = [0u8; 32];
        proof {
            assert(zero@ =~= Seq::new(32, |i: int| 0u8));
        }
        Object {
            data: Data::Move(object),
            owner: Owner::AddressOwner(owner),
            previous_transaction: TransactionDigest(zero),
        }
    }

    /// What holds of every object.
    pub fn check_wf(&self)
        ensures
            self@.wf(),
    {
        match &self.data {
            Data::Move(object) => {
                let _ = object.contents();
            },
            Data::Package(_) => {},
        }
    }

    /// The identifier of the object.
    pub fn id(&self) -> (r: ObjectID)
        ensures
            r == self@.id(),
    {
        match &self.data {
            Data::Move(object) => object.id(),
            Data::Package(package) => package.id,
        }
    }

    /// The version of the object.
    pub fn version(&self) -> (r: SequenceNumber)
        ensures
            r == self@.version(),
    {
        match &self.data {
            Data::Move(object) => object.version(),
            Data::Package(package) => package.version,
        }
    }

    /// Whether the object is a coin of the gas currency.
    pub fn is_gas_coin(&self) -> (r: bool)
        ensures
            r == self@.is_gas_coin(),
    {
        match &self.data {
            Data::Move(object) => object.is_gas_coin(),
            Data::Package(_) => false,
        }
    }

    /// The coin that the object is, if it is one.
    pub fn as_coin_maybe(&self) -> (r: Option<Coin>)
        ensures
            r == self@.coin(),
    {
        match &self.data {
            Data::Move(object) => {
                if !is_coin_type(object.type_()) {
                    return None;
                }
                let contents = object.contents();
                if contents.len() != 24 {
                    return None;
                }
                proof {
                    lemma_be_value_bound(contents@.subrange(0, 16));
                    lemma_le_value_bound(contents@.subrange(16, 24));
                    lemma_radix_pow_values();
                }
                let id = read_u128_be(contents.as_slice(), 0);
                let balance = read_u64_le(contents.as_slice(), 16);
                Some(Coin { id: UID { id: ObjectID(id) }, balance })
            },
            Data::Package(_) => None,
        }
    }

    /// The type that the object has at run time.
    pub fn get_move_template_type(&self) -> (r: Option<MoveType>)
        ensures
            match r {
                Some(tag) => self@.template_type() == Some(tag@),
                None => self@.template_type() is None,
            },
    {
        match &self.data {
            Data::Move(object) => {
                let tag = MoveType::Struct(Box::new(copy_struct_tag(object.type_())));
                Some(tag)
            },
            Data::Package(_) => None,
        }
    }

    /// Whether the object is shared.
    pub fn is_shared(&self) -> (r: bool)
        ensures
            r == (self@.owner is Shared),
    {
        match self.owner {
            Owner::Shared { .. } => true,
            _ => false,
        }
    }

    /// The one address that owns the object, if one does.
    pub fn get_single_owner(&self) -> (r: Option<SuiAddress>)
        ensures
            r == self@.single_owner(),
    {
        match self.owner {
            Owner::AddressOwner(address) => Some(address),
            Owner::ObjectOwner(address) => Some(address),
            _ => None,
        }
    }

    /// The canonical bytes of the object.
    pub fn to_bytes(&self) -> (r: Vec<u8>)
        ensures
            r@ == self@.encoding(),
    {
        let mut out: Vec<u8> = Vec::new();
        match &self.data {
            Data::Move(object) => {
                out.push(0u8);
                write_struct_tag(&mut out, object.type_());
                write_bool(&mut out, object.has_public_transfer());
                write_u64_le(&mut out, object.version());
                write_bytes(&mut out, object.contents());
                proof {
                    assert(out@ =~= seq![0u8] + object@.encoding());
                }
            },
            Data::Package(package) => {
                out.push(1u8);
                write_u128_be(&mut out, package.id.0);
                write_u64_le(&mut out, package.version);
                proof {
                    assert(out@ =~= seq![1u8] + (package.id.bytes() + le_bytes(
                        package.version as nat,
                        8,
                    )));
                }
            },
        }
        let ghost head = out@;
        write_owner(&mut out, &self.owner);
        write_digest(&mut out, &self.previous_transaction.0);
        proof {
            assert(out@ =~= head + (owner_encoding(self.owner) + self.previous_transaction.0@));
        }
        out
    }

    /// The digest of the object.
    pub fn digest(&self) -> (r: ObjectDigest)
        ensures
            r.0@ == self@.digest(),
    {
        let bytes = self.to_bytes();
        ObjectDigest(default_hash(bytes.as_slice()))
    }

    /// Identifier, version and digest of the object.
    pub fn compute_object_reference(&self) -> (r: ObjectRef)
        ensures
            r.0 == self@.id(),
            r.1 == self@.version(),
            r.2.0@ == self@.digest(),
    {
        (self.id(), self.version(), self.digest())
    }

    /// A copy of the object.
    pub fn duplicate(&self) -> (r: Object)
        ensures
            r@ == self@,
    {
        let data = match &self.data {
            Data::Move(object) => Data::Move(object.duplicate()),
            Data::Package(package) => Data::Package(*package),
        };
        Object { data, owner: self.owner, previous_transaction: self.previous_transaction }
    }
}

} // verus!
