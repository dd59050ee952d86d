//! Transactions: a call, who signs it, and the gas that pays for it.
use crate::base_types::{ObjectID, ObjectRef, SequenceNumber, SuiAddress, TransactionDigest};
use crate::language_storage::{
    copy_bytes, copy_type_tags, type_tags_encoding, type_tags_view, write_type_tags, MoveType,
    MoveTypeView,
};
use crate::wire::{
    be_bytes, bool_encoding, bytes_encoding, le_bytes, uleb128, write_bool, write_bytes,
    write_u128_be, write_u64_le, write_uleb128,
};
use vstd::prelude::*;

verus! {

/// What an [`ObjectRef`] stands for: identifier, version, and the bytes of the
/// digest.
pub type ObjectRefView = (ObjectID, SequenceNumber, Seq<u8>);

/// What an object reference stands for.
pub open spec fn object_ref_view(r: ObjectRef) -> ObjectRefView {
    (r.0, r.1, r.2.0@)
}

/// What a list of object references stands for.
pub open spec fn object_refs_view(refs: Seq<ObjectRef>) -> Seq<ObjectRefView> {
    Seq::new(refs.len(), |i: int| object_ref_view(refs[i]))
}

/// An object that a call takes as an argument.
#[derive(Debug, Clone, Copy, PartialEq, Eq)]
pub enum ObjectArg {
    /// An object that an address owns, or that nobody may change.
    ImmOrOwnedObject(ObjectRef),
    /// A shared object, and whether the call may change it.
    SharedObject { id: ObjectID, initial_shared_version: SequenceNumber, mutable: bool },
    /// An object that was sent to another object, to be received by it.
    Receiving(ObjectRef),
}

/// What an [`ObjectArg`] stands for.
pub ghost enum ObjectArgView {
    ImmOrOwnedObject(ObjectRefView),
    SharedObject { id: ObjectID, initial_shared_version: SequenceNumber, mutable: bool },
    Receiving(ObjectRefView),
}

impl View for ObjectArg {
    type V = ObjectArgView;

    open spec fn view(&self) -> ObjectArgView {
        match self {
            ObjectArg::ImmOrOwnedObject(r) => ObjectArgView::ImmOrOwnedObject(object_ref_view(*r)),
            ObjectArg::SharedObject { id, initial_shared_version, mutable } => {
                ObjectArgView::SharedObject {
                    id: *id,
                    initial_shared_version: *initial_shared_version,
                    mutable: *mutable,
                }
            },
            ObjectArg::Receiving(r) => ObjectArgView::Receiving(object_ref_view(*r)),
        }
    }
}

/// An argument of a call.
#[derive(Debug, Clone, PartialEq, Eq)]
pub enum CallArg {
    /// Bytes that hold no struct and no object.
    Pure(Vec<u8>),
    /// An object.
    Object(ObjectArg),
}

/// What a [`CallArg`] stands for.
pub ghost enum CallArgView {
    Pure(Seq<u8>),
    Object(ObjectArgView),
}

impl View for CallArg {
    type V = CallArgView;

    open spec fn view(&self) -> CallArgView {
        match self {
            CallArg::Pure(bytes) => CallArgView::Pure(bytes@),
            CallArg::Object(object) => CallArgView::Object(object@),
        }
    }
}

/// What a list of call arguments stands for.
pub open spec fn call_args_view(args: Seq<CallArg>) -> Seq<CallArgView> {
    Seq::new(args.len(), |i: int| args[i]@)
}

/// A programmable transaction of one call: the function, its type arguments
/// and its arguments.
#[derive(Debug, PartialEq, Eq)]
pub struct ProgrammableTransaction {
    pub package: ObjectID,
    pub module: Vec<u8>,
    pub function: Vec<u8>,
    pub type_arguments: Vec<MoveType>,
    pub arguments: Vec<CallArg>,
}

/// What a [`ProgrammableTransaction`] stands for.
pub ghost struct ProgrammableTransactionView {
    pub package: ObjectID,
    pub module: Seq<u8>,
    pub function: Seq<u8>,
    pub type_arguments: Seq<MoveTypeView>,
    pub arguments: Seq<CallArgView>,
}

impl View for ProgrammableTransaction {
    type V = ProgrammableTransactionView;

    open spec fn view(&self) -> ProgrammableTransactionView {
        ProgrammableTransactionView {
            package: self.package,
            module: self.module@,
            function: self.function@,
            type_arguments: type_tags_view(self.type_arguments@),
            arguments: call_args_view(self.arguments@),
        }
    }
}

/// What a transaction does.
#[derive(Debug, PartialEq, Eq)]
pub enum TransactionKind {
    /// A call that a user asks for.
    ProgrammableTransaction(ProgrammableTransaction),
    /// A call that a trigger asks for.
    AutonomousExecution(ProgrammableTransaction),
}

/// What a [`TransactionKind`] stands for.
pub ghost enum TransactionKindView {
    ProgrammableTransaction(ProgrammableTransactionView),
    AutonomousExecution(ProgrammableTransactionView),
}

impl View for TransactionKind {
    type V = TransactionKindView;

    open spec fn view(&self) -> TransactionKindView {
        match self {
            TransactionKind::ProgrammableTransaction(pt) => {
                TransactionKindView::ProgrammableTransaction(pt@)
            },
            TransactionKind::AutonomousExecution(pt) => TransactionKindView::AutonomousExecution(
                pt@,
            ),
        }
    }
}

/// The gas that pays for a transaction.
#[derive(Debug, PartialEq, Eq)]
pub struct GasData {
    pub payment: Vec<ObjectRef>,
    pub owner: SuiAddress,
    pub price: u64,
    pub budget: u64,
}

/// What a [`GasData`] stands for.
pub ghost struct GasDataView {
    pub payment: Seq<ObjectRefView>,
    pub owner: SuiAddress,
    pub price: u64,
    pub budget: u64,
}

impl View for GasData {
    type V = GasDataView;

    open spec fn view(&self) -> GasDataView {
        GasDataView {
            payment: object_refs_view(self.payment@),
            owner: self.owner,
            price: self.price,
            budget: self.budget,
        }
    }
}

/// A transaction: what it does, who sends it, and the gas that pays for it.
#[derive(Debug, PartialEq, Eq)]
pub struct TransactionData {
    pub kind: TransactionKind,
    pub sender: SuiAddress,
    pub gas_data: GasData,
}

/// What a [`TransactionData`] stands for.
pub ghost struct TransactionDataView {
    pub kind: TransactionKindView,
    pub sender: SuiAddress,
    pub gas_data: GasDataView,
}

impl View for TransactionData {
    type V = TransactionDataView;

    open spec fn view(&self) -> TransactionDataView {
        TransactionDataView { kind: self.kind@, sender: self.sender, gas_data: self.gas_data@ }
    }
}

impl TransactionDataView {
    /// The addresses that must sign the transaction: the sender, and the owner
    /// of the gas where that is another address.
    pub open spec fn signers(self) -> Seq<SuiAddress> {
        if self.gas_data.owner == self.sender {
            seq![self.sender]
        } else {
            seq![self.sender, self.gas_data.owner]
        }
    }
}

impl TransactionData {
    /// A transaction whose sender pays for it with the coins `gas_payment`.
    pub fn new_with_gas_coins(
        kind: TransactionKind,
        sender: SuiAddress,
        gas_payment: Vec<ObjectRef>,
        gas_budget: u64,
        gas_price: u64,
    ) -> (r: TransactionData)
        ensures
            r@ == (TransactionDataView {
                kind: kind@,
                sender,
                gas_data: GasDataView {
                    payment: object_refs_view(gas_payment@),
                    owner: sender,
                    price: gas_price,
                    budget: gas_budget,
                },
            }),
    {
        TransactionData {
            kind,
            sender,
            gas_data: GasData {
                payment: gas_payment,
                owner: sender,
                price: gas_price,
                budget: gas_budget,
            },
        }
    }

    /// What the transaction does.
    pub fn kind(&self) -> (r: &TransactionKind)
        ensures
            r@ == self@.kind,
    {
        &self.kind
    }

    /// Who sends the transaction.
    pub fn sender(&self) -> (r: SuiAddress)
        ensures
            r == self@.sender,
    {
        self.sender
    }

    /// Who owns the gas that pays for the transaction.
    pub fn gas_owner(&self) -> (r: SuiAddress)
        ensures
            r == self@.gas_data.owner,
    {
        self.gas_data.owner
    }

    /// The most that the transaction may spend on gas.
    pub fn gas_budget(&self) -> (r: u64)
        ensures
            r == self@.gas_data.budget,
    {
        self.gas_data.budget
    }

    /// The price of a unit of gas.
    pub fn gas_price(&self) -> (r: u64)
        ensures
            r == self@.gas_data.price,
    {
        self.gas_data.price
    }

    /// The addresses that must sign the transaction.
    pub fn signers(&self) -> (r: Vec<SuiAddress>)
        ensures
            r@ == self@.signers(),
    {
        let mut signers: Vec<SuiAddress> = Vec::new();
        signers.push(self.sender);
        if self.gas_data.owner != self.sender {
            signers.push(self.gas_data.owner);
        }
        proof {
            assert(signers@ =~= self@.signers());
        }
        signers
    }
}

/// The key under which a transaction is found.
#[derive(Debug, Clone, Copy, PartialEq, Eq, Hash)]
pub enum TransactionKey {
    Digest(TransactionDigest),
}

// ---------------------------------------------------------------------------
// Canonical encoding
// ---------------------------------------------------------------------------
/// The canonical bytes of an object reference: identifier, version, digest.
pub open spec fn object_ref_encoding(r: ObjectRefView) -> Seq<u8> {
    r.0.bytes() + (le_bytes(r.1 as nat, 8) + r.2)
}

/// The canonical bytes of the first `n` object references, one after the
/// other.
pub open spec fn object_refs_joined(refs: Seq<ObjectRefView>, n: nat) -> Seq<u8>
    decreases n,
{
    if n == 0 || n > refs.len() {
        Seq::empty()
    } else {
        object_refs_joined(refs, (n - 1) as nat) + object_ref_encoding(refs[n - 1])
    }
}

/// The canonical bytes of an object argument: the number of its variant,
/// then what the variant holds.
pub open spec fn object_arg_encoding(arg: ObjectArgView) -> Seq<u8> {
    match arg {
        ObjectArgView::ImmOrOwnedObject(r) => seq![0u8] + object_ref_encoding(r),
        ObjectArgView::SharedObject { id, initial_shared_version, mutable } => seq![1u8] + (
        id.bytes() + (le_bytes(initial_shared_version as nat, 8) + bool_encoding(mutable))),
        ObjectArgView::Receiving(r) => seq![2u8] + object_ref_encoding(r),
    }
}

/// The canonical bytes of a call argument.
pub open spec fn call_arg_encoding(arg: CallArgView) -> Seq<u8> {
    match arg {
        CallArgView::Pure(bytes) => seq![0u8] + bytes_encoding(bytes),
        CallArgView::Object(object) => seq![1u8] + object_arg_encoding(object),
    }
}

/// The canonical bytes of the first `n` call arguments, one after the other.
pub open spec fn call_args_joined(args: Seq<CallArgView>, n: nat) -> Seq<u8>
    decreases n,
{
    if n == 0 || n > args.len() {
        Seq::empty()
    } else {
        call_args_joined(args, (n - 1) as nat) + call_arg_encoding(args[n - 1])
    }
}

impl ProgrammableTransactionView {
    /// The canonical bytes of the call: package, module, function, the list
    /// of type arguments, the list of arguments.
    pub open spec fn encoding(self) -> Seq<u8> {
        self.package.bytes() + (bytes_encoding(self.module) + (bytes_encoding(self.function) + (
        type_tags_encoding(self.type_arguments) + (uleb128(self.arguments.len())
            + call_args_joined(self.arguments, self.arguments.len())))))
    }
}

impl TransactionKindView {
    /// The canonical bytes of the kind: the number of its variant, then the
    /// call.
    pub open spec fn encoding(self) -> Seq<u8> {
        match self {
            TransactionKindView::ProgrammableTransaction(pt) => seq![0u8] + pt.encoding(),
            TransactionKindView::AutonomousExecution(pt) => seq![1u8] + pt.encoding(),
        }
    }
}

impl GasDataView {
    /// The canonical bytes of the gas data: the list of coins, the owner, the
    /// price, the budget.
    pub open spec fn encoding(self) -> Seq<u8> {
        uleb128(self.payment.len()) + (object_refs_joined(self.payment, self.payment.len()) + (
        be_bytes(self.owner.0 as nat, 16) + (le_bytes(self.price as nat, 8) + le_bytes(
            self.budget as nat,
            8,
        ))))
    }
}

impl TransactionDataView {
    /// The canonical bytes of the transaction: kind, sender, gas data.
    pub open spec fn encoding(self) -> Seq<u8> {
        self.kind.encoding() + (be_bytes(self.sender.0 as nat, 16) + self.gas_data.encoding())
    }
}

/// Appends the canonical bytes of an object reference.
pub fn write_object_ref(out: &mut Vec<u8>, r: &ObjectRef)
    ensures
        final(out)@ == old(out)@ + object_ref_encoding(object_ref_view(*r)),
{
    write_u128_be(out, r.0.0);
    write_u64_le(out, r.1);
    crate::object::write_digest(out, &r.2.0);
    proof {
        assert(out@ =~= old(out)@ + object_ref_encoding(object_ref_view(*r)));
    }
}

/// Appends the canonical bytes of an object argument.
pub fn write_object_arg(out: &mut Vec<u8>, arg: &ObjectArg)
    ensures
        final(out)@ == old(out)@ + object_arg_encoding(arg@),
{
    match arg {
        ObjectArg::ImmOrOwnedObject(r) => {
            out.push(0u8);
            write_object_ref(out, r);
        },
        ObjectArg::SharedObject { id, initial_shared_version, mutable } => {
            out.push(1u8);
            write_u128_be(out, id.0);
            write_u64_le(out, *initial_shared_version);
            write_bool(out, *mutable);
        },
        ObjectArg::Receiving(r) => {
            out.push(2u8);
            write_object_ref(out, r);
        },
    }
    proof {
        assert(out@ =~= old(out)@ + object_arg_encoding(arg@));
    }
}

/// Appends the canonical bytes of a call argument.
pub fn write_call_arg(out: &mut Vec<u8>, arg: &CallArg)
    ensures
        final(out)@ == old(out)@ + call_arg_encoding(arg@),
{
    match arg {
        CallArg::Pure(bytes) => {
            out.push(0u8);
            write_bytes(out, bytes);
        },
        CallArg::Object(object) => {
            out.push(1u8);
            write_object_arg(out, object);
        },
    }
    proof {
        assert(out@ =~= old(out)@ + call_arg_encoding(arg@));
    }
}

impl ProgrammableTransaction {
    /// Appends the canonical bytes of the call.
    pub fn write_to(&self, out: &mut Vec<u8>)
        ensures
            final(out)@ == old(out)@ + self@.encoding(),
    {
        write_u128_be(out, self.package.0);
        write_bytes(out, &self.module);
        write_bytes(out, &self.function);
        write_type_tags(out, &self.type_arguments);
        write_uleb128(out, self.arguments.len());
        let ghost head = out@;
        let ghost views = call_args_view(self.arguments@);
        let mut i: usize = 0;
        while i < self.arguments.len()
            invariant
                i <= self.arguments.len(),
                views == call_args_view(self.arguments@),
                out@ == head + call_args_joined(views, i as nat),
            decreases self.arguments.len() - i,
        {
            write_call_arg(out, &self.arguments[i]);
            proof {
                assert(call_args_joined(views, (i + 1) as nat) == call_args_joined(views, i as nat)
                    + call_arg_encoding(views[i as int]));
                assert(out@ =~= head + call_args_joined(views, (i + 1) as nat));
            }
            i += 1;
        }
        proof {
            assert(out@ =~= old(out)@ + self@.encoding());
        }
    }
}

impl TransactionData {
    /// Appends the canonical bytes of the transaction.
    pub fn write_to(&self, out: &mut Vec<u8>)
        ensures
            final(out)@ == old(out)@ + self@.encoding(),
    {
        match &self.kind {
            TransactionKind::ProgrammableTransaction(pt) => {
                out.push(0u8);
                pt.write_to(out);
            },
            TransactionKind::AutonomousExecution(pt) => {
                out.push(1u8);
                pt.write_to(out);
            },
        }
        proof {
            assert(out@ =~= old(out)@ + self@.kind.encoding());
        }
        write_u128_be(out, self.sender.0);
        let ghost before_gas = out@;
        write_uleb128(out, self.gas_data.payment.len());
        let ghost head = out@;
        let ghost views = object_refs_view(self.gas_data.payment@);
        let mut i: usize = 0;
        while i < self.gas_data.payment.len()
            invariant
                i <= self.gas_data.payment.len(),
                views == object_refs_view(self.gas_data.payment@),
                out@ == head + object_refs_joined(views, i as nat),
            decreases self.gas_data.payment.len() - i,
        {
            write_object_ref(out, &self.gas_data.payment[i]);
            proof {
                assert(object_refs_joined(views, (i + 1) as nat) == object_refs_joined(
                    views,
                    i as nat,
                ) + object_ref_encoding(views[i as int]));
                assert(out@ =~= head + object_refs_joined(views, (i + 1) as nat));
            }
            i += 1;
        }
        write_u128_be(out, self.gas_data.owner.0);
        write_u64_le(out, self.gas_data.price);
        write_u64_le(out, self.gas_data.budget);
        proof {
            assert(out@ =~= before_gas + self@.gas_data.encoding());
            assert(out@ =~= old(out)@ + self@.encoding());
        }
    }
}

// ---------------------------------------------------------------------------
// Copies
// ---------------------------------------------------------------------------
impl CallArg {
    /// A copy of the argument.
    pub fn duplicate(&self) -> (r: CallArg)
        ensures
            r@ == self@,
    {
        match self {
            CallArg::Pure(bytes) => CallArg::Pure(copy_bytes(bytes)),
            CallArg::Object(object) => CallArg::Object(*object),
        }
    }
}

impl ProgrammableTransaction {
    /// A copy of the call.
    pub fn duplicate(&self) -> (r: ProgrammableTransaction)
        ensures
            r@ == self@,
    {
        let mut arguments: Vec<CallArg> = Vec::new();
        let mut i: usize = 0;
        while i < self.arguments.len()
            invariant
                i <= self.arguments.len(),
                arguments@.len() == i,
                forall|j: int| 0 <= j < i ==> arguments@[j]@ == self.arguments@[j]@,
            decreases self.arguments.len() - i,
        {
            arguments.push(self.arguments[i].duplicate());
            i += 1;
        }
        proof {
            assert(call_args_view(arguments@) =~= call_args_view(self.arguments@));
        }
        ProgrammableTransaction {
            package: self.package,
            module: copy_bytes(&self.module),
            function: copy_bytes(&self.function),
            type_arguments: copy_type_tags(&self.type_arguments),
            arguments,
        }
    }
}

impl TransactionData {
    /// A copy of the transaction.
    pub fn duplicate(&self) -> (r: TransactionData)
        ensures
            r@ == self@,
    {
        let kind = match &self.kind {
            TransactionKind::ProgrammableTransaction(pt) => {
                TransactionKind::ProgrammableTransaction(pt.duplicate())
            },
            TransactionKind::AutonomousExecution(pt) => TransactionKind::AutonomousExecution(
                pt.duplicate(),
            ),
        };
        let mut payment: Vec<ObjectRef> = Vec::new();
        let mut i: usize = 0;
        while i < self.gas_data.payment.len()
            invariant
                i <= self.gas_data.payment.len(),
                payment@ == self.gas_data.payment@.take(i as int),
            decreases self.gas_data.payment.len() - i,
        {
            payment.push(self.gas_data.payment[i]);
            proof {
                assert(payment@ =~= self.gas_data.payment@.take(i + 1));
            }
            i += 1;
        }
        proof {
            assert(self.gas_data.payment@.take(self.gas_data.payment@.len() as int)
                =~= self.gas_data.payment@);
        }
        TransactionData {
            kind,
            sender: self.sender,
            gas_data: GasData {
                payment,
                owner: self.gas_data.owner,
                price: self.gas_data.price,
                budget: self.gas_data.budget,
            },
        }
    }
}

} // verus!
