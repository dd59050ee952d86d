//! Type tags: the names of the types that values on chain have.
use crate::base_types::ObjectID;
use crate::wire::{bytes_encoding, uleb128, write_bytes, write_u128_be, write_uleb128};
use move_core_types::identifier::Identifier;
use vstd::prelude::*;

verus! {

/// The type of a value.
#[derive(Debug, PartialEq, Eq)]
pub enum MoveType {
    Bool,
    U8,
    U64,
    U128,
    Address,
    Signer,
    Vector(Box<MoveType>),
    Struct(Box<StructType>),
}

/// The type of a struct: where it is declared, and its type arguments.
#[derive(Debug, PartialEq, Eq)]
pub struct StructType {
    pub address: ObjectID,
    pub module: Vec<u8>,
    pub name: Vec<u8>,
    pub type_params: Vec<MoveType>,
}

/// How a value of a type is laid out.
#[derive(Debug, PartialEq, Eq)]
pub enum MoveTypeLayout {
    Bool,
    U8,
    U64,
    U128,
    Address,
    Vector(Box<MoveTypeLayout>),
    Signer,
}

/// A field of a struct: its name and how its value is laid out.
#[derive(Debug, PartialEq, Eq)]
pub struct MoveFieldLayout {
    pub name: String,
    pub layout: MoveTypeLayout,
}

impl MoveFieldLayout {
    /// The field `name` with the layout `layout`.
    pub fn new(name: String, layout: MoveTypeLayout) -> (r: Self)
        ensures
            r.name == name,
            r.layout == layout,
    {
        MoveFieldLayout { name, layout }
    }
}

/// How a value of a struct type is laid out: the type, and the fields in
/// their order.
#[derive(Debug, PartialEq, Eq)]
pub struct MoveStructLayout {
    pub type_: StructType,
    pub fields: Vec<MoveFieldLayout>,
}

/// What a [`MoveType`] stands for.
pub ghost enum MoveTypeView {
    Bool,
    U8,
    U64,
    U128,
    Address,
    Signer,
    Vector(Box<MoveTypeView>),
    Struct(Box<StructTypeView>),
}

/// What a [`StructType`] stands for.
pub ghost struct StructTypeView {
    pub address: ObjectID,
    pub module: Seq<u8>,
    pub name: Seq<u8>,
    pub type_params: Seq<MoveTypeView>,
}

/// What a type tag stands for: the same tag, with what its struct tags
/// stand for.
pub open spec fn type_tag_view(t: MoveType) -> MoveTypeView
    decreases t,
{
    match t {
        MoveType::Bool => MoveTypeView::Bool,
        MoveType::U8 => MoveTypeView::U8,
        MoveType::U64 => MoveTypeView::U64,
        MoveType::U128 => MoveTypeView::U128,
        MoveType::Address => MoveTypeView::Address,
        MoveType::Signer => MoveTypeView::Signer,
        MoveType::Vector(inner) => MoveTypeView::Vector(Box::new(type_tag_view(*inner))),
        MoveType::Struct(tag) => MoveTypeView::Struct(Box::new(struct_tag_view(*tag))),
    }
}

/// What a struct tag stands for: its address, the bytes of its names, and
/// what its type arguments stand for.
pub open spec fn struct_tag_view(s: StructType) -> StructTypeView
    decreases s,
{
    StructTypeView {
        address: s.address,
        module: s.module@,
        name: s.name@,
        type_params: Seq::new(
            s.type_params@.len(),
            |i: int|
                if 0 <= i < s.type_params@.len() {
                    type_tag_view(s.type_params@[i])
                } else {
                    MoveTypeView::Bool
                },
        ),
    }
}

impl View for MoveType {
    type V = MoveTypeView;

    open spec fn view(&self) -> MoveTypeView {
        type_tag_view(*self)
    }
}

impl View for StructType {
    type V = StructTypeView;

    open spec fn view(&self) -> StructTypeView {
        struct_tag_view(*self)
    }
}

/// What a list of type tags stands for.
pub open spec fn type_tags_view(tags: Seq<MoveType>) -> Seq<MoveTypeView> {
    Seq::new(tags.len(), |i: int| tags[i]@)
}

/// The view of a struct tag lists the views of its type arguments.
pub proof fn lemma_struct_tag_view(s: StructType)
    ensures
        s@.address == s.address,
        s@.module == s.module@,
        s@.name == s.name@,
        s@.type_params == type_tags_view(s.type_params@),
{
    assert(s@.type_params =~= type_tags_view(s.type_params@));
}

/// Whether two byte strings hold the same bytes.
pub fn same_bytes(a: &Vec<u8>, b: &Vec<u8>) -> (r: bool)
    ensures
        r == (a@ == b@),
{
    if a.len() != b.len() {
        return false;
    }
    let mut i: usize = 0;
    while i < a.len()
        invariant
            i <= a.len(),
            a.len() == b.len(),
            forall|j: int| 0 <= j < i ==> a@[j] == b@[j],
        decreases a.len() - i,
    {
        if a[i] != b[i] {
            return false;
        }
        i += 1;
    }
    assert(a@ =~= b@);
    true
}

/// A copy of a byte string.
pub fn copy_bytes(a: &Vec<u8>) -> (r: Vec<u8>)
    ensures
        r@ == a@,
{
    let mut out: Vec<u8> = Vec::new();
    let mut i: usize = 0;
    while i < a.len()
        invariant
            i <= a.len(),
            out@ == a@.take(i as int),
        decreases a.len() - i,
    {
        out.push(a[i]);
        proof {
            assert(a@.take(i + 1) =~= a@.take(i as int).push(a@[i as int]));
        }
        i += 1;
    }
    proof {
        assert(a@.take(a@.len() as int) =~= a@);
    }
    out
}

/// Whether two type tags name the same type.
pub fn same_type_tag(a: &MoveType, b: &MoveType) -> (r: bool)
    ensures
        r == (a@ == b@),
    decreases a,
{
    match (a, b) {
        (MoveType::Bool, MoveType::Bool) => true,
        (MoveType::U8, MoveType::U8) => true,
        (MoveType::U64, MoveType::U64) => true,
        (MoveType::U128, MoveType::U128) => true,
        (MoveType::Address, MoveType::Address) => true,
        (MoveType::Signer, MoveType::Signer) => true,
        (MoveType::Vector(x), MoveType::Vector(y)) => same_type_tag(x, y),
        (MoveType::Struct(x), MoveType::Struct(y)) => same_struct_tag(x, y),
        _ => false,
    }
}

/// Whether two struct tags name the same struct type.
pub fn same_struct_tag(a: &StructType, b: &StructType) -> (r: bool)
    ensures
        r == (a@ == b@),
    decreases a,
{
    proof {
        lemma_struct_tag_view(*a);
        lemma_struct_tag_view(*b);
    }
    if a.address != b.address || !same_bytes(&a.module, &b.module) || !same_bytes(
        &a.name,
        &b.name,
    ) {
        return false;
    }
    if a.type_params.len() != b.type_params.len() {
        assert(a@.type_params.len() != b@.type_params.len());
        return false;
    }
    let mut i: usize = 0;
    while i < a.type_params.len()
        invariant
            i <= a.type_params.len(),
            a.type_params.len() == b.type_params.len(),
            a@.type_params == type_tags_view(a.type_params@),
            b@.type_params == type_tags_view(b.type_params@),
            forall|j: int| 0 <= j < i ==> a.type_params@[j]@ == b.type_params@[j]@,
        decreases a.type_params.len() - i,
    {
        if !same_type_tag(&a.type_params[i], &b.type_params[i]) {
            assert(a@.type_params[i as int] != b@.type_params[i as int]);
            return false;
        }
        i += 1;
    }
    assert(a@.type_params =~= b@.type_params);
    true
}

/// A copy of a type tag.
pub fn copy_type_tag(t: &MoveType) -> (r: MoveType)
    ensures
        r@ == t@,
    decreases t,
{
    match t {
        MoveType::Bool => MoveType::Bool,
        MoveType::U8 => MoveType::U8,
        MoveType::U64 => MoveType::U64,
        MoveType::U128 => MoveType::U128,
        MoveType::Address => MoveType::Address,
        MoveType::Signer => MoveType::Signer,
        MoveType::Vector(inner) => MoveType::Vector(Box::new(copy_type_tag(inner))),
        MoveType::Struct(tag) => MoveType::Struct(Box::new(copy_struct_tag(tag))),
    }
}

/// A copy of a struct tag.
pub fn copy_struct_tag(s: &StructType) -> (r: StructType)
    ensures
        r@ == s@,
    decreases s,
{
    let mut params: Vec<MoveType> = Vec::new();
    let mut i: usize = 0;
    while i < s.type_params.len()
        invariant
            i <= s.type_params.len(),
            params@.len() == i,
            forall|j: int| 0 <= j < i ==> params@[j]@ == s.type_params@[j]@,
        decreases s.type_params.len() - i,
    {
        params.push(copy_type_tag(&s.type_params[i]));
        i += 1;
    }
    let r = StructType {
        address: s.address,
        module: copy_bytes(&s.module),
        name: copy_bytes(&s.name),
        type_params: params,
    };
    proof {
        lemma_struct_tag_view(r);
        lemma_struct_tag_view(*s);
        assert(r@.type_params =~= s@.type_params);
    }
    r
}

/// A copy of a list of type tags.
pub fn copy_type_tags(tags: &Vec<MoveType>) -> (r: Vec<MoveType>)
    ensures
        type_tags_view(r@) == type_tags_view(tags@),
{
    let mut out: Vec<MoveType> = Vec::new();
    let mut i: usize = 0;
    while i < tags.len()
        invariant
            i <= tags.len(),
            out@.len() == i,
            forall|j: int| 0 <= j < i ==> out@[j]@ == tags@[j]@,
        decreases tags.len() - i,
    {
        out.push(copy_type_tag(&tags[i]));
        i += 1;
    }
    proof {
        assert(type_tags_view(out@) =~= type_tags_view(tags@));
    }
    out
}

impl Clone for MoveType {
    fn clone(&self) -> (r: Self)
        ensures
            r@ == self@,
    {
        copy_type_tag(self)
    }
}

impl Clone for StructType {
    fn clone(&self) -> (r: Self)
        ensures
            r@ == self@,
    {
        copy_struct_tag(self)
    }
}

// ---------------------------------------------------------------------------
// Canonical encoding
// ---------------------------------------------------------------------------
/// The canonical bytes of a type tag: the number of its variant, then what
/// the variant holds.
pub open spec fn type_tag_encoding(t: MoveTypeView) -> Seq<u8>
    decreases t,
{
    match t {
        MoveTypeView::Bool => seq![0u8],
        MoveTypeView::U8 => seq![1u8],
        MoveTypeView::U64 => seq![2u8],
        MoveTypeView::U128 => seq![3u8],
        MoveTypeView::Address => seq![4u8],
        MoveTypeView::Signer => seq![5u8],
        MoveTypeView::Vector(inner) => seq![6u8] + type_tag_encoding(*inner),
        MoveTypeView::Struct(tag) => seq![7u8] + struct_tag_encoding(*tag),
    }
}

/// The canonical bytes of a struct tag: address, module, name, and the list
/// of type arguments.
pub open spec fn struct_tag_encoding(s: StructTypeView) -> Seq<u8>
    decreases s,
{
    s.address.bytes() + bytes_encoding(s.module) + bytes_encoding(s.name) + uleb128(
        s.type_params.len(),
    ) + type_tags_joined(s.type_params, s.type_params.len())
}

/// The canonical bytes of the first `n` type tags of `tags`, one after the
/// other.
pub open spec fn type_tags_joined(tags: Seq<MoveTypeView>, n: nat) -> Seq<u8>
    decreases tags, n,
{
    if n == 0 || n > tags.len() {
        Seq::empty()
    } else {
        type_tags_joined(tags, (n - 1) as nat) + type_tag_encoding(tags[n - 1])
    }
}

/// The canonical bytes of a list of type tags: its length, then the tags.
pub open spec fn type_tags_encoding(tags: Seq<MoveTypeView>) -> Seq<u8> {
    uleb128(tags.len()) + type_tags_joined(tags, tags.len())
}

/// Appends the canonical bytes of a type tag.
pub fn write_type_tag(out: &mut Vec<u8>, t: &MoveType)
    ensures
        final(out)@ == old(out)@ + type_tag_encoding(t@),
    decreases t,
{
    match t {
        MoveType::Bool => {
            out.push(0u8);
            assert(out@ =~= old(out)@ + type_tag_encoding(t@));
        },
        MoveType::U8 => {
            out.push(1u8);
            assert(out@ =~= old(out)@ + type_tag_encoding(t@));
        },
        MoveType::U64 => {
            out.push(2u8);
            assert(out@ =~= old(out)@ + type_tag_encoding(t@));
        },
        MoveType::U128 => {
            out.push(3u8);
            assert(out@ =~= old(out)@ + type_tag_encoding(t@));
        },
        MoveType::Address => {
            out.push(4u8);
            assert(out@ =~= old(out)@ + type_tag_encoding(t@));
        },
        MoveType::Signer => {
            out.push(5u8);
            assert(out@ =~= old(out)@ + type_tag_encoding(t@));
        },
        MoveType::Vector(inner) => {
            out.push(6u8);
            write_type_tag(out, inner);
            assert(out@ =~= old(out)@ + type_tag_encoding(t@));
        },
        MoveType::Struct(tag) => {
            out.push(7u8);
            write_struct_tag(out, tag);
            assert(out@ =~= old(out)@ + type_tag_encoding(t@));
        },
    }
}

/// Appends the canonical bytes of a struct tag.
pub fn write_struct_tag(out: &mut Vec<u8>, s: &StructType)
    ensures
        final(out)@ == old(out)@ + struct_tag_encoding(s@),
    decreases s,
{
    proof {
        lemma_struct_tag_view(*s);
    }
    write_u128_be(out, s.address.0);
    write_bytes(out, &s.module);
    write_bytes(out, &s.name);
    write_uleb128(out, s.type_params.len());
    let ghost head = out@;
    let mut i: usize = 0;
    while i < s.type_params.len()
        invariant
            i <= s.type_params.len(),
            s@.type_params == type_tags_view(s.type_params@),
            out@ == head + type_tags_joined(s@.type_params, i as nat),
        decreases s.type_params.len() - i,
    {
        write_type_tag(out, &s.type_params[i]);
        proof {
            assert(type_tags_joined(s@.type_params, (i + 1) as nat) == type_tags_joined(
                s@.type_params,
                i as nat,
            ) + type_tag_encoding(s@.type_params[i as int]));
            assert(out@ =~= head + type_tags_joined(s@.type_params, (i + 1) as nat));
        }
        i += 1;
    }
    proof {
        assert(out@ =~= old(out)@ + struct_tag_encoding(s@));
    }
}

/// Appends the canonical bytes of a list of type tags.
pub fn write_type_tags(out: &mut Vec<u8>, tags: &Vec<MoveType>)
    ensures
        final(out)@ == old(out)@ + type_tags_encoding(type_tags_view(tags@)),
{
    let ghost views = type_tags_view(tags@);
    write_uleb128(out, tags.len());
    let ghost head = out@;
    let mut i: usize = 0;
    while i < tags.len()
        invariant
            i <= tags.len(),
            views == type_tags_view(tags@),
            out@ == head + type_tags_joined(views, i as nat),
        decreases tags.len() - i,
    {
        write_type_tag(out, &tags[i]);
        proof {
            assert(type_tags_joined(views, (i + 1) as nat) == type_tags_joined(views, i as nat)
                + type_tag_encoding(views[i as int]));
            assert(out@ =~= head + type_tags_joined(views, (i + 1) as nat));
        }
        i += 1;
    }
    proof {
        assert(out@ =~= old(out)@ + type_tags_encoding(views));
    }
}

// ---------------------------------------------------------------------------
// Identifiers
// ---------------------------------------------------------------------------
/// Whether `b` is an ASCII letter.
pub open spec fn is_identifier_letter(b: u8) -> bool {
    (0x61 <= b <= 0x7a) || (0x41 <= b <= 0x5a)
}

/// Whether `b` may stand in an identifier: a letter, a digit or an
/// underscore.
pub open spec fn is_identifier_char(b: u8) -> bool {
    is_identifier_letter(b) || (0x30 <= b <= 0x39) || b == 0x5f
}

/// Whether `s` is the name of a module, a struct or a function: a letter and
/// then letters, digits or underscores; or an underscore and then at least one
/// of them; or the word `<SELF>`.
pub open spec fn is_valid_identifier(s: Seq<u8>) -> bool {
    ||| s == seq![0x3cu8, 0x53u8, 0x45u8, 0x4cu8, 0x46u8, 0x3eu8]
    ||| {
        &&& s.len() >= 1
        &&& is_identifier_letter(s[0]) || (s[0] == 0x5f && s.len() > 1)
        &&& forall|i: int| 1 <= i < s.len() ==> is_identifier_char(#[trigger] s[i])
    }
}

/// Asks `move_core_types::identifier::Identifier::from_utf8` whether it takes
/// `bytes` as an identifier. The contract states the rule that the function
/// applies to the bytes: it was not proved, it is the crate's.
#[verifier::external_body]
pub(crate) fn valid_identifier(bytes: &Vec<u8>) -> (r: bool)
    ensures
        r == is_valid_identifier(bytes@),
{
    Identifier::from_utf8(bytes.clone()).is_ok()
}

// ---------------------------------------------------------------------------
// Decoding
// ---------------------------------------------------------------------------
/// The type tag of `move_core_types`, as the decoder hands it out. Nothing
/// is known of what a value of it holds.
#[verifier::external_type_specification]
#[verifier::external_body]
pub struct ExMoveTypeTag(move_core_types::language_storage::TypeTag);

/// The struct tag of `move_core_types`, as the decoder hands it out. Nothing
/// is known of what a value of it holds.
#[verifier::external_type_specification]
#[verifier::external_body]
pub struct ExMoveStructTag(move_core_types::language_storage::StructTag);

/// The list of type tags that `bcs::from_bytes` reads from `bytes` as a
/// `Vec` of type tags of `move_core_types`, or `None` where it
/// refuses the bytes.
pub uninterp spec fn decoded_type_tags(bytes: Seq<u8>) -> Option<Seq<MoveTypeView>>;

/// Turns a type tag of `move_core_types` into one of this library, variant
/// for variant. Nothing is claimed of the result.
#[verifier::external_body]
fn type_tag_from_move(tag: &move_core_types::language_storage::TypeTag) -> MoveType {
    match tag {
        move_core_types::language_storage::TypeTag::Bool => MoveType::Bool,
        move_core_types::language_storage::TypeTag::U8 => MoveType::U8,
        move_core_types::language_storage::TypeTag::U64 => MoveType::U64,
        move_core_types::language_storage::TypeTag::U128 => MoveType::U128,
        move_core_types::language_storage::TypeTag::Address => MoveType::Address,
        move_core_types::language_storage::TypeTag::Signer => MoveType::Signer,
        move_core_types::language_storage::TypeTag::Vector(inner) => MoveType::Vector(
            Box::new(type_tag_from_move(inner)),
        ),
        move_core_types::language_storage::TypeTag::Struct(tag) => MoveType::Struct(
            Box::new(struct_tag_from_move(tag)),
        ),
    }
}

/// Turns a struct tag of `move_core_types` into one of this library, field
/// for field. Nothing is claimed of the result.
#[verifier::external_body]
fn struct_tag_from_move(tag: &move_core_types::language_storage::StructTag) -> StructType {
    StructType {
        address: ObjectID::new(tag.address.into_bytes()),
        module: tag.module.as_bytes().to_vec(),
        name: tag.name.as_bytes().to_vec(),
        type_params: tag.type_params.iter().map(type_tag_from_move).collect(),
    }
}

/// Decodes a list of type tags with `bcs::from_bytes`, as a `Vec` of
/// `move_core_types::language_storage::TypeTag`. The contract gives what the
/// call returns a name, and claims nothing else of it.
#[verifier::external_body]
pub(crate) fn decode_type_tags(bytes: &[u8]) -> (r: Option<Vec<MoveType>>)
    ensures
        match r {
            Some(tags) => decoded_type_tags(bytes@) == Some(type_tags_view(tags@)),
            None => decoded_type_tags(bytes@) is None,
        },
{
    bcs::from_bytes::<Vec<move_core_types::language_storage::TypeTag>>(bytes).ok().map(
        |tags| tags.iter().map(type_tag_from_move).collect(),
    )
}

} // verus!
