//! The schema facts an encoder is built from: numeric and length limits,
//! and the kinds of type description.
use crate::text::bytes_eq;
use vstd::prelude::*;
use vstd::string::StringSliceAdditionalSpecFns;

verus! {

/// Bounds of a numeric type.
#[derive(Clone, Copy, Debug)]
pub struct NumberTypeInfo<T> {
    pub min: Option<T>,
    pub max: Option<T>,
    pub inclusive_min: bool,
    pub inclusive_max: bool,
}

/// Length limits of a string type, in characters.
#[derive(Clone, Copy, Debug)]
pub struct StringTypeInfo {
    pub min_length: Option<usize>,
    pub max_length: Option<usize>,
}

/// A reference to a type resolved later, by the identity of its description.
#[derive(Clone, Copy, Debug)]
pub struct RecursionHolderInfo {
    pub inner_type_id: usize,
}

/// The kinds of type description.
#[derive(Copy, Clone, Debug, PartialEq, Eq, Structural)]
pub enum TypeTag {
    NoneType,
    Never,
    Integer,
    Float,
    Decimal,
    String,
    Boolean,
    Uuid,
    Time,
    DateTime,
    Date,
    Bytes,
    Any,
    Entity,
    TypedDict,
    Array,
    Enum,
    Optional,
    Dictionary,
    Tuple,
    Union,
    DiscriminatedUnion,
    Literal,
    RecursionHolder,
    Custom,
}

/// The kind a type-description class stands for, by the class's name.
pub open spec fn type_tag_spec(name: Seq<u8>) -> Option<TypeTag> {
    if name == "NoneType".spec_bytes() {
        Some(TypeTag::NoneType)
    } else if name == "NeverType".spec_bytes() {
        Some(TypeTag::Never)
    } else if name == "IntegerType".spec_bytes() {
        Some(TypeTag::Integer)
    } else if name == "FloatType".spec_bytes() {
        Some(TypeTag::Float)
    } else if name == "DecimalType".spec_bytes() {
        Some(TypeTag::Decimal)
    } else if name == "StringType".spec_bytes() {
        Some(TypeTag::String)
    } else if name == "BooleanType".spec_bytes() {
        Some(TypeTag::Boolean)
    } else if name == "UUIDType".spec_bytes() {
        Some(TypeTag::Uuid)
    } else if name == "TimeType".spec_bytes() {
        Some(TypeTag::Time)
    } else if name == "DateTimeType".spec_bytes() {
        Some(TypeTag::DateTime)
    } else if name == "DateType".spec_bytes() {
        Some(TypeTag::Date)
    } else if name == "BytesType".spec_bytes() {
        Some(TypeTag::Bytes)
    } else if name == "AnyType".spec_bytes() {
        Some(TypeTag::Any)
    } else if name == "EntityType".spec_bytes() {
        Some(TypeTag::Entity)
    } else if name == "TypedDictType".spec_bytes() {
        Some(TypeTag::TypedDict)
    } else if name == "ArrayType".spec_bytes() {
        Some(TypeTag::Array)
    } else if name == "EnumType".spec_bytes() {
        Some(TypeTag::Enum)
    } else if name == "OptionalType".spec_bytes() {
        Some(TypeTag::Optional)
    } else if name == "DictionaryType".spec_bytes() {
        Some(TypeTag::Dictionary)
    } else if name == "TupleType".spec_bytes() {
        Some(TypeTag::Tuple)
    } else if name == "UnionType".spec_bytes() {
        Some(TypeTag::Union)
    } else if name == "DiscriminatedUnionType".spec_bytes() {
        Some(TypeTag::DiscriminatedUnion)
    } else if name == "LiteralType".spec_bytes() {
        Some(TypeTag::Literal)
    } else if name == "RecursionHolder".spec_bytes() {
        Some(TypeTag::RecursionHolder)
    } else if name == "CustomType".spec_bytes() {
        Some(TypeTag::Custom)
    } else {
        None
    }
}

/// The kind a type-description class stands for, by the class's name.
pub fn type_tag_for_class(name: &str) -> (r: Option<TypeTag>)
    ensures
        r == type_tag_spec(name.spec_bytes()),
{
    let n = name.as_bytes();
    if bytes_eq(n, "NoneType".as_bytes()) {
        Some(TypeTag::NoneType)
    } else if bytes_eq(n, "NeverType".as_bytes()) {
        Some(TypeTag::Never)
    } else if bytes_eq(n, "IntegerType".as_bytes()) {
        Some(TypeTag::Integer)
    } else if bytes_eq(n, "FloatType".as_bytes()) {
        Some(TypeTag::Float)
    } else if bytes_eq(n, "DecimalType".as_bytes()) {
        Some(TypeTag::Decimal)
    } else if bytes_eq(n, "StringType".as_bytes()) {
        Some(TypeTag::String)
    } else if bytes_eq(n, "BooleanType".as_bytes()) {
        Some(TypeTag::Boolean)
    } else if bytes_eq(n, "UUIDType".as_bytes()) {
        Some(TypeTag::Uuid)
    } else if bytes_eq(n, "TimeType".as_bytes()) {
        Some(TypeTag::Time)
    } else if bytes_eq(n, "DateTimeType".as_bytes()) {
        Some(TypeTag::DateTime)
    } else if bytes_eq(n, "DateType".as_bytes()) {
        Some(TypeTag::Date)
    } else if bytes_eq(n, "BytesType".as_bytes()) {
        Some(TypeTag::Bytes)
    } else if bytes_eq(n, "AnyType".as_bytes()) {
        Some(TypeTag::Any)
    } else if bytes_eq(n, "EntityType".as_bytes()) {
        Some(TypeTag::Entity)
    } else if bytes_eq(n, "TypedDictType".as_bytes()) {
        Some(TypeTag::TypedDict)
    } else if bytes_eq(n, "ArrayType".as_bytes()) {
        Some(TypeTag::Array)
    } else if bytes_eq(n, "EnumType".as_bytes()) {
        Some(TypeTag::Enum)
    } else if bytes_eq(n, "OptionalType".as_bytes()) {
        Some(TypeTag::Optional)
    } else if bytes_eq(n, "DictionaryType".as_bytes()) {
        Some(TypeTag::Dictionary)
    } else if bytes_eq(n, "TupleType".as_bytes()) {
        Some(TypeTag::Tuple)
    } else if bytes_eq(n, "UnionType".as_bytes()) {
        Some(TypeTag::Union)
    } else if bytes_eq(n, "DiscriminatedUnionType".as_bytes()) {
        Some(TypeTag::DiscriminatedUnion)
    } else if bytes_eq(n, "LiteralType".as_bytes()) {
        Some(TypeTag::Literal)
    } else if bytes_eq(n, "RecursionHolder".as_bytes()) {
        Some(TypeTag::RecursionHolder)
    } else if bytes_eq(n, "CustomType".as_bytes()) {
        Some(TypeTag::Custom)
    } else {
        None
    }
}

/// The kinds whose type keeps the identity of its description (container
/// kinds, which may be reached again through a recursive reference).
pub open spec fn keeps_identity_spec(tag: TypeTag) -> bool {
    match tag {
        TypeTag::Entity | TypeTag::TypedDict | TypeTag::Array | TypeTag::Optional
        | TypeTag::Dictionary | TypeTag::Tuple | TypeTag::Union | TypeTag::DiscriminatedUnion => true,
        _ => false,
    }
}

pub fn keeps_identity(tag: TypeTag) -> (r: bool)
    ensures
        r == keeps_identity_spec(tag),
{
    match tag {
        TypeTag::Entity | TypeTag::TypedDict | TypeTag::Array | TypeTag::Optional
        | TypeTag::Dictionary | TypeTag::Tuple | TypeTag::Union | TypeTag::DiscriminatedUnion => true,
        _ => false,
    }
}

/// `[a, b, ...]`: the items' texts separated by `, `, in brackets.
pub open spec fn items_repr_spec(items: Seq<Seq<char>>) -> Seq<char> {
    "["@ + joined(items) + "]"@
}

pub open spec fn joined(items: Seq<Seq<char>>) -> Seq<char>
    decreases items.len(),
{
    if items.len() == 0 {
        Seq::empty()
    } else if items.len() == 1 {
        items[0]
    } else {
        joined(items.drop_last()) + ", "@ + items.last()
    }
}

/// The text of the values of an enumeration or literal type.
pub fn items_repr(items: &[String]) -> (r: String)
    ensures
        r@ == items_repr_spec(items@.map_values(|s: String| s@)),
{
    let ghost texts = items@.map_values(|s: String| s@);
    let mut out = String::from_str("[");
    let mut i: usize = 0;
    while i < items.len()
        invariant
            i <= items@.len(),
            texts == items@.map_values(|s: String| s@),
            out@ == "["@ + joined(texts.subrange(0, i as int)),
        decreases items@.len() - i,
    {
        let ghost prev = texts.subrange(0, i as int);
        let ghost next = texts.subrange(0, i as int + 1);
        assert(next.drop_last() =~= prev);
        if i > 0 {
            out.append(", ");
        }
        out.append(items[i].as_str());
        i += 1;
        assert(next.last() == items@[i - 1]@);
        if i == 1 {
            assert(out@ =~= "["@ + joined(next));
        } else {
            assert(out@ =~= "["@ + joined(next));
        }
    }
    assert(texts.subrange(0, i as int) =~= texts);
    out.append("]");
    out
}

} // verus!
