//! What encoder each node of a type description gets: its kind and
//! settings, whether it is registered for recursive references, and whether
//! a custom serialize / deserialize pair wraps it. The caller walks the type
//! description, asks for the plan of each node and builds the encoders.
use vstd::prelude::*;

verus! {

/// The custom functions a type description carries: whether `serialize`
/// and `deserialize` are set.
#[derive(Debug, Clone, Copy, PartialEq, Eq, Structural)]
pub struct CustomFns {
    pub serialize: bool,
    pub deserialize: bool,
}

/// A field of an entity or typed dict, as far as its encoder's settings
/// depend on it.
#[derive(Debug, Clone, Copy, PartialEq, Eq, Structural)]
pub struct FieldFacts {
    pub required: bool,
    pub flattened: bool,
}

/// A string type's length limits and custom functions: what decides
/// whether a dictionary key is read as a plain string.
#[derive(Debug, Clone, Copy, PartialEq, Eq, Structural)]
pub struct KeyFacts {
    pub is_string: bool,
    pub min_length: Option<usize>,
    pub max_length: Option<usize>,
    pub custom: Option<CustomFns>,
}

/// One node of a type description, with the facts of its children that its
/// own encoder depends on. `id` is the identity of the description object.
pub enum TypeShape {
    NoneType,
    Never,
    Integer,
    Float,
    Decimal,
    String,
    Boolean,
    Uuid,
    Bytes,
    Time,
    DateTime,
    Date,
    Any,
    Literal,
    Enum,
    Optional { id: usize },
    Dictionary { id: usize, omit_none: bool, key: KeyFacts },
    Array { id: usize, min_length: Option<usize>, max_length: Option<usize> },
    Tuple { id: usize },
    Union { id: usize },
    DiscriminatedUnion { id: usize },
    Entity { id: usize, omit_none: bool, is_frozen: bool, fields: Vec<FieldFacts> },
    TypedDict { id: usize, omit_none: bool, fields: Vec<FieldFacts> },
    RecursionHolder { inner_id: usize },
    Custom,
}

pub struct TypeNode {
    pub shape: TypeShape,
    pub custom: Option<CustomFns>,
}

/// The encoder a node gets, with its settings.
#[derive(Debug, Clone, Copy, PartialEq, Eq, Structural)]
pub enum EncoderKind {
    NoneValue,
    Never,
    Integer,
    Float,
    Decimal,
    String,
    Boolean,
    Uuid,
    Bytes,
    Time,
    DateTime { naive_datetime_to_utc: bool },
    Date,
    Noop,
    Literal,
    Enum,
    Optional,
    Dictionary { omit_none: bool, key_is_plain_str: bool },
    Array { min_length: Option<usize>, max_length: Option<usize> },
    Tuple,
    Union,
    DiscriminatedUnion,
    Entity { omit_none: bool, is_frozen: bool, dump_sized: bool, has_flatten: bool },
    TypedDict { omit_none: bool, dump_sized: bool, has_flatten: bool },
    /// Resolves to the encoder registered under this identity.
    Lazy { inner_id: usize },
    /// A custom type: its own `serialize` and `deserialize` do the work.
    CustomType,
}

#[derive(Debug, Clone, Copy, PartialEq, Eq, Structural)]
pub struct EncoderPlan {
    pub kind: EncoderKind,
    /// Registered under this identity, for recursive references to it.
    pub register_as: Option<usize>,
    /// Wrapped by these custom functions.
    pub wrap: Option<CustomFns>,
}

/// A custom type lacks `serialize` or `deserialize`.
#[derive(Debug, Clone, Copy, PartialEq, Eq, Structural)]
pub struct IncompleteCustomType;

impl IncompleteCustomType {
    /// The message of the error raised for it.
    pub fn message(&self) -> (r: String)
        ensures
            r@ == incomplete_custom_message(),
    {
        String::from_str("CustomType must have both serialize and deserialize methods")
    }
}

pub open spec fn incomplete_custom_message() -> Seq<char> {
    "CustomType must have both serialize and deserialize methods"@
}

/// A custom pair wraps an encoder when at least one of its functions is set.
pub open spec fn wrap_of(custom: Option<CustomFns>) -> Option<CustomFns> {
    match custom {
        Some(c) => if c.serialize || c.deserialize { Some(c) } else { None },
        None => None,
    }
}

/// A dictionary key is read as a plain string when it is a string type with
/// no length limits and no custom functions.
pub open spec fn plain_str_key(k: KeyFacts) -> bool {
    k.is_string && k.min_length is None && k.max_length is None && k.custom is None
}

pub open spec fn all_required(fields: Seq<FieldFacts>) -> bool {
    forall|i: int| 0 <= i < fields.len() ==> #[trigger] fields[i].required
}

pub open spec fn some_flattened(fields: Seq<FieldFacts>) -> bool {
    exists|i: int| 0 <= i < fields.len() && #[trigger] fields[i].flattened
}

pub open spec fn plan(kind: EncoderKind, register_as: Option<usize>, custom: Option<CustomFns>) -> EncoderPlan {
    EncoderPlan { kind, register_as, wrap: wrap_of(custom) }
}

/// The plan of a node. An entity's dumped length is known in advance unless
/// `omit_none` may drop an optional field; a typed dict's only when every
/// field is required. A custom type needs both of its functions.
pub open spec fn plan_of(t: TypeNode, naive_datetime_to_utc: bool) -> Result<EncoderPlan, IncompleteCustomType> {
    let c = t.custom;
    match t.shape {
        TypeShape::NoneType => Ok(plan(EncoderKind::NoneValue, None, c)),
        TypeShape::Never => Ok(plan(EncoderKind::Never, None, c)),
        TypeShape::Integer => Ok(plan(EncoderKind::Integer, None, c)),
        TypeShape::Float => Ok(plan(EncoderKind::Float, None, c)),
        TypeShape::Decimal => Ok(plan(EncoderKind::Decimal, None, c)),
        TypeShape::String => Ok(plan(EncoderKind::String, None, c)),
        TypeShape::Boolean => Ok(plan(EncoderKind::Boolean, None, c)),
        TypeShape::Uuid => Ok(plan(EncoderKind::Uuid, None, c)),
        TypeShape::Bytes => Ok(plan(EncoderKind::Bytes, None, c)),
        TypeShape::Time => Ok(plan(EncoderKind::Time, None, c)),
        TypeShape::DateTime => Ok(plan(EncoderKind::DateTime { naive_datetime_to_utc }, None, c)),
        TypeShape::Date => Ok(plan(EncoderKind::Date, None, c)),
        TypeShape::Any => Ok(plan(EncoderKind::Noop, None, c)),
        TypeShape::Literal => Ok(plan(EncoderKind::Literal, None, c)),
        TypeShape::Enum => Ok(plan(EncoderKind::Enum, None, c)),
        TypeShape::Optional { id } => Ok(plan(EncoderKind::Optional, Some(id), c)),
        TypeShape::Dictionary { id, omit_none, key } => Ok(
            plan(EncoderKind::Dictionary { omit_none, key_is_plain_str: plain_str_key(key) }, Some(id), c),
        ),
        TypeShape::Array { id, min_length, max_length } => Ok(
            plan(EncoderKind::Array { min_length, max_length }, Some(id), c),
        ),
        TypeShape::Tuple { id } => Ok(plan(EncoderKind::Tuple, Some(id), c)),
        TypeShape::Union { id } => Ok(plan(EncoderKind::Union, Some(id), c)),
        TypeShape::DiscriminatedUnion { id } => Ok(plan(EncoderKind::DiscriminatedUnion, Some(id), c)),
        TypeShape::Entity { id, omit_none, is_frozen, fields } => Ok(
            plan(
                EncoderKind::Entity {
                    omit_none,
                    is_frozen,
                    dump_sized: !omit_none || all_required(fields@),
                    has_flatten: some_flattened(fields@),
                },
                Some(id),
                c,
            ),
        ),
        TypeShape::TypedDict { id, omit_none, fields } => Ok(
            plan(
                EncoderKind::TypedDict {
                    omit_none,
                    dump_sized: all_required(fields@),
                    has_flatten: some_flattened(fields@),
                },
                Some(id),
                c,
            ),
        ),
        TypeShape::RecursionHolder { inner_id } => Ok(plan(EncoderKind::Lazy { inner_id }, None, c)),
        TypeShape::Custom => match c {
            Some(f) => if f.serialize && f.deserialize {
                Ok(EncoderPlan { kind: EncoderKind::CustomType, register_as: None, wrap: None })
            } else {
                Err(IncompleteCustomType)
            },
            None => Err(IncompleteCustomType),
        },
    }
}

fn make_plan(kind: EncoderKind, register_as: Option<usize>, custom: Option<CustomFns>) -> (r: EncoderPlan)
    ensures
        r == plan(kind, register_as, custom),
{
    let wrap = match custom {
        Some(c) => if c.serialize || c.deserialize { Some(c) } else { None },
        None => None,
    };
    EncoderPlan { kind, register_as, wrap }
}

/// Whether every field is required, and whether some field is flattened.
fn field_summary(fields: &Vec<FieldFacts>) -> (r: (bool, bool))
    ensures
        r.0 == all_required(fields@),
        r.1 == some_flattened(fields@),
{
    let mut all = true;
    let mut some = false;
    let mut i: usize = 0;
    while i < fields.len()
        invariant
            i <= fields@.len(),
            all == forall|j: int| 0 <= j < i ==> #[trigger] fields@[j].required,
            some == exists|j: int| 0 <= j < i && #[trigger] fields@[j].flattened,
        decreases fields@.len() - i,
    {
        if !fields[i].required {
            all = false;
        }
        if fields[i].flattened {
            some = true;
        }
        i += 1;
    }
    (all, some)
}

/// The encoder plan of one node of a type description.
pub fn encoder_plan(t: &TypeNode, naive_datetime_to_utc: bool) -> (r: Result<EncoderPlan, IncompleteCustomType>)
    ensures
        r == plan_of(*t, naive_datetime_to_utc),
{
    let c = t.custom;
    match &t.shape {
        TypeShape::NoneType => Ok(make_plan(EncoderKind::NoneValue, None, c)),
        TypeShape::Never => Ok(make_plan(EncoderKind::Never, None, c)),
        TypeShape::Integer => Ok(make_plan(EncoderKind::Integer, None, c)),
        TypeShape::Float => Ok(make_plan(EncoderKind::Float, None, c)),
        TypeShape::Decimal => Ok(make_plan(EncoderKind::Decimal, None, c)),
        TypeShape::String => Ok(make_plan(EncoderKind::String, None, c)),
        TypeShape::Boolean => Ok(make_plan(EncoderKind::Boolean, None, c)),
        TypeShape::Uuid => Ok(make_plan(EncoderKind::Uuid, None, c)),
        TypeShape::Bytes => Ok(make_plan(EncoderKind::Bytes, None, c)),
        TypeShape::Time => Ok(make_plan(EncoderKind::Time, None, c)),
        TypeShape::DateTime => Ok(make_plan(EncoderKind::DateTime { naive_datetime_to_utc }, None, c)),
        TypeShape::Date => Ok(make_plan(EncoderKind::Date, None, c)),
        TypeShape::Any => Ok(make_plan(EncoderKind::Noop, None, c)),
        TypeShape::Literal => Ok(make_plan(EncoderKind::Literal, None, c)),
        TypeShape::Enum => Ok(make_plan(EncoderKind::Enum, None, c)),
        TypeShape::Optional { id } => Ok(make_plan(EncoderKind::Optional, Some(*id), c)),
        TypeShape::Dictionary { id, omit_none, key } => {
            let plain = key.is_string && key.min_length.is_none() && key.max_length.is_none() && key.custom.is_none();
            Ok(make_plan(EncoderKind::Dictionary { omit_none: *omit_none, key_is_plain_str: plain }, Some(*id), c))
        },
        TypeShape::Array { id, min_length, max_length } => Ok(
            make_plan(EncoderKind::Array { min_length: *min_length, max_length: *max_length }, Some(*id), c),
        ),
        TypeShape::Tuple { id } => Ok(make_plan(EncoderKind::Tuple, Some(*id), c)),
        TypeShape::Union { id } => Ok(make_plan(EncoderKind::Union, Some(*id), c)),
        TypeShape::DiscriminatedUnion { id } => Ok(make_plan(EncoderKind::DiscriminatedUnion, Some(*id), c)),
        TypeShape::Entity { id, omit_none, is_frozen, fields } => {
            let (all, some) = field_summary(fields);
            Ok(
                make_plan(
                    EncoderKind::Entity {
                        omit_none: *omit_none,
                        is_frozen: *is_frozen,
                        dump_sized: !*omit_none || all,
                        has_flatten: some,
                    },
                    Some(*id),
                    c,
                ),
            )
        },
        TypeShape::TypedDict { id, omit_none, fields } => {
            let (all, some) = field_summary(fields);
            Ok(
                make_plan(
                    EncoderKind::TypedDict { omit_none: *omit_none, dump_sized: all, has_flatten: some },
                    Some(*id),
                    c,
                ),
            )
        },
        TypeShape::RecursionHolder { inner_id } => Ok(make_plan(EncoderKind::Lazy { inner_id: *inner_id }, None, c)),
        TypeShape::Custom => match c {
            Some(f) => if f.serialize && f.deserialize {
                Ok(EncoderPlan { kind: EncoderKind::CustomType, register_as: None, wrap: None })
            } else {
                Err(IncompleteCustomType)
            },
            None => Err(IncompleteCustomType),
        },
    }
}

} // verus!
