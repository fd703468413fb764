//! Values and types of the columns that an index is over.

use vstd::prelude::*;

use crate::lex::bytes_clone;
use crate::wide::I256;

verus! {

/// A single-precision number: its bits, and the number that the bytes of its key component spell.
#[derive(Clone, Copy, Debug, PartialEq, Eq, Structural)]
pub struct F32 {
    pub bits: u32,
    pub rank: u32,
}

/// A double-precision number: its bits, and the number that the bytes of its key component spell.
#[derive(Clone, Copy, Debug, PartialEq, Eq, Structural)]
pub struct F64 {
    pub bits: u64,
    pub rank: u64,
}

/// A number.
#[derive(Clone, Copy, Debug, PartialEq, Eq, Structural)]
pub enum NumberScalar {
    UInt8(u8),
    UInt16(u16),
    UInt32(u32),
    UInt64(u64),
    Int8(i8),
    Int16(i16),
    Int32(i32),
    Int64(i64),
    Float32(F32),
    Float64(F64),
}

/// The digits of a decimal, and how many of them follow the point.
#[derive(Clone, Copy, Debug, PartialEq, Eq, Structural)]
pub struct DecimalSize {
    pub precision: u8,
    pub scale: u8,
}

/// A decimal: an integer and the size that says where its point is.
#[derive(Clone, Copy, Debug, PartialEq, Eq, Structural)]
pub enum DecimalScalar {
    Decimal64(i64, DecimalSize),
    Decimal128(i128, DecimalSize),
    Decimal256(I256, DecimalSize),
}

/// A value of a column.
///
/// A timestamp with time zone and an interval are held as the bytes of their key components, and
/// an array, a map, a geography, a vector or an opaque value as the bytes of its payload.
#[derive(Debug)]
pub enum Scalar {
    Null,
    EmptyArray,
    EmptyMap,
    Boolean(bool),
    Number(NumberScalar),
    Decimal(DecimalScalar),
    Timestamp(i64),
    TimestampTz(Vec<u8>),
    Date(i32),
    Interval(Vec<u8>),
    String(String),
    Binary(Vec<u8>),
    Bitmap(Vec<u8>),
    Variant(Vec<u8>),
    Geometry(Vec<u8>),
    Tuple(Vec<Scalar>),
    Array(Vec<u8>),
    Mapping(Vec<u8>),
    Geography(Vec<u8>),
    Vector(Vec<u8>),
    Opaque(Vec<u8>),
}

/// The model of a value.
pub enum ScalarModel {
    Null,
    EmptyArray,
    EmptyMap,
    Boolean(bool),
    Number(NumberScalar),
    Decimal(DecimalScalar),
    Timestamp(i64),
    TimestampTz(Seq<u8>),
    Date(i32),
    Interval(Seq<u8>),
    String(Seq<char>),
    Binary(Seq<u8>),
    Bitmap(Seq<u8>),
    Variant(Seq<u8>),
    Geometry(Seq<u8>),
    Tuple(Seq<ScalarModel>),
    Array(Seq<u8>),
    Mapping(Seq<u8>),
    Geography(Seq<u8>),
    Vector(Seq<u8>),
    Opaque(Seq<u8>),
}

/// The model of a value.
pub open spec fn scalar_view(scalar: Scalar) -> ScalarModel
    decreases scalar,
{
    match scalar {
        Scalar::Null => ScalarModel::Null,
        Scalar::EmptyArray => ScalarModel::EmptyArray,
        Scalar::EmptyMap => ScalarModel::EmptyMap,
        Scalar::Boolean(v) => ScalarModel::Boolean(v),
        Scalar::Number(v) => ScalarModel::Number(v),
        Scalar::Decimal(v) => ScalarModel::Decimal(v),
        Scalar::Timestamp(v) => ScalarModel::Timestamp(v),
        Scalar::TimestampTz(v) => ScalarModel::TimestampTz(v@),
        Scalar::Date(v) => ScalarModel::Date(v),
        Scalar::Interval(v) => ScalarModel::Interval(v@),
        Scalar::String(v) => ScalarModel::String(v@),
        Scalar::Binary(v) => ScalarModel::Binary(v@),
        Scalar::Bitmap(v) => ScalarModel::Bitmap(v@),
        Scalar::Variant(v) => ScalarModel::Variant(v@),
        Scalar::Geometry(v) => ScalarModel::Geometry(v@),
        Scalar::Tuple(v) => ScalarModel::Tuple(scalars_view(v@)),
        Scalar::Array(v) => ScalarModel::Array(v@),
        Scalar::Mapping(v) => ScalarModel::Mapping(v@),
        Scalar::Geography(v) => ScalarModel::Geography(v@),
        Scalar::Vector(v) => ScalarModel::Vector(v@),
        Scalar::Opaque(v) => ScalarModel::Opaque(v@),
    }
}

/// The models of a sequence of values.
pub open spec fn scalars_view(scalars: Seq<Scalar>) -> Seq<ScalarModel>
    decreases scalars,
{
    if scalars.len() == 0 {
        Seq::empty()
    } else {
        scalars_view(scalars.drop_last()).push(scalar_view(scalars.last()))
    }
}

/// The models of a sequence of values are the models of each.
pub proof fn lemma_scalars_view(scalars: Seq<Scalar>)
    ensures
        scalars_view(scalars).len() == scalars.len(),
        forall|i: int|
            0 <= i < scalars.len() ==> #[trigger] scalars_view(scalars)[i] == scalar_view(
                scalars[i],
            ),
    decreases scalars.len(),
{
    if scalars.len() > 0 {
        lemma_scalars_view(scalars.drop_last());
        assert forall|i: int| 0 <= i < scalars.len() implies #[trigger] scalars_view(scalars)[i]
            == scalar_view(scalars[i]) by {
            if i < scalars.len() - 1 {
                assert(scalars.drop_last()[i] == scalars[i]);
            }
        }
    }
}

/// Sequences of values whose items have the same models have the same models.
pub proof fn lemma_scalars_view_ext(a: Seq<Scalar>, b: Seq<Scalar>)
    requires
        a.len() == b.len(),
        forall|i: int| 0 <= i < a.len() ==> scalar_view(#[trigger] a[i]) == scalar_view(b[i]),
    ensures
        scalars_view(a) == scalars_view(b),
{
    lemma_scalars_view(a);
    lemma_scalars_view(b);
    assert(scalars_view(a) =~= scalars_view(b));
}

impl View for Scalar {
    type V = ScalarModel;

    open spec fn view(&self) -> ScalarModel {
        scalar_view(*self)
    }
}

/// A copy of a sequence of values.
pub fn clone_scalars(scalars: &Vec<Scalar>) -> (r: Vec<Scalar>)
    ensures
        scalars_view(r@) == scalars_view(scalars@),
    decreases scalars,
{
    let mut r: Vec<Scalar> = Vec::new();
    let mut i: usize = 0;
    while i < scalars.len()
        invariant
            i <= scalars@.len(),
            r@.len() == i,
            forall|k: int| 0 <= k < i ==> scalar_view(#[trigger] r@[k]) == scalar_view(scalars@[k]),
        decreases scalars@.len() - i,
    {
        assert(decreases_to!(scalars => scalars[i as int]));
        r.push(clone_scalar(&scalars[i]));
        i = i + 1;
    }
    proof {
        lemma_scalars_view_ext(r@, scalars@);
    }
    r
}

/// A copy of a value.
pub fn clone_scalar(scalar: &Scalar) -> (r: Scalar)
    ensures
        r@ == scalar@,
    decreases scalar,
{
    match scalar {
        Scalar::Null => Scalar::Null,
        Scalar::EmptyArray => Scalar::EmptyArray,
        Scalar::EmptyMap => Scalar::EmptyMap,
        Scalar::Boolean(v) => Scalar::Boolean(*v),
        Scalar::Number(v) => Scalar::Number(*v),
        Scalar::Decimal(v) => Scalar::Decimal(*v),
        Scalar::Timestamp(v) => Scalar::Timestamp(*v),
        Scalar::TimestampTz(v) => Scalar::TimestampTz(bytes_clone(v.as_slice())),
        Scalar::Date(v) => Scalar::Date(*v),
        Scalar::Interval(v) => Scalar::Interval(bytes_clone(v.as_slice())),
        Scalar::String(v) => Scalar::String(v.clone()),
        Scalar::Binary(v) => Scalar::Binary(bytes_clone(v.as_slice())),
        Scalar::Bitmap(v) => Scalar::Bitmap(bytes_clone(v.as_slice())),
        Scalar::Variant(v) => Scalar::Variant(bytes_clone(v.as_slice())),
        Scalar::Geometry(v) => Scalar::Geometry(bytes_clone(v.as_slice())),
        Scalar::Tuple(v) => Scalar::Tuple(clone_scalars(v)),
        Scalar::Array(v) => Scalar::Array(bytes_clone(v.as_slice())),
        Scalar::Mapping(v) => Scalar::Mapping(bytes_clone(v.as_slice())),
        Scalar::Geography(v) => Scalar::Geography(bytes_clone(v.as_slice())),
        Scalar::Vector(v) => Scalar::Vector(bytes_clone(v.as_slice())),
        Scalar::Opaque(v) => Scalar::Opaque(bytes_clone(v.as_slice())),
    }
}

impl Clone for Scalar {
    fn clone(&self) -> (r: Self)
        ensures
            r@ == self@,
    {
        clone_scalar(self)
    }
}

/// The integer that a number is, where it is one.
pub open spec fn integer_of(number: NumberScalar) -> Option<int> {
    match number {
        NumberScalar::UInt8(v) => Some(v as int),
        NumberScalar::UInt16(v) => Some(v as int),
        NumberScalar::UInt32(v) => Some(v as int),
        NumberScalar::UInt64(v) => Some(v as int),
        NumberScalar::Int8(v) => Some(v as int),
        NumberScalar::Int16(v) => Some(v as int),
        NumberScalar::Int32(v) => Some(v as int),
        NumberScalar::Int64(v) => Some(v as int),
        NumberScalar::Float32(_) => None,
        NumberScalar::Float64(_) => None,
    }
}

impl NumberScalar {
    /// The integer that the number is, where it is one.
    pub fn integer_to_i128(self) -> (r: Option<i128>)
        ensures
            match r {
                Some(v) => integer_of(self) == Some(v as int),
                None => integer_of(self) is None,
            },
    {
        match self {
            NumberScalar::UInt8(v) => Some(v as i128),
            NumberScalar::UInt16(v) => Some(v as i128),
            NumberScalar::UInt32(v) => Some(v as i128),
            NumberScalar::UInt64(v) => Some(v as i128),
            NumberScalar::Int8(v) => Some(v as i128),
            NumberScalar::Int16(v) => Some(v as i128),
            NumberScalar::Int32(v) => Some(v as i128),
            NumberScalar::Int64(v) => Some(v as i128),
            NumberScalar::Float32(_) => None,
            NumberScalar::Float64(_) => None,
        }
    }
}

/// The integer of a decimal, without its point.
pub open spec fn decimal_digits(decimal: DecimalScalar) -> int {
    match decimal {
        DecimalScalar::Decimal64(v, _) => v as int,
        DecimalScalar::Decimal128(v, _) => v as int,
        DecimalScalar::Decimal256(v, _) => v@,
    }
}

/// The size of a decimal.
pub open spec fn decimal_size(decimal: DecimalScalar) -> DecimalSize {
    match decimal {
        DecimalScalar::Decimal64(_, size) => size,
        DecimalScalar::Decimal128(_, size) => size,
        DecimalScalar::Decimal256(_, size) => size,
    }
}

impl DecimalScalar {
    /// The size of the decimal.
    pub fn size(self) -> (r: DecimalSize)
        ensures
            r == decimal_size(self),
    {
        match self {
            DecimalScalar::Decimal64(_, size) => size,
            DecimalScalar::Decimal128(_, size) => size,
            DecimalScalar::Decimal256(_, size) => size,
        }
    }

    /// The integer of the decimal, without its point.
    pub fn digits(self) -> (r: I256)
        ensures
            r@ == decimal_digits(self),
    {
        match self {
            DecimalScalar::Decimal64(v, _) => I256::from_i128(v as i128),
            DecimalScalar::Decimal128(v, _) => I256::from_i128(v),
            DecimalScalar::Decimal256(v, _) => v,
        }
    }
}

/// The type of a number column.
#[derive(Clone, Copy, Debug, PartialEq, Eq, Structural)]
pub enum NumberDataType {
    UInt8,
    UInt16,
    UInt32,
    UInt64,
    Int8,
    Int16,
    Int32,
    Int64,
    Float32,
    Float64,
}

/// The type of a decimal column.
#[derive(Clone, Copy, Debug, PartialEq, Eq, Structural)]
pub enum DecimalDataType {
    Decimal64(DecimalSize),
    Decimal128(DecimalSize),
    Decimal256(DecimalSize),
}

/// What the values of a column are, but for null.
#[derive(Clone, Copy, Debug, PartialEq, Eq, Structural)]
pub enum ColumnKind {
    Boolean,
    Number(NumberDataType),
    Decimal(DecimalDataType),
    String,
    Date,
    Timestamp,
    Variant,
    /// A type that the key filters do not read, by its number in the catalog.
    Other(u32),
}

/// The type of a column.
#[derive(Clone, Copy, Debug, PartialEq, Eq, Structural)]
pub struct TableDataType {
    pub kind: ColumnKind,
    pub nullable: bool,
}

impl TableDataType {
    /// The type of values of this kind that are never null.
    pub fn of(kind: ColumnKind) -> (r: TableDataType)
        ensures
            r.kind == kind,
            !r.nullable,
    {
        TableDataType { kind, nullable: false }
    }

    /// The type with null among its values.
    pub fn wrap_nullable(self) -> (r: TableDataType)
        ensures
            r.kind == self.kind,
            r.nullable,
    {
        TableDataType { kind: self.kind, nullable: true }
    }

    /// The type without null.
    pub fn remove_nullable(self) -> (r: TableDataType)
        ensures
            r.kind == self.kind,
            !r.nullable,
    {
        TableDataType { kind: self.kind, nullable: false }
    }
}

/// A column of a table.
#[derive(Debug)]
pub struct TableField {
    pub name: String,
    pub data_type: TableDataType,
    pub column_id: u32,
    /// The column is computed when it is read, and not stored.
    pub virtual_computed: bool,
}

impl Clone for TableField {
    fn clone(&self) -> (r: Self)
        ensures
            r == *self,
    {
        TableField {
            name: self.name.clone(),
            data_type: self.data_type,
            column_id: self.column_id,
            virtual_computed: self.virtual_computed,
        }
    }
}

} // verus!
