//! Bringing a constant to the type of a key column, so that its bytes compare with the column's.

use vstd::prelude::*;

use crate::scalar::{clone_scalar, decimal_digits, decimal_size, integer_of};
use crate::scalar::{ColumnKind, DecimalDataType, DecimalScalar, DecimalSize, NumberDataType,
    NumberScalar, Scalar, ScalarModel, TableDataType};
use crate::wide::{fits_i256, pow10, two128, I256};

verus! {

/// An integer as a number of an integer type, where it fits.
pub open spec fn number_of_type(v: int, number_type: NumberDataType) -> Option<NumberScalar> {
    match number_type {
        NumberDataType::UInt8 => if 0 <= v <= u8::MAX {
            Some(NumberScalar::UInt8(v as u8))
        } else {
            None
        },
        NumberDataType::UInt16 => if 0 <= v <= u16::MAX {
            Some(NumberScalar::UInt16(v as u16))
        } else {
            None
        },
        NumberDataType::UInt32 => if 0 <= v <= u32::MAX {
            Some(NumberScalar::UInt32(v as u32))
        } else {
            None
        },
        NumberDataType::UInt64 => if 0 <= v <= u64::MAX {
            Some(NumberScalar::UInt64(v as u64))
        } else {
            None
        },
        NumberDataType::Int8 => if i8::MIN <= v <= i8::MAX {
            Some(NumberScalar::Int8(v as i8))
        } else {
            None
        },
        NumberDataType::Int16 => if i16::MIN <= v <= i16::MAX {
            Some(NumberScalar::Int16(v as i16))
        } else {
            None
        },
        NumberDataType::Int32 => if i32::MIN <= v <= i32::MAX {
            Some(NumberScalar::Int32(v as i32))
        } else {
            None
        },
        NumberDataType::Int64 => if i64::MIN <= v <= i64::MAX {
            Some(NumberScalar::Int64(v as i64))
        } else {
            None
        },
        NumberDataType::Float32 => None,
        NumberDataType::Float64 => None,
    }
}

/// The digits of a decimal moved from one scale to another: digits that do not fit are cut off, and
/// a number that does not fit is none.
pub open spec fn rescaled(digits: int, source_scale: u8, target_scale: u8) -> Option<int> {
    if target_scale >= source_scale {
        let moved = digits * pow10((target_scale - source_scale) as nat);
        if fits_i256(moved) {
            Some(moved)
        } else {
            None
        }
    } else {
        Some(quotient(digits, pow10((source_scale - target_scale) as nat)))
    }
}

/// The quotient, rounded towards zero.
pub open spec fn quotient(a: int, b: int) -> int {
    if a < 0 {
        -((-a) / b)
    } else {
        a / b
    }
}

/// The 256-bit integer of this value.
pub open spec fn i256_of(v: int) -> I256 {
    I256 { high: (v / two128()) as i128, low: (v % two128()) as u128 }
}

/// The digits as a decimal of a type, where it has room for them.
pub open spec fn decimal_of_type(digits: int, decimal_type: DecimalDataType) -> Option<
    DecimalScalar,
> {
    match decimal_type {
        DecimalDataType::Decimal64(size) => if in_precision(digits, size.precision) && i64::MIN
            <= digits <= i64::MAX {
            Some(DecimalScalar::Decimal64(digits as i64, size))
        } else {
            None
        },
        DecimalDataType::Decimal128(size) => if in_precision(digits, size.precision) && i128::MIN
            <= digits <= i128::MAX {
            Some(DecimalScalar::Decimal128(digits as i128, size))
        } else {
            None
        },
        DecimalDataType::Decimal256(size) => if in_precision(digits, size.precision) {
            Some(DecimalScalar::Decimal256(i256_of(digits), size))
        } else {
            None
        },
    }
}

/// The number has at most so many decimal digits.
pub open spec fn in_precision(digits: int, precision: u8) -> bool {
    -pow10(precision as nat) < digits < pow10(precision as nat)
}

/// The size of a decimal type.
pub open spec fn type_size(decimal_type: DecimalDataType) -> DecimalSize {
    match decimal_type {
        DecimalDataType::Decimal64(size) => size,
        DecimalDataType::Decimal128(size) => size,
        DecimalDataType::Decimal256(size) => size,
    }
}

/// A constant as an integer type holds it.
pub open spec fn normalized_number(constant: ScalarModel, number_type: NumberDataType) -> Option<
    ScalarModel,
> {
    match constant {
        ScalarModel::Number(number) => match integer_of(number) {
            None => None,
            Some(v) => match number_of_type(v, number_type) {
                None => None,
                Some(n) => Some(ScalarModel::Number(n)),
            },
        },
        _ => None,
    }
}

/// The digits of a constant at the scale of a decimal type.
pub open spec fn normalized_digits(constant: ScalarModel, scale: u8) -> Option<int> {
    match constant {
        ScalarModel::Decimal(decimal) => rescaled(
            decimal_digits(decimal),
            decimal_size(decimal).scale,
            scale,
        ),
        ScalarModel::Number(number) => match integer_of(number) {
            None => None,
            Some(v) => if fits_i256(v * pow10(scale as nat)) {
                Some(v * pow10(scale as nat))
            } else {
                None
            },
        },
        _ => None,
    }
}

/// A constant as a decimal type holds it.
pub open spec fn normalized_decimal(constant: ScalarModel, decimal_type: DecimalDataType) -> Option<
    ScalarModel,
> {
    match normalized_digits(constant, type_size(decimal_type).scale) {
        None => None,
        Some(digits) => match decimal_of_type(digits, decimal_type) {
            None => None,
            Some(decimal) => Some(ScalarModel::Decimal(decimal)),
        },
    }
}

/// A constant as a key column holds it, where the column's type can hold it; null stays null.
pub open spec fn normalized(constant: ScalarModel, kind: ColumnKind) -> Option<ScalarModel> {
    if constant is Null {
        Some(ScalarModel::Null)
    } else {
        match kind {
            ColumnKind::Number(number_type) => normalized_number(constant, number_type),
            ColumnKind::Decimal(decimal_type) => normalized_decimal(constant, decimal_type),
            ColumnKind::String => if constant is String {
                Some(constant)
            } else {
                None
            },
            ColumnKind::Boolean => if constant is Boolean {
                Some(constant)
            } else {
                None
            },
            ColumnKind::Date => if constant is Date {
                Some(constant)
            } else {
                None
            },
            ColumnKind::Timestamp => if constant is Timestamp {
                Some(constant)
            } else {
                None
            },
            ColumnKind::Variant | ColumnKind::Other(_) => None,
        }
    }
}

/// A 256-bit integer is the one of its value.
pub proof fn lemma_i256_of(n: I256)
    ensures
        i256_of(n@) == n,
{
    let v = n@;
    assert(v == n.high * two128() + n.low);
    assert(v / two128() == n.high);
    assert(v % two128() == n.low);
}

/// Moves the digits of a decimal from one scale to another.
pub fn rescale_decimal_i256(value: I256, source_scale: u8, target_scale: u8) -> (r: Option<I256>)
    ensures
        match r {
            Some(v) => rescaled(value@, source_scale, target_scale) == Some(v@),
            None => rescaled(value@, source_scale, target_scale) is None,
        },
{
    if source_scale == target_scale {
        proof {
            assert(pow10(0) == 1);
            assert(value@ * 1 == value@);
            assert(fits_i256(value@));
        }
        return Some(value);
    }
    if target_scale > source_scale {
        let r = value.times_pow10(target_scale - source_scale);
        proof {
            if r is Some {
                assert(fits_i256(r->0@));
            }
        }
        r
    } else {
        Some(value.over_pow10(source_scale - target_scale))
    }
}

/// The digits as a decimal of a type, where it has room for them.
pub fn decimal_scalar_from_i256(value: I256, decimal_type: DecimalDataType) -> (r: Option<
    DecimalScalar,
>)
    ensures
        r == decimal_of_type(value@, decimal_type),
{
    match decimal_type {
        DecimalDataType::Decimal64(size) => {
            if !value.has_digits(size.precision) {
                return None;
            }
            match value.to_i64() {
                Some(v) => Some(DecimalScalar::Decimal64(v, size)),
                None => None,
            }
        },
        DecimalDataType::Decimal128(size) => {
            if !value.has_digits(size.precision) {
                return None;
            }
            match value.to_i128() {
                Some(v) => Some(DecimalScalar::Decimal128(v, size)),
                None => None,
            }
        },
        DecimalDataType::Decimal256(size) => {
            if !value.has_digits(size.precision) {
                return None;
            }
            proof {
                lemma_i256_of(value);
            }
            Some(DecimalScalar::Decimal256(value, size))
        },
    }
}

/// A constant as an integer type holds it.
pub fn normalize_number_key_constant(constant: &Scalar, number_type: NumberDataType) -> (r: Option<
    Scalar,
>)
    ensures
        match r {
            Some(scalar) => normalized_number(constant@, number_type) == Some(scalar@),
            None => normalized_number(constant@, number_type) is None,
        },
{
    let number = match constant {
        Scalar::Number(number) => *number,
        _ => {
            return None;
        },
    };
    let value: i128 = match number.integer_to_i128() {
        Some(value) => value,
        None => {
            return None;
        },
    };
    let number = match number_type {
        NumberDataType::UInt8 => {
            if value < 0 || value > 0xff {
                return None;
            }
            NumberScalar::UInt8(value as u8)
        },
        NumberDataType::UInt16 => {
            if value < 0 || value > 0xffff {
                return None;
            }
            NumberScalar::UInt16(value as u16)
        },
        NumberDataType::UInt32 => {
            if value < 0 || value > 0xffff_ffff {
                return None;
            }
            NumberScalar::UInt32(value as u32)
        },
        NumberDataType::UInt64 => {
            if value < 0 || value > 0xffff_ffff_ffff_ffff {
                return None;
            }
            NumberScalar::UInt64(value as u64)
        },
        NumberDataType::Int8 => {
            if value < -0x80 || value > 0x7f {
                return None;
            }
            NumberScalar::Int8(value as i8)
        },
        NumberDataType::Int16 => {
            if value < -0x8000 || value > 0x7fff {
                return None;
            }
            NumberScalar::Int16(value as i16)
        },
        NumberDataType::Int32 => {
            if value < -0x8000_0000 || value > 0x7fff_ffff {
                return None;
            }
            NumberScalar::Int32(value as i32)
        },
        NumberDataType::Int64 => {
            if value < -0x8000_0000_0000_0000 || value > 0x7fff_ffff_ffff_ffff {
                return None;
            }
            NumberScalar::Int64(value as i64)
        },
        NumberDataType::Float32 => {
            return None;
        },
        NumberDataType::Float64 => {
            return None;
        },
    };
    Some(Scalar::Number(number))
}

/// A constant as a decimal type holds it.
pub fn normalize_decimal_key_constant(constant: &Scalar, decimal_type: DecimalDataType) -> (r:
    Option<Scalar>)
    ensures
        match r {
            Some(scalar) => normalized_decimal(constant@, decimal_type) == Some(scalar@),
            None => normalized_decimal(constant@, decimal_type) is None,
        },
{
    let target_size: DecimalSize = match decimal_type {
        DecimalDataType::Decimal64(size) => size,
        DecimalDataType::Decimal128(size) => size,
        DecimalDataType::Decimal256(size) => size,
    };
    let value: I256 = match constant {
        Scalar::Decimal(decimal) => {
            match rescale_decimal_i256(
                decimal.digits(),
                decimal.size().scale,
                target_size.scale,
            ) {
                Some(value) => value,
                None => {
                    return None;
                },
            }
        },
        Scalar::Number(number) => {
            match number.integer_to_i128() {
                None => {
                    return None;
                },
                Some(v) => {
                    match I256::from_i128(v).times_pow10(target_size.scale) {
                        Some(value) => {
                            assert(fits_i256(value@));
                            value
                        },
                        None => {
                            return None;
                        },
                    }
                },
            }
        },
        _ => {
            return None;
        },
    };
    match decimal_scalar_from_i256(value, decimal_type) {
        Some(decimal) => Some(Scalar::Decimal(decimal)),
        None => None,
    }
}

/// A constant as a key column holds it.
pub fn normalize_key_filter_constant(constant: &Scalar, data_type: &TableDataType) -> (r: Option<
    Scalar,
>)
    ensures
        match r {
            Some(scalar) => normalized(constant@, data_type.kind) == Some(scalar@),
            None => normalized(constant@, data_type.kind) is None,
        },
{
    if let Scalar::Null = constant {
        return Some(Scalar::Null);
    }
    match data_type.remove_nullable().kind {
        ColumnKind::Number(number_type) => normalize_number_key_constant(constant, number_type),
        ColumnKind::Decimal(decimal_type) => normalize_decimal_key_constant(constant, decimal_type),
        ColumnKind::String => match constant {
            Scalar::String(_) => Some(clone_scalar(constant)),
            _ => None,
        },
        ColumnKind::Boolean => match constant {
            Scalar::Boolean(_) => Some(clone_scalar(constant)),
            _ => None,
        },
        ColumnKind::Date => match constant {
            Scalar::Date(_) => Some(clone_scalar(constant)),
            _ => None,
        },
        ColumnKind::Timestamp => match constant {
            Scalar::Timestamp(_) => Some(clone_scalar(constant)),
            _ => None,
        },
        ColumnKind::Variant | ColumnKind::Other(_) => None,
    }
}

} // verus!
