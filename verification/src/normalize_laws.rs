//! That a constant is the same number once it is brought to the type of a key column.

use vstd::prelude::*;

use crate::filter_parts::{decimal_type, number_type};
use crate::normalize::{i256_of, normalized, quotient, type_size};
use crate::scalar::{decimal_digits, decimal_size, integer_of, ColumnKind, DecimalDataType,
    DecimalScalar, NumberDataType, NumberScalar, ScalarModel};
use crate::wide::{fits_i256, lemma_pow10_positive, pow10, two128};

verus! {

/// The number that a constant is, as digits and how many of them stand behind the point.
pub open spec fn number_of(constant: ScalarModel) -> Option<(int, nat)> {
    match constant {
        ScalarModel::Number(number) => match integer_of(number) {
            Some(v) => Some((v, 0)),
            None => None,
        },
        ScalarModel::Decimal(decimal) => Some(
            (decimal_digits(decimal), decimal_size(decimal).scale as nat),
        ),
        _ => None,
    }
}

/// Two numbers, each given by its digits and how many of them stand behind the point, are the same.
pub open spec fn is_same_number(a: (int, nat), b: (int, nat)) -> bool {
    a.0 * pow10(b.1) == b.0 * pow10(a.1)
}

/// A decimal type has room for the digits.
pub open spec fn has_room(decimal_type: DecimalDataType, digits: int) -> bool {
    let size = type_size(decimal_type);
    &&& -pow10(size.precision as nat) < digits < pow10(size.precision as nat)
    &&& match decimal_type {
        DecimalDataType::Decimal64(_) => i64::MIN <= digits <= i64::MAX,
        DecimalDataType::Decimal128(_) => i128::MIN <= digits <= i128::MAX,
        DecimalDataType::Decimal256(_) => fits_i256(digits),
    }
}

proof fn lemma_pow10_sum(a: nat, b: nat)
    ensures
        pow10(a + b) == pow10(a) * pow10(b),
    decreases a,
{
    if a == 0 {
        assert(1 * pow10(b) == pow10(b));
    } else {
        lemma_pow10_sum((a - 1) as nat, b);
        assert((a + b - 1) as nat == ((a - 1) as nat) + b);
        let x = pow10((a - 1) as nat);
        let y = pow10(b);
        assert(10 * (x * y) == (10 * x) * y) by (nonlinear_arith);
    }
}

proof fn lemma_digits_fit(decimal: DecimalScalar)
    ensures
        fits_i256(decimal_digits(decimal)),
{
    match decimal {
        DecimalScalar::Decimal256(v, _) => {
            assert(fits_i256(v@));
        },
        _ => {},
    }
}

/// The digits that a decimal of a type is made with come back out of it.
proof fn lemma_decimal_holds(decimal: DecimalScalar, digits: int)
    requires
        decimal matches DecimalScalar::Decimal256(v, _) ==> fits_i256(digits) && v
            == i256_of(digits),
        decimal matches DecimalScalar::Decimal128(v, _) ==> v == digits,
        decimal matches DecimalScalar::Decimal64(v, _) ==> v == digits,
    ensures
        decimal_digits(decimal) == digits,
{
    match decimal {
        DecimalScalar::Decimal256(v, _) => {
            lemma_wide_value(digits);
        },
        _ => {},
    }
}

proof fn lemma_wide_value(n: int)
    requires
        fits_i256(n),
    ensures
        i256_of(n)@ == n,
{
    let t = two128();
    let half = 0x8000_0000_0000_0000_0000_0000_0000_0000int;
    assert(t == 0x1_0000_0000_0000_0000_0000_0000_0000_0000int);
    let high = n / t;
    let low = n % t;
    assert(n == high * t + low);
    assert(-half <= high < half) by (nonlinear_arith)
        requires
            n == high * t + low,
            0 <= low < t,
            t > 0,
            -half * t <= n < half * t,
    ;
}

/// A constant that a decimal column can hold is the same number as a value of the column: the value
/// has the column's type, and its digits over ten to the column's scale are the constant's digits
/// over ten to its own. This holds of every integer, and of every decimal that has no more digits
/// behind the point than the column.
pub proof fn law_decimal_constant_keeps_its_number(
    constant: ScalarModel,
    column_type: DecimalDataType,
)
    requires
        number_of(constant) is Some,
        number_of(constant)->Some_0.1 <= type_size(column_type).scale,
        normalized(constant, ColumnKind::Decimal(column_type)) is Some,
    ensures
        ({
            let value = normalized(constant, ColumnKind::Decimal(column_type))->Some_0;
            &&& value matches ScalarModel::Decimal(decimal) && decimal_type(decimal) == column_type
            &&& number_of(value) is Some
            &&& number_of(value)->Some_0.1 == type_size(column_type).scale
            &&& is_same_number(number_of(value)->Some_0, number_of(constant)->Some_0)
        }),
{
    let (c, s) = number_of(constant)->Some_0;
    let t = type_size(column_type).scale as nat;
    let value = normalized(constant, ColumnKind::Decimal(column_type))->Some_0;
    let digits = c * pow10((t - s) as nat);
    lemma_decimal_holds(value->Decimal_0, digits);
    lemma_pow10_sum((t - s) as nat, s);
    assert((c * pow10((t - s) as nat)) * pow10(s) == c * (pow10((t - s) as nat) * pow10(s)))
        by (nonlinear_arith);
}

/// A decimal constant that has more digits behind the point than the column is cut off towards zero:
/// it lies between the value and the next one away from zero.
pub proof fn law_decimal_constant_is_cut_towards_zero(
    constant: ScalarModel,
    column_type: DecimalDataType,
)
    requires
        number_of(constant) is Some,
        number_of(constant)->Some_0.1 > type_size(column_type).scale,
        normalized(constant, ColumnKind::Decimal(column_type)) is Some,
    ensures
        ({
            let value = normalized(constant, ColumnKind::Decimal(column_type))->Some_0;
            let (c, s) = number_of(constant)->Some_0;
            let d = number_of(value)->Some_0.0;
            let unit = pow10((s - type_size(column_type).scale) as nat);
            &&& value matches ScalarModel::Decimal(decimal) && decimal_type(decimal) == column_type
            &&& c >= 0 ==> d >= 0 && d * unit <= c < (d + 1) * unit
            &&& c <= 0 ==> d <= 0 && (d - 1) * unit < c <= d * unit
        }),
{
    let (c, s) = number_of(constant)->Some_0;
    let unit = pow10((s - type_size(column_type).scale) as nat);
    let value = normalized(constant, ColumnKind::Decimal(column_type))->Some_0;
    let d = quotient(c, unit);
    lemma_pow10_positive((s - type_size(column_type).scale) as nat);
    let m = if c < 0 {
        -c
    } else {
        c
    };
    let q = m / unit;
    assert(q * unit <= m < (q + 1) * unit && q >= 0 && q <= m) by (nonlinear_arith)
        requires
            m >= 0,
            unit >= 1,
            q == m / unit,
    ;
    assert((-q) * unit == -(q * unit)) by (nonlinear_arith);
    assert((-q - 1) * unit == -((q + 1) * unit)) by (nonlinear_arith);
    lemma_digits_fit(constant->Decimal_0);
    assert(fits_i256(d));
    lemma_decimal_holds(value->Decimal_0, d);
}

/// A decimal column holds every constant that is the same number as one of its values.
pub proof fn law_decimal_constant_is_found(
    constant: ScalarModel,
    column_type: DecimalDataType,
    digits: int,
)
    requires
        number_of(constant) is Some,
        number_of(constant)->Some_0.1 <= type_size(column_type).scale,
        is_same_number(
            (digits, type_size(column_type).scale as nat),
            number_of(constant)->Some_0,
        ),
        has_room(column_type, digits),
        fits_i256(digits),
    ensures
        normalized(constant, ColumnKind::Decimal(column_type)) matches Some(value) && number_of(
            value,
        ) == Some((digits, type_size(column_type).scale as nat)),
{
    let (c, s) = number_of(constant)->Some_0;
    let t = type_size(column_type).scale as nat;
    let moved = c * pow10((t - s) as nat);
    lemma_pow10_sum((t - s) as nat, s);
    lemma_pow10_positive(s);
    let p = pow10(s);
    let q = pow10((t - s) as nat);
    assert(digits == moved) by (nonlinear_arith)
        requires
            digits * p == c * (q * p),
            moved == c * q,
            p > 0,
    ;
    let value = normalized(constant, ColumnKind::Decimal(column_type))->Some_0;
    lemma_decimal_holds(value->Decimal_0, digits);
}

/// A constant that an integer column can hold is the same integer, as a value of the column's type.
pub proof fn law_integer_constant_keeps_its_number(
    constant: ScalarModel,
    column_type: NumberDataType,
)
    requires
        !(constant is Null),
        normalized(constant, ColumnKind::Number(column_type)) is Some,
    ensures
        ({
            let value = normalized(constant, ColumnKind::Number(column_type))->Some_0;
            &&& value matches ScalarModel::Number(number) && number_type(number) == column_type
            &&& constant is Number
            &&& integer_of(constant->Number_0) is Some
            &&& integer_of(value->Number_0) == integer_of(constant->Number_0)
        }),
{
}

/// An integer column holds every constant that is the same integer as one of its values.
pub proof fn law_integer_constant_is_found(constant: NumberScalar, value: NumberScalar)
    requires
        integer_of(value) is Some,
        integer_of(constant) == integer_of(value),
    ensures
        normalized(ScalarModel::Number(constant), ColumnKind::Number(number_type(value))) == Some(
            ScalarModel::Number(value),
        ),
{
}

/// A constant of any other type is held as it is by a column of its type, and by no other; null is
/// held by every column.
pub proof fn law_other_constants_stay(constant: ScalarModel, kind: ColumnKind)
    requires
        !(kind is Number),
        !(kind is Decimal),
    ensures
        normalized(ScalarModel::Null, kind) == Some(ScalarModel::Null),
        normalized(constant, kind) is Some ==> normalized(constant, kind) == Some(constant),
        !(constant is Null) ==> (normalized(constant, kind) is Some <==> match kind {
            ColumnKind::String => constant is String,
            ColumnKind::Boolean => constant is Boolean,
            ColumnKind::Date => constant is Date,
            ColumnKind::Timestamp => constant is Timestamp,
            _ => false,
        }),
{
}

} // verus!
