//! The values stored against keys, their byte layout and their arithmetic.

use crate::bytes::{
    get_i64, get_u32, get_u64, le_bytes, le_value, lemma_le_bytes_len, lemma_le_value_of_bytes,
    lemma_limits, lemma_twos_round_trip, put_i64, put_u32, put_u64, twos, untwos,
};
use crate::storage::error::DatabaseError;
use vstd::prelude::*;
use vstd::slice::*;
use vstd::string::*;
use vstd::utf8::*;

verus! {

/// A stored value. A float is held as its IEEE-754 bit pattern.
#[derive(Debug)]
pub enum Value {
    Integer(i64),
    Float(u64),
    String(String),
    Boolean(bool),
    Null,
}

/// The mathematical content of a [`Value`].
pub enum ValueView {
    Integer(i64),
    Float(u64),
    String(Seq<char>),
    Boolean(bool),
    Null,
}

impl View for Value {
    type V = ValueView;

    open spec fn view(&self) -> ValueView {
        match self {
            Value::Integer(i) => ValueView::Integer(*i),
            Value::Float(bits) => ValueView::Float(*bits),
            Value::String(s) => ValueView::String(s@),
            Value::Boolean(b) => ValueView::Boolean(*b),
            Value::Null => ValueView::Null,
        }
    }
}

impl ValueView {
    /// Whether the value has a byte layout: a string's length must fit the
    /// four bytes of its length prefix.
    pub open spec fn encodable(self) -> bool {
        self matches ValueView::String(s) ==> encode_utf8(s).len() <= u32::MAX
    }

    /// The byte layout: a tag byte, then the payload.
    pub open spec fn encode(self) -> Seq<u8> {
        match self {
            ValueView::Null => seq![0u8],
            ValueView::Integer(i) => seq![1u8] + le_bytes(twos(i as int, 8), 8),
            ValueView::Float(bits) => seq![2u8] + le_bytes(bits as nat, 8),
            ValueView::String(s) => seq![3u8] + le_bytes(encode_utf8(s).len(), 4) + encode_utf8(s),
            ValueView::Boolean(b) => seq![4u8, if b { 1u8 } else { 0u8 }],
        }
    }
}

/// The value at the start of `bytes` and the number of bytes it takes, or
/// `None` where the bytes start with no value.
pub open spec fn decode(bytes: Seq<u8>) -> Option<(ValueView, nat)> {
    if bytes.len() == 0 {
        None
    } else if bytes[0] == 0 {
        Some((ValueView::Null, 1))
    } else if bytes[0] == 1 {
        if bytes.len() >= 9 {
            Some((ValueView::Integer(untwos(le_value(bytes.subrange(1, 9)), 8) as i64), 9))
        } else {
            None
        }
    } else if bytes[0] == 2 {
        if bytes.len() >= 9 {
            Some((ValueView::Float(le_value(bytes.subrange(1, 9)) as u64), 9))
        } else {
            None
        }
    } else if bytes[0] == 3 {
        if bytes.len() >= 5 {
            let n = le_value(bytes.subrange(1, 5)) as int;
            if bytes.len() >= 5 + n && valid_utf8(bytes.subrange(5, 5 + n)) {
                Some((ValueView::String(decode_utf8(bytes.subrange(5, 5 + n))), (5 + n) as nat))
            } else {
                None
            }
        } else {
            None
        }
    } else if bytes[0] == 4 {
        if bytes.len() >= 2 {
            Some((ValueView::Boolean(bytes[1] != 0), 2))
        } else {
            None
        }
    } else {
        None
    }
}

/// The bits of the double that is the sum of the doubles with the bits `a`
/// and `b`, rounded to nearest, ties to even.
pub uninterp spec fn float_sum(a: u64, b: u64) -> u64;

/// The bits of the double that is the difference of the doubles with the
/// bits `a` and `b`, rounded to nearest, ties to even.
pub uninterp spec fn float_difference(a: u64, b: u64) -> u64;

/// The bits of the double that is the product of the doubles with the bits
/// `a` and `b`, rounded to nearest, ties to even.
pub uninterp spec fn float_product(a: u64, b: u64) -> u64;

/// The bits of the double that is the quotient of the doubles with the bits
/// `a` and `b`, rounded to nearest, ties to even.
pub uninterp spec fn float_quotient(a: u64, b: u64) -> u64;

/// The bits of the double nearest to the integer `i`, ties to even.
pub uninterp spec fn float_of_integer(i: i64) -> u64;

/// `Float::add_r` of rustc_apfloat on IEEE-754 doubles, with rounding to
/// nearest, ties to even: the sum depends on the two bit patterns alone.
#[verifier::external_body]
fn float_add(a: u64, b: u64) -> (r: u64)
    ensures
        r == float_sum(a, b),
{
    let x = <rustc_apfloat::ieee::Double as rustc_apfloat::Float>::from_bits(a as u128);
    let y = <rustc_apfloat::ieee::Double as rustc_apfloat::Float>::from_bits(b as u128);
    let z = rustc_apfloat::Float::add_r(x, y, rustc_apfloat::Round::NearestTiesToEven).value;
    rustc_apfloat::Float::to_bits(z) as u64
}

/// `Float::sub_r` of rustc_apfloat on IEEE-754 doubles, with rounding to
/// nearest, ties to even: the difference depends on the two bit patterns
/// alone.
#[verifier::external_body]
fn float_sub(a: u64, b: u64) -> (r: u64)
    ensures
        r == float_difference(a, b),
{
    let x = <rustc_apfloat::ieee::Double as rustc_apfloat::Float>::from_bits(a as u128);
    let y = <rustc_apfloat::ieee::Double as rustc_apfloat::Float>::from_bits(b as u128);
    let z = rustc_apfloat::Float::sub_r(x, y, rustc_apfloat::Round::NearestTiesToEven).value;
    rustc_apfloat::Float::to_bits(z) as u64
}

/// `Float::mul_r` of rustc_apfloat on IEEE-754 doubles, with rounding to
/// nearest, ties to even: the product depends on the two bit patterns
/// alone.
#[verifier::external_body]
fn float_mul(a: u64, b: u64) -> (r: u64)
    ensures
        r == float_product(a, b),
{
    let x = <rustc_apfloat::ieee::Double as rustc_apfloat::Float>::from_bits(a as u128);
    let y = <rustc_apfloat::ieee::Double as rustc_apfloat::Float>::from_bits(b as u128);
    let z = rustc_apfloat::Float::mul_r(x, y, rustc_apfloat::Round::NearestTiesToEven).value;
    rustc_apfloat::Float::to_bits(z) as u64
}

/// `Float::div_r` of rustc_apfloat on IEEE-754 doubles, with rounding to
/// nearest, ties to even: the quotient depends on the two bit patterns
/// alone.
#[verifier::external_body]
fn float_div(a: u64, b: u64) -> (r: u64)
    ensures
        r == float_quotient(a, b),
{
    let x = <rustc_apfloat::ieee::Double as rustc_apfloat::Float>::from_bits(a as u128);
    let y = <rustc_apfloat::ieee::Double as rustc_apfloat::Float>::from_bits(b as u128);
    let z = rustc_apfloat::Float::div_r(x, y, rustc_apfloat::Round::NearestTiesToEven).value;
    rustc_apfloat::Float::to_bits(z) as u64
}

/// `Float::from_i128` of rustc_apfloat for IEEE-754 doubles: the double
/// depends on the integer alone.
#[verifier::external_body]
fn float_from_integer(i: i64) -> (r: u64)
    ensures
        r == float_of_integer(i),
{
    let x = <rustc_apfloat::ieee::Double as rustc_apfloat::Float>::from_i128(i as i128).value;
    rustc_apfloat::Float::to_bits(x) as u64
}

/// `String::from_utf8` of std: it succeeds exactly on valid UTF-8, and the
/// string it gives has the given bytes as its encoding.
#[verifier::external_body]
fn string_from_utf8(bytes: Vec<u8>) -> (r: Option<String>)
    ensures
        r is Some <==> valid_utf8(bytes@),
        r matches Some(s) ==> encode_utf8(s@) == bytes@,
{
    String::from_utf8(bytes).ok()
}

impl Value {
    /// The byte layout of the value.
    pub fn serialize(&self) -> (buffer: Vec<u8>)
        requires
            self@.encodable(),
        ensures
            buffer@ == self@.encode(),
    {
        let mut buffer: Vec<u8> = Vec::new();
        match self {
            Value::Integer(i) => {
                buffer.push(1);
                put_i64(&mut buffer, *i);
            },
            Value::Float(bits) => {
                buffer.push(2);
                put_u64(&mut buffer, *bits);
            },
            Value::String(s) => {
                buffer.push(3);
                let bytes = s.as_str().as_bytes();
                put_u32(&mut buffer, bytes.len() as u32);
                let mut i: usize = 0;
                while i < bytes.len()
                    invariant
                        i <= bytes@.len(),
                        bytes@ == encode_utf8(s@),
                        buffer@ == seq![3u8] + le_bytes(bytes@.len(), 4) + bytes@.subrange(0, i as int),
                    decreases bytes@.len() - i,
                {
                    buffer.push(bytes[i]);
                    i += 1;
                    assert(bytes@.subrange(0, i as int) =~= bytes@.subrange(0, i - 1).push(bytes@[i - 1]));
                }
                assert(bytes@.subrange(0, i as int) =~= bytes@);
            },
            Value::Boolean(b) => {
                buffer.push(4);
                buffer.push(if *b { 1 } else { 0 });
            },
            Value::Null => {
                buffer.push(0);
            },
        }
        assert(buffer@ =~= self@.encode());
        buffer
    }

    /// Whether the value has a byte layout: a string's length must fit the
    /// four bytes of its length prefix.
    pub fn is_encodable(&self) -> (res: bool)
        ensures
            res == self@.encodable(),
    {
        match self {
            Value::String(s) => s.as_str().as_bytes().len() as u64 <= u32::MAX as u64,
            _ => true,
        }
    }

    /// Reads the value at the start of `buffer`, and says how many bytes it
    /// takes. Bytes behind the value are not looked at.
    pub fn deserialize(buffer: &[u8]) -> (res: Result<(Value, usize), DatabaseError>)
        ensures
            match decode(buffer@) {
                Some((v, n)) => res matches Ok((value, consumed)) && value@ == v && consumed == n,
                None => res matches Err(DatabaseError::InvalidData(_)),
            },
    {
        let len = buffer.len();
        if len == 0 {
            return Err(DatabaseError::InvalidData(String::from_str("Empty buffer")));
        }
        let tag = buffer[0];
        if tag == 0 {
            Ok((Value::Null, 1))
        } else if tag == 1 {
            if len < 9 {
                return Err(DatabaseError::InvalidData(String::from_str("Truncated integer")));
            }
            Ok((Value::Integer(get_i64(buffer, 1)), 9))
        } else if tag == 2 {
            if len < 9 {
                return Err(DatabaseError::InvalidData(String::from_str("Truncated float")));
            }
            Ok((Value::Float(get_u64(buffer, 1)), 9))
        } else if tag == 3 {
            if len < 5 {
                return Err(DatabaseError::InvalidData(String::from_str("Truncated string length")));
            }
            let n = get_u32(buffer, 1);
            let room: u64 = (len - 5) as u64;
            if room < (n as u64) {
                return Err(DatabaseError::InvalidData(String::from_str("Truncated string")));
            }
            let n = n as usize;
            let payload = slice_to_vec(slice_subrange(buffer, 5, 5 + n));
            match string_from_utf8(payload) {
                Some(s) => {
                    proof {
                        encode_utf8_decode_utf8(s@);
                    }
                    Ok((Value::String(s), 5 + n))
                },
                None => Err(DatabaseError::InvalidData(String::from_str("Invalid UTF-8"))),
            }
        } else if tag == 4 {
            if len < 2 {
                return Err(DatabaseError::InvalidData(String::from_str("Truncated boolean")));
            }
            Ok((Value::Boolean(buffer[1] != 0), 2))
        } else {
            Err(DatabaseError::InvalidData(String::from_str("Invalid type tag")))
        }
    }

    /// The sum of two numbers, the concatenation of two strings, the
    /// conjunction of two booleans. An integer and a float give a float.
    pub fn add(&self, other: &Value) -> (res: Result<Value, DatabaseError>)
        ensures
            match sum(self@, other@) {
                Some(v) => res matches Ok(value) && value@ == v,
                None => res matches Err(DatabaseError::InvalidOperation(_)),
            },
    {
        match (self, other) {
            (Value::Integer(a), Value::Integer(b)) => match a.checked_add(*b) {
                Some(c) => Ok(Value::Integer(c)),
                None => Err(DatabaseError::InvalidOperation(String::from_str("Integer overflow"))),
            },
            (Value::Float(a), Value::Float(b)) => Ok(Value::Float(float_add(*a, *b))),
            (Value::Integer(a), Value::Float(b)) => Ok(
                Value::Float(float_add(float_from_integer(*a), *b)),
            ),
            (Value::Float(a), Value::Integer(b)) => Ok(
                Value::Float(float_add(*a, float_from_integer(*b))),
            ),
            (Value::String(a), Value::String(b)) => Ok(
                Value::String(a.clone().concat(b.as_str())),
            ),
            (Value::Boolean(a), Value::Boolean(b)) => Ok(Value::Boolean(*a && *b)),
            _ => Err(DatabaseError::InvalidOperation(String::from_str("Invalid types for addition"))),
        }
    }

    /// The difference of two numbers, the disjunction of two booleans. An
    /// integer and a float give a float.
    pub fn sub(&self, other: &Value) -> (res: Result<Value, DatabaseError>)
        ensures
            match difference(self@, other@) {
                Some(v) => res matches Ok(value) && value@ == v,
                None => res matches Err(DatabaseError::InvalidOperation(_)),
            },
    {
        match (self, other) {
            (Value::Integer(a), Value::Integer(b)) => match a.checked_sub(*b) {
                Some(c) => Ok(Value::Integer(c)),
                None => Err(DatabaseError::InvalidOperation(String::from_str("Integer overflow"))),
            },
            (Value::Float(a), Value::Float(b)) => Ok(Value::Float(float_sub(*a, *b))),
            (Value::Integer(a), Value::Float(b)) => Ok(
                Value::Float(float_sub(float_from_integer(*a), *b)),
            ),
            (Value::Float(a), Value::Integer(b)) => Ok(
                Value::Float(float_sub(*a, float_from_integer(*b))),
            ),
            (Value::Boolean(a), Value::Boolean(b)) => Ok(Value::Boolean(*a || *b)),
            _ => Err(
                DatabaseError::InvalidOperation(String::from_str("Invalid types for subtraction")),
            ),
        }
    }

    /// Whether the two values are of one variant and equal, as a boolean
    /// value. Values of different variants are unequal. Floats compare as
    /// IEEE-754 has it.
    pub fn eq(&self, other: &Value) -> (res: Result<Value, DatabaseError>)
        ensures
            res matches Ok(value) && value@ == ValueView::Boolean(same(self@, other@)),
    {
        Ok(Value::Boolean(self.is_same(other)))
    }

    /// The product of two numbers. An integer and a float give a float.
    pub fn mul(&self, other: &Value) -> (res: Result<Value, DatabaseError>)
        ensures
            match product(self@, other@) {
                Some(v) => res matches Ok(value) && value@ == v,
                None => res matches Err(DatabaseError::InvalidOperation(_)),
            },
    {
        match (self, other) {
            (Value::Integer(a), Value::Integer(b)) => match a.checked_mul(*b) {
                Some(c) => Ok(Value::Integer(c)),
                None => Err(DatabaseError::InvalidOperation(String::from_str("Integer overflow"))),
            },
            (Value::Float(a), Value::Float(b)) => Ok(Value::Float(float_mul(*a, *b))),
            (Value::Integer(a), Value::Float(b)) => Ok(
                Value::Float(float_mul(float_from_integer(*a), *b)),
            ),
            (Value::Float(a), Value::Integer(b)) => Ok(
                Value::Float(float_mul(*a, float_from_integer(*b))),
            ),
            _ => Err(
                DatabaseError::InvalidOperation(
                    String::from_str("Invalid types for multiplication"),
                ),
            ),
        }
    }

    /// The quotient of two numbers: of two integers rounded toward zero,
    /// which fails where the divisor is zero; of an integer and a float, or
    /// of two floats, a float.
    pub fn div(&self, other: &Value) -> (res: Result<Value, DatabaseError>)
        ensures
            match quotient(self@, other@) {
                Some(v) => res matches Ok(value) && value@ == v,
                None => res matches Err(DatabaseError::InvalidOperation(_)),
            },
    {
        match (self, other) {
            (Value::Integer(a), Value::Integer(b)) => match a.checked_div(*b) {
                Some(c) => Ok(Value::Integer(c)),
                None => Err(
                    DatabaseError::InvalidOperation(
                        String::from_str("Division by zero or integer overflow"),
                    ),
                ),
            },
            (Value::Float(a), Value::Float(b)) => Ok(Value::Float(float_div(*a, *b))),
            (Value::Integer(a), Value::Float(b)) => Ok(
                Value::Float(float_div(float_from_integer(*a), *b)),
            ),
            (Value::Float(a), Value::Integer(b)) => Ok(
                Value::Float(float_div(*a, float_from_integer(*b))),
            ),
            _ => Err(DatabaseError::InvalidOperation(String::from_str("Invalid types for division"))),
        }
    }

    fn is_same(&self, other: &Value) -> (res: bool)
        ensures
            res == same(self@, other@),
    {
        match (self, other) {
            (Value::Integer(a), Value::Integer(b)) => *a == *b,
            (Value::Float(a), Value::Float(b)) => {
                let ma: u64 = *a % 0x8000_0000_0000_0000u64;
                let mb: u64 = *b % 0x8000_0000_0000_0000u64;
                ma <= 0x7ff0_0000_0000_0000u64 && mb <= 0x7ff0_0000_0000_0000u64 && (*a == *b || (
                ma == 0 && mb == 0))
            },
            (Value::String(a), Value::String(b)) => *a == *b,
            (Value::Boolean(a), Value::Boolean(b)) => *a == *b,
            (Value::Null, Value::Null) => true,
            _ => false,
        }
    }
}

/// Whether a bit pattern is an IEEE-754 double that is not a number: all
/// exponent bits set and a mantissa that is not zero.
pub open spec fn float_is_nan(bits: u64) -> bool {
    bits % 0x8000_0000_0000_0000 > 0x7ff0_0000_0000_0000
}

/// Equality of two IEEE-754 doubles, given by their bit patterns: neither is
/// not-a-number, and the bits agree or both are a zero.
pub open spec fn float_eq(a: u64, b: u64) -> bool {
    &&& !float_is_nan(a)
    &&& !float_is_nan(b)
    &&& (a == b || (a % 0x8000_0000_0000_0000 == 0 && b % 0x8000_0000_0000_0000 == 0))
}

/// Equality of two values: of one variant, with equal contents.
pub open spec fn same(a: ValueView, b: ValueView) -> bool {
    match (a, b) {
        (ValueView::Integer(x), ValueView::Integer(y)) => x == y,
        (ValueView::Float(x), ValueView::Float(y)) => float_eq(x, y),
        (ValueView::String(x), ValueView::String(y)) => x == y,
        (ValueView::Boolean(x), ValueView::Boolean(y)) => x == y,
        (ValueView::Null, ValueView::Null) => true,
        _ => false,
    }
}

/// `Some` of the integer `n` as a value if it fits 64 bits, else `None`.
pub open spec fn integer_if_fits(n: int) -> Option<ValueView> {
    if i64::MIN <= n <= i64::MAX {
        Some(ValueView::Integer(n as i64))
    } else {
        None
    }
}

/// The quotient of `a` by `b` rounded toward zero, for `b` other than zero.
pub open spec fn truncated_quotient(a: int, b: int) -> int {
    if a >= 0 && b > 0 {
        a / b
    } else if a < 0 && b < 0 {
        (-a) / (-b)
    } else if a < 0 {
        -((-a) / b)
    } else {
        -(a / (-b))
    }
}

/// What `add` gives, or `None` where it fails.
pub open spec fn sum(a: ValueView, b: ValueView) -> Option<ValueView> {
    match (a, b) {
        (ValueView::Integer(x), ValueView::Integer(y)) => integer_if_fits(x + y),
        (ValueView::Float(x), ValueView::Float(y)) => Some(ValueView::Float(float_sum(x, y))),
        (ValueView::Integer(x), ValueView::Float(y)) => Some(
            ValueView::Float(float_sum(float_of_integer(x), y)),
        ),
        (ValueView::Float(x), ValueView::Integer(y)) => Some(
            ValueView::Float(float_sum(x, float_of_integer(y))),
        ),
        (ValueView::String(x), ValueView::String(y)) => Some(ValueView::String(x + y)),
        (ValueView::Boolean(x), ValueView::Boolean(y)) => Some(ValueView::Boolean(x && y)),
        _ => None,
    }
}

/// What `sub` gives, or `None` where it fails.
pub open spec fn difference(a: ValueView, b: ValueView) -> Option<ValueView> {
    match (a, b) {
        (ValueView::Integer(x), ValueView::Integer(y)) => integer_if_fits(x - y),
        (ValueView::Float(x), ValueView::Float(y)) => Some(
            ValueView::Float(float_difference(x, y)),
        ),
        (ValueView::Integer(x), ValueView::Float(y)) => Some(
            ValueView::Float(float_difference(float_of_integer(x), y)),
        ),
        (ValueView::Float(x), ValueView::Integer(y)) => Some(
            ValueView::Float(float_difference(x, float_of_integer(y))),
        ),
        (ValueView::Boolean(x), ValueView::Boolean(y)) => Some(ValueView::Boolean(x || y)),
        _ => None,
    }
}

/// What `mul` gives, or `None` where it fails.
pub open spec fn product(a: ValueView, b: ValueView) -> Option<ValueView> {
    match (a, b) {
        (ValueView::Integer(x), ValueView::Integer(y)) => integer_if_fits(x * y),
        (ValueView::Float(x), ValueView::Float(y)) => Some(ValueView::Float(float_product(x, y))),
        (ValueView::Integer(x), ValueView::Float(y)) => Some(
            ValueView::Float(float_product(float_of_integer(x), y)),
        ),
        (ValueView::Float(x), ValueView::Integer(y)) => Some(
            ValueView::Float(float_product(x, float_of_integer(y))),
        ),
        _ => None,
    }
}

/// What `div` gives, or `None` where it fails.
pub open spec fn quotient(a: ValueView, b: ValueView) -> Option<ValueView> {
    match (a, b) {
        (ValueView::Integer(x), ValueView::Integer(y)) => if y == 0 {
            None
        } else {
            integer_if_fits(truncated_quotient(x as int, y as int))
        },
        (ValueView::Float(x), ValueView::Float(y)) => Some(ValueView::Float(float_quotient(x, y))),
        (ValueView::Integer(x), ValueView::Float(y)) => Some(
            ValueView::Float(float_quotient(float_of_integer(x), y)),
        ),
        (ValueView::Float(x), ValueView::Integer(y)) => Some(
            ValueView::Float(float_quotient(x, float_of_integer(y))),
        ),
        _ => None,
    }
}

impl Clone for Value {
    fn clone(&self) -> (res: Self)
        ensures
            res == *self,
    {
        match self {
            Value::Integer(i) => Value::Integer(*i),
            Value::Float(bits) => Value::Float(*bits),
            Value::String(s) => Value::String(s.clone()),
            Value::Boolean(b) => Value::Boolean(*b),
            Value::Null => Value::Null,
        }
    }
}

impl PartialEq for Value {
    fn eq(&self, other: &Value) -> (res: bool) {
        self.is_same(other)
    }
}

impl vstd::std_specs::cmp::PartialEqSpecImpl for Value {
    open spec fn obeys_eq_spec() -> bool {
        true
    }

    open spec fn eq_spec(&self, other: &Value) -> bool {
        same(self@, other@)
    }
}

/// Decoding the bytes of a value, whatever follows them, gives the value
/// back, with the number of bytes that its layout takes.
pub proof fn lemma_decode_encode(v: ValueView, rest: Seq<u8>)
    requires
        v.encodable(),
    ensures
        decode(v.encode() + rest) == Some((v, v.encode().len())),
{
    let bytes = v.encode() + rest;
    lemma_limits();
    match v {
        ValueView::Null => {},
        ValueView::Integer(i) => {
            let t = twos(i as int, 8);
            lemma_le_bytes_len(t, 8);
            lemma_twos_round_trip(i as int, 8);
            lemma_le_value_of_bytes(t, 8);
            assert(bytes.subrange(1, 9) =~= le_bytes(t, 8));
        },
        ValueView::Float(bits) => {
            lemma_le_bytes_len(bits as nat, 8);
            lemma_le_value_of_bytes(bits as nat, 8);
            assert(bytes.subrange(1, 9) =~= le_bytes(bits as nat, 8));
        },
        ValueView::String(s) => {
            let payload = encode_utf8(s);
            lemma_le_bytes_len(payload.len(), 4);
            lemma_le_value_of_bytes(payload.len(), 4);
            assert(bytes.subrange(1, 5) =~= le_bytes(payload.len(), 4));
            assert(bytes.subrange(5, 5 + payload.len() as int) =~= payload);
            encode_utf8_valid_utf8(s);
            encode_utf8_decode_utf8(s);
        },
        ValueView::Boolean(b) => {},
    }
}

} // verus!
