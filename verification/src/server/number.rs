//! Numbers as they are written in commands: integers in decimal with an
//! optional sign, and floats in decimal with an optional fraction and
//! exponent.

use crate::server::text::slice;
use vstd::prelude::*;
use vstd::string::*;

verus! {

/// Whether the character is one of the digits `0` to `9`.
pub open spec fn is_digit(c: char) -> bool {
    '0' <= c <= '9'
}

/// The number that the digits stand for in decimal.
pub open spec fn digits_value(s: Seq<char>) -> nat
    decreases s.len(),
{
    if s.len() == 0 {
        0
    } else {
        digits_value(s.drop_last()) * 10 + (s.last() as nat - '0' as nat) as nat
    }
}

/// Whether `s` is one digit or more, and digits only.
pub open spec fn all_digits(s: Seq<char>) -> bool {
    s.len() > 0 && forall|i: int| 0 <= i < s.len() ==> is_digit(#[trigger] s[i])
}

/// The integer that `s` stands for: digits behind an optional `+` or `-`;
/// `None` where `s` is no such text.
pub open spec fn integer(s: Seq<char>) -> Option<int> {
    if s.len() > 0 && s[0] == '-' {
        if all_digits(s.skip(1)) {
            Some(-(digits_value(s.skip(1)) as int))
        } else {
            None
        }
    } else if s.len() > 0 && s[0] == '+' {
        if all_digits(s.skip(1)) {
            Some(digits_value(s.skip(1)) as int)
        } else {
            None
        }
    } else if all_digits(s) {
        Some(digits_value(s) as int)
    } else {
        None
    }
}

/// The `i32` that `s` stands for, if it stands for an integer that is one.
pub open spec fn as_i32(s: Seq<char>) -> Option<i32> {
    match integer(s) {
        Some(v) => if i32::MIN <= v <= i32::MAX {
            Some(v as i32)
        } else {
            None
        },
        None => None,
    }
}

/// The `i64` that `s` stands for, if it stands for an integer that is one.
pub open spec fn as_i64(s: Seq<char>) -> Option<i64> {
    match integer(s) {
        Some(v) => if i64::MIN <= v <= i64::MAX {
            Some(v as i64)
        } else {
            None
        },
        None => None,
    }
}

/// The `usize` that `s` stands for, if it stands for a number without a
/// `-` that is one.
pub open spec fn as_usize(s: Seq<char>) -> Option<usize> {
    if s.len() > 0 && s[0] == '-' {
        None
    } else {
        match integer(s) {
            Some(v) => if v <= usize::MAX {
                Some(v as usize)
            } else {
                None
            },
            None => None,
        }
    }
}

/// The number that the digits from `from` on stand for, or 2 to the power
/// 64 where it is that or more; `None` where there is no digit, or a
/// character that is no digit.
fn magnitude(s: &[char], from: usize) -> (res: Option<u128>)
    requires
        from <= s@.len(),
    ensures
        res is Some <==> all_digits(s@.skip(from as int)),
        res matches Some(m) ==> m == if digits_value(s@.skip(from as int))
            < 0x1_0000_0000_0000_0000 {
            digits_value(s@.skip(from as int))
        } else {
            0x1_0000_0000_0000_0000
        },
{
    let len = s.len();
    if from == len {
        return None;
    }
    let ghost text = s@.skip(from as int);
    let mut acc: u128 = 0;
    let mut i: usize = from;
    assert(text.take(0) =~= Seq::<char>::empty());
    while i < len
        invariant
            from <= i <= len == s@.len(),
            text == s@.skip(from as int),
            forall|k: int| 0 <= k < i - from ==> is_digit(#[trigger] text[k]),
            acc <= 0x1_0000_0000_0000_0000,
            acc == if digits_value(text.take(i - from)) < 0x1_0000_0000_0000_0000 {
                digits_value(text.take(i - from))
            } else {
                0x1_0000_0000_0000_0000
            },
        decreases len - i,
    {
        let c = s[i];
        if !('0' <= c && c <= '9') {
            assert(!is_digit(text[i - from]));
            return None;
        }
        let d = (c as u32 - '0' as u32) as u128;
        proof {
            assert(text[i - from] == c);
            assert(text.take(i - from + 1).drop_last() =~= text.take(i - from));
            assert(text.take(i - from + 1).last() == c);
        }
        acc = acc * 10 + d;
        if acc > 0x1_0000_0000_0000_0000 {
            acc = 0x1_0000_0000_0000_0000;
        }
        i += 1;
    }
    assert(text.take(len - from) =~= text);
    Some(acc)
}

/// The integer that `s` stands for, with a magnitude of 2 to the power 64
/// where it is that or more.
fn parse_integer(s: &[char]) -> (res: Option<(bool, u128)>)
    ensures
        res is Some <==> integer(s@) is Some,
        res matches Some((negative, m)) ==> {
            let v = integer(s@).unwrap();
            &&& negative == (s@.len() > 0 && s@[0] == '-')
            &&& m <= 0x1_0000_0000_0000_0000
            &&& m == if v >= 0x1_0000_0000_0000_0000 || v <= -0x1_0000_0000_0000_0000 {
                0x1_0000_0000_0000_0000
            } else if v >= 0 {
                v
            } else {
                -v
            }
        },
{
    if s.len() > 0 && s[0] == '-' {
        match magnitude(s, 1) {
            Some(m) => Some((true, m)),
            None => None,
        }
    } else if s.len() > 0 && s[0] == '+' {
        match magnitude(s, 1) {
            Some(m) => Some((false, m)),
            None => None,
        }
    } else {
        assert(s@.skip(0) =~= s@);
        match magnitude(s, 0) {
            Some(m) => Some((false, m)),
            None => None,
        }
    }
}

/// The `i32` that `s` stands for.
pub fn parse_i32(s: &[char]) -> (res: Option<i32>)
    ensures
        res == as_i32(s@),
{
    match parse_integer(s) {
        Some((negative, m)) => {
            if negative {
                if m <= 0x8000_0000 {
                    Some((-(m as i64)) as i32)
                } else {
                    None
                }
            } else if m <= 0x7fff_ffff {
                Some(m as i32)
            } else {
                None
            }
        },
        None => None,
    }
}

/// The `i64` that `s` stands for.
pub fn parse_i64(s: &[char]) -> (res: Option<i64>)
    ensures
        res == as_i64(s@),
{
    match parse_integer(s) {
        Some((negative, m)) => {
            if negative {
                if m <= 0x8000_0000_0000_0000 {
                    Some((-(m as i128)) as i64)
                } else {
                    None
                }
            } else if m <= 0x7fff_ffff_ffff_ffff {
                Some(m as i64)
            } else {
                None
            }
        },
        None => None,
    }
}

/// The `usize` that `s` stands for.
pub fn parse_usize(s: &[char]) -> (res: Option<usize>)
    ensures
        res == as_usize(s@),
{
    match parse_integer(s) {
        Some((negative, m)) => {
            if negative || m > usize::MAX as u128 {
                None
            } else {
                Some(m as usize)
            }
        },
        None => None,
    }
}

/// The code point of the letter in lower case, for the letters `A` to
/// `Z`; that of any other character as it is.
pub open spec fn lower_code(c: char) -> u32 {
    if 'A' <= c <= 'Z' {
        ((c as u32) + 32) as u32
    } else {
        c as u32
    }
}

/// Whether `s` is `word` where letters of either case count as the same;
/// `word` is in lower case.
pub open spec fn same_letters(s: Seq<char>, word: Seq<char>) -> bool {
    s.len() == word.len() && forall|i: int|
        0 <= i < s.len() ==> lower_code(#[trigger] s[i]) == word[i] as u32
}

/// The number of digits that stand in `s` from `from` on, one behind the
/// other.
pub open spec fn digit_run(s: Seq<char>, from: int) -> nat
    decreases s.len() - from,
{
    if 0 <= from < s.len() && is_digit(s[from]) {
        1 + digit_run(s, from + 1)
    } else {
        0
    }
}

/// Whether `s` is a number in decimal: digits with an optional point among
/// them, before them or behind them, and an optional exponent, which is an
/// `e` or `E`, an optional sign, and digits.
pub open spec fn is_decimal(s: Seq<char>) -> bool {
    let whole = digit_run(s, 0) as int;
    let dot = whole < s.len() && s[whole] == '.';
    let fraction = if dot {
        digit_run(s, whole + 1) as int
    } else {
        0
    };
    let mantissa = whole + fraction + if dot {
        1int
    } else {
        0
    };
    &&& whole + fraction >= 1
    &&& mantissa == s.len() || {
        &&& mantissa < s.len()
        &&& s[mantissa] == 'e' || s[mantissa] == 'E'
        &&& {
            let signed = mantissa + 1 < s.len() && (s[mantissa + 1] == '+' || s[mantissa + 1]
                == '-');
            let digits = mantissa + 1 + if signed {
                1int
            } else {
                0
            };
            digit_run(s, digits) >= 1 && digits + digit_run(s, digits) == s.len()
        }
    }
}

/// What a text can be as a float.
pub enum FloatShape {
    /// `inf` or `infinity`, in letters of either case.
    Infinite,
    /// `nan`, in letters of either case.
    NotANumber,
    /// A number in decimal.
    Decimal,
}

/// What `s`, behind its sign, is as a float, if it is one.
pub open spec fn float_shape(s: Seq<char>) -> Option<FloatShape> {
    if same_letters(s, seq!['i', 'n', 'f']) || same_letters(
        s,
        seq!['i', 'n', 'f', 'i', 'n', 'i', 't', 'y'],
    ) {
        Some(FloatShape::Infinite)
    } else if same_letters(s, seq!['n', 'a', 'n']) {
        Some(FloatShape::NotANumber)
    } else if is_decimal(s) {
        Some(FloatShape::Decimal)
    } else {
        None
    }
}

/// The text behind an optional sign.
pub open spec fn unsigned_part(s: Seq<char>) -> Seq<char> {
    if s.len() > 0 && (s[0] == '+' || s[0] == '-') {
        s.skip(1)
    } else {
        s
    }
}

/// The bits of the double that the number `s` in decimal stands for,
/// rounded to nearest, ties to even.
pub uninterp spec fn decimal_float(s: Seq<char>) -> Option<u64>;

/// The bits of the double that `s` stands for: an infinity, a
/// not-a-number, or the double nearest to a number in decimal; `None` where
/// `s` is no float.
pub open spec fn float_bits(s: Seq<char>) -> Option<u64> {
    let negative = s.len() > 0 && s[0] == '-';
    let sign: u64 = if negative {
        0x8000_0000_0000_0000
    } else {
        0
    };
    match float_shape(unsigned_part(s)) {
        Some(FloatShape::Infinite) => Some((0x7ff0_0000_0000_0000 + sign) as u64),
        Some(FloatShape::NotANumber) => Some((0x7ff8_0000_0000_0000 + sign) as u64),
        Some(FloatShape::Decimal) => decimal_float(s),
        None => None,
    }
}

/// `Float::from_str` of rustc_apfloat for IEEE-754 doubles, on a text that
/// is a number in decimal with an optional sign: the double depends on the
/// text alone. `None` where the text is refused.
#[verifier::external_body]
fn decimal_to_float(s: &[char]) -> (r: Option<u64>)
    ensures
        r == decimal_float(s@),
{
    let text: String = s.iter().collect();
    match <rustc_apfloat::ieee::Double as core::str::FromStr>::from_str(&text) {
        Ok(x) => Some(rustc_apfloat::Float::to_bits(x) as u64),
        Err(_) => None,
    }
}

/// The number of digits from `from` on.
fn count_digits(s: &[char], from: usize) -> (n: usize)
    requires
        from <= s@.len(),
    ensures
        n == digit_run(s@, from as int),
        from + n <= s@.len(),
{
    let len = s.len();
    let mut i: usize = from;
    while i < len && '0' <= s[i] && s[i] <= '9'
        invariant
            from <= i <= len == s@.len(),
            digit_run(s@, from as int) == (i - from) + digit_run(s@, i as int),
        decreases len - i,
    {
        i += 1;
    }
    i - from
}

/// Whether `s` is a number in decimal.
fn decimal_shape(s: &[char]) -> (res: bool)
    ensures
        res == is_decimal(s@),
{
    let len = s.len();
    let whole = count_digits(s, 0);
    let dot = whole < len && s[whole] == '.';
    let fraction = if dot {
        count_digits(s, whole + 1)
    } else {
        0
    };
    let mantissa = whole + fraction + if dot {
        1
    } else {
        0
    };
    if whole + fraction < 1 {
        return false;
    }
    if mantissa == len {
        return true;
    }
    if !(s[mantissa] == 'e' || s[mantissa] == 'E') {
        return false;
    }
    let signed = mantissa + 1 < len && (s[mantissa + 1] == '+' || s[mantissa + 1] == '-');
    let digits = mantissa + 1 + if signed {
        1
    } else {
        0
    };
    let run = count_digits(s, digits);
    run >= 1 && digits + run == len
}

/// Whether `s` is `word`, in letters of either case.
fn is_word(s: &[char], word: &[char]) -> (res: bool)
    ensures
        res == same_letters(s@, word@),
{
    if s.len() != word.len() {
        return false;
    }
    let mut i: usize = 0;
    while i < s.len()
        invariant
            i <= s@.len() == word@.len(),
            forall|k: int| 0 <= k < i ==> lower_code(#[trigger] s@[k]) == word@[k] as u32,
        decreases s@.len() - i,
    {
        let c = s[i];
        let code: u32 = if 'A' <= c && c <= 'Z' {
            c as u32 + 32
        } else {
            c as u32
        };
        if code != word[i] as u32 {
            assert(lower_code(s@[i as int]) != word@[i as int] as u32);
            return false;
        }
        i += 1;
    }
    true
}

/// The bits of the double that `s` stands for.
pub fn parse_float(s: &[char]) -> (res: Option<u64>)
    ensures
        res == float_bits(s@),
{
    let negative = s.len() > 0 && s[0] == '-';
    let signed = s.len() > 0 && (s[0] == '+' || s[0] == '-');
    let body = if signed {
        slice(s, 1, s.len())
    } else {
        slice(s, 0, s.len())
    };
    assert(body@ =~= unsigned_part(s@));
    let sign: u64 = if negative {
        0x8000_0000_0000_0000
    } else {
        0
    };
    let inf = ['i', 'n', 'f'];
    let infinity = ['i', 'n', 'f', 'i', 'n', 'i', 't', 'y'];
    let nan = ['n', 'a', 'n'];
    if is_word(body.as_slice(), inf.as_slice()) || is_word(body.as_slice(), infinity.as_slice()) {
        Some(0x7ff0_0000_0000_0000 + sign)
    } else if is_word(body.as_slice(), nan.as_slice()) {
        Some(0x7ff8_0000_0000_0000 + sign)
    } else if decimal_shape(body.as_slice()) {
        decimal_to_float(s)
    } else {
        None
    }
}

} // verus!
