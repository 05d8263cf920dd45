//! Strings as sequences of characters, and numbers written out in
//! decimal.

use vstd::prelude::*;
use vstd::std_specs::iter::IteratorSpec;
use vstd::string::*;

verus! {

/// `String::from_iter` of std on characters: the string of the characters.
#[verifier::external_body]
pub(crate) fn to_string(s: &[char]) -> (r: String)
    ensures
        r@ == s@,
{
    s.iter().collect()
}

/// The characters of the string.
pub fn to_chars(s: &str) -> (r: Vec<char>)
    ensures
        r@ == s@,
{
    let mut out: Vec<char> = Vec::new();
    let mut rest = s.chars();
    loop
        invariant
            rest.obeys_prophetic_iter_laws(),
            rest.decrease() is Some,
            out@ + rest.remaining() == s@,
        decreases rest.decrease()->0,
    {
        match rest.next() {
            Some(c) => {
                out.push(c);
                assert(out@ + rest.remaining() =~= s@);
            },
            None => {
                assert(out@ + rest.remaining() =~= out@);
                return out;
            },
        }
    }
}

/// The character of a digit.
pub open spec fn digit_char(d: nat) -> char {
    if d == 0 {
        '0'
    } else if d == 1 {
        '1'
    } else if d == 2 {
        '2'
    } else if d == 3 {
        '3'
    } else if d == 4 {
        '4'
    } else if d == 5 {
        '5'
    } else if d == 6 {
        '6'
    } else if d == 7 {
        '7'
    } else if d == 8 {
        '8'
    } else {
        '9'
    }
}

/// The number in decimal, without zeros before it.
pub open spec fn decimal(n: nat) -> Seq<char>
    decreases n,
{
    if n < 10 {
        seq![digit_char(n)]
    } else {
        decimal(n / 10).push(digit_char(n % 10))
    }
}

/// The number in decimal.
pub fn decimal_of(n: u32) -> (text: Vec<char>)
    ensures
        text@ == decimal(n as nat),
    decreases n,
{
    let last = n % 10;
    let c = if last == 0 {
        '0'
    } else if last == 1 {
        '1'
    } else if last == 2 {
        '2'
    } else if last == 3 {
        '3'
    } else if last == 4 {
        '4'
    } else if last == 5 {
        '5'
    } else if last == 6 {
        '6'
    } else if last == 7 {
        '7'
    } else if last == 8 {
        '8'
    } else {
        '9'
    };
    if n < 10 {
        let mut text: Vec<char> = Vec::new();
        text.push(c);
        assert(text@ =~= seq![digit_char(n as nat)]);
        text
    } else {
        let mut text = decimal_of(n / 10);
        text.push(c);
        text
    }
}

} // verus!
