//! Small verified helpers for building the strings that error reports and
//! token spellings are made of: appending single characters and rendering
//! signed decimal numbers.
use vstd::prelude::*;

verus! {

/// Relies on String::push: appends exactly one character at the end.
#[verifier::external_body]
pub fn push_char(s: &mut String, c: char)
    ensures
        final(s)@ == old(s)@.push(c),
{
    s.push(c)
}

/// The decimal digit character for a value between 0 and 9.
pub open spec fn dec_digit(d: int) -> char
    recommends
        0 <= d <= 9,
{
    ((d + '0' as int) as u8) as char
}

/// The decimal spelling of a non-negative number, most significant digit first.
pub open spec fn dec_digits(n: int) -> Seq<char>
    recommends
        0 <= n,
    decreases n,
{
    if n < 10 {
        seq![dec_digit(n)]
    } else {
        dec_digits(n / 10).push(dec_digit(n % 10))
    }
}

/// The decimal spelling of a signed number: a minus sign for negative values,
/// then the digits of its magnitude.
pub open spec fn int_str(n: int) -> Seq<char> {
    if n < 0 {
        seq!['-'] + dec_digits(-n)
    } else {
        dec_digits(n)
    }
}

fn digit_char(d: u8) -> (c: char)
    requires
        d <= 9,
    ensures
        c == dec_digit(d as int),
{
    (d + 48) as char
}

fn u64_digits(n: u64) -> (r: String)
    ensures
        r@ == dec_digits(n as int),
    decreases n,
{
    if n < 10 {
        let mut s = String::new();
        push_char(&mut s, digit_char(n as u8));
        proof {
            assert(s@ =~= dec_digits(n as int));
        }
        s
    } else {
        let mut s = u64_digits(n / 10);
        push_char(&mut s, digit_char((n % 10) as u8));
        s
    }
}

/// Renders a signed 32-bit number in decimal, exactly as the standard
/// formatter would.
pub fn i32_to_string(n: i32) -> (r: String)
    ensures
        r@ == int_str(n as int),
{
    if n < 0 {
        let mag: u64 = (-(n as i64)) as u64;
        let mut s = String::new();
        push_char(&mut s, '-');
        let d = u64_digits(mag);
        s.append(d.as_str());
        proof {
            assert(s@ =~= int_str(n as int));
        }
        s
    } else {
        u64_digits(n as u64)
    }
}

} // verus!
