//! The capability the generic prompt primitives are parameterized over: a
//! type that can be parsed from one line of text, together with the exact
//! statement of which texts parse and to which value.
//!
//! Numeric implementations first strip digit-grouping commas, so a literal
//! such as "1,454,398" parses as the plain number it denotes.

use vstd::prelude::*;

use crate::numbers::all_digits;
use crate::numbers::digits_val;
use crate::numbers::parse_digits;
use crate::numbers::strip_commas;
use crate::numbers::strip_commas_str;

verus! {

/// A type with a defined text-to-value conversion that can fail.
///
/// `parse_ok` says which texts convert, `parse_val` what value (as the type's
/// view) a converting text denotes, and `parse_text` is the conversion
/// itself.
pub trait Parseable: View + Sized {
    /// Whether `s` parses as a value of this type.
    spec fn parse_ok(s: Seq<char>) -> bool;

    /// The view of the value `s` parses to, meaningful when `parse_ok(s)`
    /// holds.
    spec fn parse_val(s: Seq<char>) -> Self::V;

    /// Parses `s`; returns the value exactly when `parse_ok(s@)` holds.
    fn parse_text(s: &str) -> (r: Option<Self>)
        ensures
            r is Some <==> Self::parse_ok(s@),
            r matches Some(v) ==> v@ == Self::parse_val(s@),
    ;
}

/// The digit part of an unsigned literal: an optional leading '+' is
/// dropped.
pub open spec fn uint_body(t: Seq<char>) -> Seq<char> {
    if t.len() > 0 && t[0] == '+' {
        t.drop_first()
    } else {
        t
    }
}

/// The digit part of a signed literal: an optional leading '+' or '-' is
/// dropped.
pub open spec fn sint_body(t: Seq<char>) -> Seq<char> {
    if t.len() > 0 && (t[0] == '+' || t[0] == '-') {
        t.drop_first()
    } else {
        t
    }
}

/// Whether a signed literal carries a minus sign.
pub open spec fn sint_neg(t: Seq<char>) -> bool {
    t.len() > 0 && t[0] == '-'
}

/// Whether `s`, after comma stripping, is a well-formed unsigned decimal
/// literal.
pub open spec fn uint_ok(s: Seq<char>) -> bool {
    let b = uint_body(strip_commas(s));
    b.len() > 0 && all_digits(b)
}

/// The value of the unsigned literal `s` (meaningful when `uint_ok(s)`).
pub open spec fn uint_val(s: Seq<char>) -> int {
    digits_val(uint_body(strip_commas(s)))
}

/// Whether `s`, after comma stripping, is a well-formed signed decimal
/// literal.
pub open spec fn sint_ok(s: Seq<char>) -> bool {
    let b = sint_body(strip_commas(s));
    b.len() > 0 && all_digits(b)
}

/// The value of the signed literal `s` (meaningful when `sint_ok(s)`).
pub open spec fn sint_val(s: Seq<char>) -> int {
    if sint_neg(strip_commas(s)) {
        -digits_val(sint_body(strip_commas(s)))
    } else {
        digits_val(sint_body(strip_commas(s)))
    }
}

/// Parses `s` as an unsigned decimal literal with grouping commas allowed.
fn parse_unsigned(s: &str) -> (r: Option<u64>)
    ensures
        r is Some <==> uint_ok(s@) && uint_val(s@) <= u64::MAX,
        r matches Some(m) ==> m == uint_val(s@),
{
    let t = strip_commas_str(s);
    let start: usize = if t.len() > 0 && t[0] == '+' {
        1
    } else {
        0
    };
    proof {
        assert(t@.skip(start as int) =~= uint_body(strip_commas(s@)));
    }
    parse_digits(&t, start)
}

/// Parses `s` as a signed decimal literal with grouping commas allowed,
/// returning the sign and the magnitude.
fn parse_sign_mag(s: &str) -> (r: Option<(bool, u64)>)
    ensures
        r is Some <==> sint_ok(s@) && digits_val(sint_body(strip_commas(s@))) <= u64::MAX,
        r matches Some(p) ==> p.0 == sint_neg(strip_commas(s@)) && p.1 == digits_val(
            sint_body(strip_commas(s@)),
        ),
{
    let t = strip_commas_str(s);
    let neg = t.len() > 0 && t[0] == '-';
    let start: usize = if t.len() > 0 && (t[0] == '+' || t[0] == '-') {
        1
    } else {
        0
    };
    proof {
        assert(t@.skip(start as int) =~= sint_body(strip_commas(s@)));
    }
    match parse_digits(&t, start) {
        Some(m) => Some((neg, m)),
        None => None,
    }
}

impl Parseable for String {
    open spec fn parse_ok(s: Seq<char>) -> bool {
        true
    }

    open spec fn parse_val(s: Seq<char>) -> Seq<char> {
        s
    }

    fn parse_text(s: &str) -> (r: Option<String>) {
        Some(s.to_owned())
    }
}

impl Parseable for u64 {
    open spec fn parse_ok(s: Seq<char>) -> bool {
        uint_ok(s) && uint_val(s) <= u64::MAX
    }

    open spec fn parse_val(s: Seq<char>) -> u64 {
        uint_val(s) as u64
    }

    fn parse_text(s: &str) -> (r: Option<u64>) {
        parse_unsigned(s)
    }
}

impl Parseable for u32 {
    open spec fn parse_ok(s: Seq<char>) -> bool {
        uint_ok(s) && uint_val(s) <= u32::MAX
    }

    open spec fn parse_val(s: Seq<char>) -> u32 {
        uint_val(s) as u32
    }

    fn parse_text(s: &str) -> (r: Option<u32>) {
        match parse_unsigned(s) {
            Some(m) => {
                if m <= u32::MAX as u64 {
                    Some(m as u32)
                } else {
                    None
                }
            },
            None => None,
        }
    }
}

impl Parseable for u8 {
    open spec fn parse_ok(s: Seq<char>) -> bool {
        uint_ok(s) && uint_val(s) <= u8::MAX
    }

    open spec fn parse_val(s: Seq<char>) -> u8 {
        uint_val(s) as u8
    }

    fn parse_text(s: &str) -> (r: Option<u8>) {
        match parse_unsigned(s) {
            Some(m) => {
                if m <= u8::MAX as u64 {
                    Some(m as u8)
                } else {
                    None
                }
            },
            None => None,
        }
    }
}

impl Parseable for i64 {
    open spec fn parse_ok(s: Seq<char>) -> bool {
        sint_ok(s) && i64::MIN <= sint_val(s) <= i64::MAX
    }

    open spec fn parse_val(s: Seq<char>) -> i64 {
        sint_val(s) as i64
    }

    fn parse_text(s: &str) -> (r: Option<i64>) {
        match parse_sign_mag(s) {
            Some((neg, m)) => {
                if neg {
                    if m == 9223372036854775808u64 {
                        Some(i64::MIN)
                    } else if m < 9223372036854775808u64 {
                        Some(-(m as i64))
                    } else {
                        None
                    }
                } else {
                    if m <= 9223372036854775807u64 {
                        Some(m as i64)
                    } else {
                        None
                    }
                }
            },
            None => None,
        }
    }
}

impl Parseable for i32 {
    open spec fn parse_ok(s: Seq<char>) -> bool {
        sint_ok(s) && i32::MIN <= sint_val(s) <= i32::MAX
    }

    open spec fn parse_val(s: Seq<char>) -> i32 {
        sint_val(s) as i32
    }

    fn parse_text(s: &str) -> (r: Option<i32>) {
        match parse_sign_mag(s) {
            Some((neg, m)) => {
                if neg {
                    if m == 2147483648u64 {
                        Some(i32::MIN)
                    } else if m < 2147483648u64 {
                        Some(-(m as i32))
                    } else {
                        None
                    }
                } else {
                    if m <= 2147483647u64 {
                        Some(m as i32)
                    } else {
                        None
                    }
                }
            },
            None => None,
        }
    }
}

} // verus!
