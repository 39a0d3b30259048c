//! WordprocessingML attribute values: on/off toggles, measures, colors and the
//! enumerations the importer reads.

use vstd::prelude::*;
use crate::bytes::{sbytes, str_eq, ubytes};
use crate::content_types::{ascii_lower, eq_ci, eq_ignore_ascii_case};
use crate::model::{Justification, VertAlign};
use crate::text::owned;

verus! {

/// An on/off toggle: an absent `val` on a present element means "on".
pub open spec fn on_spec(v: Option<Seq<char>>) -> bool {
    match v {
        None => true,
        Some(s) => s == "true"@ || s == "on"@ || s == "1"@ || s.len() == 0,
    }
}

/// Read an on/off toggle (see [`on_spec`]).
pub fn on(v: &Option<String>) -> (r: bool)
    ensures
        r == on_spec(match v {
            Some(s) => Some(s@),
            None => None,
        }),
{
    match v {
        None => true,
        Some(s) => str_eq(s.as_str(), "true") || str_eq(s.as_str(), "on") || str_eq(s.as_str(), "1") || s.as_str().is_empty(),
    }
}

/// The value of a run of decimal digits.
pub open spec fn digits_value(b: Seq<u8>) -> int
    decreases b.len(),
{
    if b.len() == 0 {
        0
    } else {
        digits_value(b.drop_last()) * 10 + (b.last() - 0x30)
    }
}

/// Is `b` a non-empty run of decimal digits?
pub open spec fn all_digits(b: Seq<u8>) -> bool {
    b.len() > 0 && forall|i: int| 0 <= i < b.len() ==> 0x30 <= #[trigger] b[i] <= 0x39
}

/// A decimal integer with an optional sign, as a value.
pub open spec fn integer_of(b: Seq<u8>) -> Option<int> {
    if b.len() > 0 && (b[0] == 0x2d || b[0] == 0x2b) {
        if all_digits(b.drop_first()) {
            Some(if b[0] == 0x2d { -digits_value(b.drop_first()) } else { digits_value(b.drop_first()) })
        } else {
            None
        }
    } else if all_digits(b) {
        Some(digits_value(b))
    } else {
        None
    }
}

/// A signed measure in twips that fits in `i32` (a universal measure such as
/// `2.5pt` is not read).
pub open spec fn signed_measure(v: Seq<char>) -> Option<i32> {
    match integer_of(ubytes(v)) {
        Some(n) => if i32::MIN <= n <= i32::MAX {
            Some(n as i32)
        } else {
            None
        },
        None => None,
    }
}

/// An unsigned measure (no sign) that fits in `i32`.
pub open spec fn unsigned_measure(v: Seq<char>) -> Option<i32> {
    let b = ubytes(v);
    if all_digits(b) && digits_value(b) <= i32::MAX {
        Some(digits_value(b) as i32)
    } else {
        None
    }
}

/// A half-point measure that fits in `u32`.
pub open spec fn half_points(v: Seq<char>) -> Option<u32> {
    let b = ubytes(v);
    if all_digits(b) && digits_value(b) <= u32::MAX {
        Some(digits_value(b) as u32)
    } else {
        None
    }
}

proof fn lemma_digits_nonneg(b: Seq<u8>)
    requires
        forall|i: int| 0 <= i < b.len() ==> 0x30 <= #[trigger] b[i] <= 0x39,
    ensures
        digits_value(b) >= 0,
    decreases b.len(),
{
    if b.len() > 0 {
        lemma_digits_nonneg(b.drop_last());
    }
}

proof fn lemma_digits_grow(b: Seq<u8>, k: int)
    requires
        0 <= k <= b.len(),
        forall|i: int| 0 <= i < b.len() ==> 0x30 <= #[trigger] b[i] <= 0x39,
    ensures
        digits_value(b.take(k)) <= digits_value(b),
    decreases b.len() - k,
{
    if k < b.len() {
        lemma_digits_grow(b, k + 1);
        assert(b.take(k + 1).drop_last() =~= b.take(k));
        lemma_digits_nonneg(b.take(k));
    } else {
        assert(b.take(k) =~= b);
    }
}

/// Read a run of decimal digits as a value no larger than `limit`, or nothing
/// when `b` is not such a run or its value exceeds `limit`.
fn read_digits(b: &[u8], limit: u64) -> (r: Option<u64>)
    requires
        limit >= 9,
    ensures
        match r {
            Some(n) => all_digits(b@) && n == digits_value(b@) && n <= limit,
            None => !(all_digits(b@) && digits_value(b@) <= limit),
        },
{
    if b.len() == 0 {
        return None;
    }
    let mut v: u64 = 0;
    let mut i: usize = 0;
    while i < b.len()
        invariant
            i <= b@.len(),
            b@.len() > 0,
            forall|k: int| 0 <= k < i ==> 0x30 <= #[trigger] b@[k] <= 0x39,
            v == digits_value(b@.take(i as int)),
            v <= limit,
            limit >= 9,
        decreases b@.len() - i,
    {
        assert(b@.take(i + 1).drop_last() =~= b@.take(i as int));
        let c = b[i];
        if c < 0x30 || c > 0x39 {
            return None;
        }
        let d: u64 = (c - 0x30) as u64;
        if v > (limit - d) / 10 {
            proof {
                assert forall|k: int| 0 <= k < i + 1 implies 0x30 <= #[trigger] b@.take(i + 1)[k] <= 0x39 by {}
                if all_digits(b@) {
                    lemma_digits_grow(b@, i + 1);
                }
                assert(v * 10 + d > limit) by (nonlinear_arith)
                    requires
                        v > (limit - d) / 10,
                        d <= 9,
                ;
            }
            return None;
        }
        proof {
            assert(v * 10 + d <= limit) by (nonlinear_arith)
                requires
                    v <= (limit - d) / 10,
                    d <= 9,
            ;
        }
        v = v * 10 + d;
        i = i + 1;
    }
    assert(b@.take(b@.len() as int) =~= b@);
    Some(v)
}

/// Read a signed measure (see [`signed_measure`]).
pub fn signed_twips(v: &str) -> (r: Option<i32>)
    ensures
        r == signed_measure(v@),
{
    let b = v.as_bytes();
    if b.len() > 0 && (b[0] == 0x2d || b[0] == 0x2b) {
        let neg = b[0] == 0x2d;
        let rest = &b[1..b.len()];
        assert(rest@ =~= b@.drop_first());
        match read_digits(rest, 2147483648u64) {
            Some(n) => {
                if neg {
                    Some((0i64 - n as i64) as i32)
                } else if n <= 2147483647u64 {
                    Some(n as i32)
                } else {
                    None
                }
            },
            None => {
                proof {
                    if all_digits(rest@) {
                        lemma_digits_nonneg(rest@);
                    }
                }
                None
            },
        }
    } else {
        match read_digits(b, 2147483647u64) {
            Some(n) => Some(n as i32),
            None => None,
        }
    }
}

/// Read an unsigned measure (see [`unsigned_measure`]).
pub fn unsigned_twips(v: &str) -> (r: Option<i32>)
    ensures
        r == unsigned_measure(v@),
{
    match read_digits(v.as_bytes(), 2147483647u64) {
        Some(n) => Some(n as i32),
        None => None,
    }
}

/// Read a half-point measure (see [`half_points`]).
pub fn hps(v: &str) -> (r: Option<u32>)
    ensures
        r == half_points(v@),
{
    match read_digits(v.as_bytes(), 4294967295u64) {
        Some(n) => Some(n as u32),
        None => None,
    }
}

/// ASCII upper case of one byte.
pub open spec fn ascii_upper(b: u8) -> u8 {
    if 0x61 <= b <= 0x7a {
        (b - 0x20) as u8
    } else {
        b
    }
}

/// Calls `str::to_ascii_uppercase`: every ASCII letter `a`–`z` becomes its
/// upper-case form and every other byte stays.
#[verifier::external_body]
fn ascii_uppercase(s: &str) -> (r: String)
    ensures
        ubytes(r@) == ubytes(s@).map_values(|b: u8| ascii_upper(b)),
{
    s.to_ascii_uppercase()
}

/// A `w:color/@w:val` normalized to upper-case `RRGGBB`: nothing for `auto`
/// (any case) or a value that is not six bytes long.
pub open spec fn color_spec(v: Option<Seq<char>>) -> Option<Seq<u8>> {
    match v {
        Some(s) => if eq_ignore_ascii_case(ubytes(s), sbytes("auto")) || ubytes(s).len() != 6 {
            None
        } else {
            Some(ubytes(s).map_values(|b: u8| ascii_upper(b)))
        },
        None => None,
    }
}

/// Normalize a color value (see [`color_spec`]).
pub fn color_hex(val: &Option<String>) -> (r: Option<String>)
    ensures
        color_spec(match val {
            Some(s) => Some(s@),
            None => None,
        }) == match r {
            Some(c) => Some(ubytes(c@)),
            None => None,
        },
{
    match val {
        None => None,
        Some(v) => {
            let b = v.as_str().as_bytes();
            if eq_ci(b, "auto".as_bytes()) || b.len() != 6 {
                None
            } else {
                Some(ascii_uppercase(v.as_str()))
            }
        },
    }
}

/// Is an underline "on"? Everything but an explicit `none` is.
pub open spec fn underline_spec(v: Option<Seq<char>>) -> bool {
    !(v == Some("none"@))
}

/// Read an underline value (see [`underline_spec`]).
pub fn underline_on(v: &Option<String>) -> (r: bool)
    ensures
        r == underline_spec(match v {
            Some(s) => Some(s@),
            None => None,
        }),
{
    match v {
        Some(s) => !str_eq(s.as_str(), "none"),
        None => true,
    }
}

/// A tab stop's alignment word, or nothing for `clear` (or an unknown value).
pub open spec fn tab_alignment_spec(v: Seq<char>) -> Option<Seq<char>> {
    if v == "left"@ || v == "start"@ || v == "num"@ {
        Some("left"@)
    } else if v == "center"@ {
        Some("center"@)
    } else if v == "right"@ || v == "end"@ {
        Some("right"@)
    } else if v == "decimal"@ {
        Some("decimal"@)
    } else if v == "bar"@ {
        Some("bar"@)
    } else {
        None
    }
}

/// Read a tab stop alignment (see [`tab_alignment_spec`]).
pub fn tab_alignment(v: &str) -> (r: Option<String>)
    ensures
        tab_alignment_spec(v@) == match r {
            Some(s) => Some(s@),
            None => None,
        },
{
    if str_eq(v, "left") || str_eq(v, "start") || str_eq(v, "num") {
        Some(owned("left"))
    } else if str_eq(v, "center") {
        Some(owned("center"))
    } else if str_eq(v, "right") || str_eq(v, "end") {
        Some(owned("right"))
    } else if str_eq(v, "decimal") {
        Some(owned("decimal"))
    } else if str_eq(v, "bar") {
        Some(owned("bar"))
    } else {
        None
    }
}

/// A vertical alignment value (unknown values read as nothing).
pub open spec fn vert_align_spec(v: Seq<char>) -> Option<VertAlign> {
    if v == "superscript"@ {
        Some(VertAlign::Superscript)
    } else if v == "subscript"@ {
        Some(VertAlign::Subscript)
    } else if v == "baseline"@ {
        Some(VertAlign::Baseline)
    } else {
        None
    }
}

/// Read a vertical alignment (see [`vert_align_spec`]).
pub fn vert_align(v: &str) -> (r: Option<VertAlign>)
    ensures
        r == vert_align_spec(v@),
{
    if str_eq(v, "superscript") {
        Some(VertAlign::Superscript)
    } else if str_eq(v, "subscript") {
        Some(VertAlign::Subscript)
    } else if str_eq(v, "baseline") {
        Some(VertAlign::Baseline)
    } else {
        None
    }
}

/// A paragraph justification value (values with no model counterpart read as
/// nothing).
pub open spec fn justification_spec(v: Seq<char>) -> Option<Justification> {
    if v == "left"@ {
        Some(Justification::Left)
    } else if v == "start"@ {
        Some(Justification::Start)
    } else if v == "center"@ {
        Some(Justification::Center)
    } else if v == "right"@ {
        Some(Justification::Right)
    } else if v == "end"@ {
        Some(Justification::End)
    } else if v == "both"@ {
        Some(Justification::Both)
    } else if v == "distribute"@ || v == "thaiDistribute"@ {
        Some(Justification::Distribute)
    } else {
        None
    }
}

/// Read a justification (see [`justification_spec`]).
pub fn map_justification(v: &str) -> (r: Option<Justification>)
    ensures
        r == justification_spec(v@),
{
    if str_eq(v, "left") {
        Some(Justification::Left)
    } else if str_eq(v, "start") {
        Some(Justification::Start)
    } else if str_eq(v, "center") {
        Some(Justification::Center)
    } else if str_eq(v, "right") {
        Some(Justification::Right)
    } else if str_eq(v, "end") {
        Some(Justification::End)
    } else if str_eq(v, "both") {
        Some(Justification::Both)
    } else if str_eq(v, "distribute") || str_eq(v, "thaiDistribute") {
        Some(Justification::Distribute)
    } else {
        None
    }
}

} // verus!
