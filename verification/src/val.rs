//! The typed scalar stored in every table cell: a closed tagged union over
//! text, signed and unsigned integers of every width, and float numerals.
//!
//! Floating-point semantics stay outside the verified library: a float cell
//! carries its numeral text, validated against the float grammar, and a host
//! program converts at the boundary.
use crate::error::Error;
use crate::numtext::{
    dec_text, float_text_valid, i64_text_valid, int_text_val, int_to_text, is_float_text,
    lex_cmp, parse_i64, parse_usize, str_eq, str_lex_cmp, usize_text_valid,
};
use core::cmp::Ordering;
use vstd::prelude::*;
use vstd::string::*;

verus! {

/// One cell value; exactly one variant is active at a time.
#[derive(Debug)]
pub enum Val {
    String(String),
    Isize(isize),
    Usize(usize),
    Int128(i128),
    UInt128(u128),
    Int64(i64),
    Uint64(u64),
    Int32(i32),
    Uint32(u32),
    Int16(i16),
    Uint16(u16),
    Int8(i8),
    Uint8(u8),
    /// A 64-bit float cell, held as its validated numeral text.
    Float64(String),
    /// A 32-bit float cell, held as its validated numeral text.
    Float32(String),
}

/// How inference reads one cell text: a signed 64-bit integer numeral
/// becomes an integer, any other float numeral a float, and everything else
/// stays text.
pub open spec fn infer_rel(s: Seq<char>, v: Val) -> bool {
    if i64_text_valid(s) {
        v matches Val::Int64(n) && n == int_text_val(s)
    } else if float_text_valid(s) {
        v matches Val::Float64(t) && t@ == s
    } else {
        v matches Val::String(t) && t@ == s
    }
}

/// The declared type names that decode into the unsigned-size
/// representation. The schema-driven path narrows every integer width, the
/// size types, and the 32-bit float onto one unsigned-size decode; only
/// `f64` and `String` keep a representation of their own.
pub open spec fn usize_family(ty: Seq<char>) -> bool {
    ||| ty == "f32"@
    ||| ty == "usize"@
    ||| ty == "isize"@
    ||| ty == "u128"@
    ||| ty == "i128"@
    ||| ty == "u64"@
    ||| ty == "i64"@
    ||| ty == "u32"@
    ||| ty == "i32"@
    ||| ty == "u16"@
    ||| ty == "i16"@
    ||| ty == "u8"@
    ||| ty == "i8"@
}

/// How the declared-type path reads one cell text, and exactly which error
/// it reports when it cannot.
pub open spec fn typed_rel(cell: Seq<char>, ty: Seq<char>, r: Result<Val, Error>) -> bool {
    if ty == "String"@ {
        r matches Ok(v) && (v matches Val::String(t) && t@ == cell)
    } else if ty == "f64"@ {
        if float_text_valid(cell) {
            r matches Ok(v) && (v matches Val::Float64(t) && t@ == cell)
        } else {
            r matches Err(e) && (e matches Error::ValParseError(t) && t@ == cell)
        }
    } else if usize_family(ty) {
        if usize_text_valid(cell) {
            r matches Ok(v) && (v matches Val::Usize(n) && n == int_text_val(cell))
        } else {
            r matches Err(e) && (e matches Error::ValParseError(t) && t@ == cell)
        }
    } else {
        r matches Err(e) && (e matches Error::InvalidDataType(t) && t@ == ty)
    }
}

/// The text each variant renders as; a string cell is quoted on request.
/// The quoted mode wraps the text in plain quotation marks without
/// escaping anything inside: cells come from comma-separated text, which
/// carries no escapes.
pub open spec fn val_text(v: Val, quoted: bool) -> Seq<char> {
    match v {
        Val::String(s) => if quoted {
            seq!['"'] + s@ + seq!['"']
        } else {
            s@
        },
        Val::Isize(n) => int_to_text(n as int),
        Val::Usize(n) => dec_text(n as nat),
        Val::Int128(n) => int_to_text(n as int),
        Val::UInt128(n) => dec_text(n as nat),
        Val::Int64(n) => int_to_text(n as int),
        Val::Uint64(n) => dec_text(n as nat),
        Val::Int32(n) => int_to_text(n as int),
        Val::Uint32(n) => dec_text(n as nat),
        Val::Int16(n) => int_to_text(n as int),
        Val::Uint16(n) => dec_text(n as nat),
        Val::Int8(n) => int_to_text(n as int),
        Val::Uint8(n) => dec_text(n as nat),
        Val::Float64(t) => t@,
        Val::Float32(t) => t@,
    }
}

/// Equality of two cells: defined only between same-variant pairs; numeric
/// for integers, textual for strings and float numerals, false across
/// variants.
pub open spec fn val_eq(a: Val, b: Val) -> bool {
    match (a, b) {
        (Val::String(x), Val::String(y)) => x@ == y@,
        (Val::Isize(x), Val::Isize(y)) => x == y,
        (Val::Usize(x), Val::Usize(y)) => x == y,
        (Val::Int128(x), Val::Int128(y)) => x == y,
        (Val::UInt128(x), Val::UInt128(y)) => x == y,
        (Val::Int64(x), Val::Int64(y)) => x == y,
        (Val::Uint64(x), Val::Uint64(y)) => x == y,
        (Val::Int32(x), Val::Int32(y)) => x == y,
        (Val::Uint32(x), Val::Uint32(y)) => x == y,
        (Val::Int16(x), Val::Int16(y)) => x == y,
        (Val::Uint16(x), Val::Uint16(y)) => x == y,
        (Val::Int8(x), Val::Int8(y)) => x == y,
        (Val::Uint8(x), Val::Uint8(y)) => x == y,
        (Val::Float64(x), Val::Float64(y)) => x@ == y@,
        (Val::Float32(x), Val::Float32(y)) => x@ == y@,
        _ => false,
    }
}

/// The order of an integer pair as an `Ordering`.
pub open spec fn int_ord(x: int, y: int) -> Ordering {
    if x < y {
        Ordering::Less
    } else if x > y {
        Ordering::Greater
    } else {
        Ordering::Equal
    }
}

/// Ordering of two cells: defined only between same-variant pairs; numeric
/// for integers, lexicographic for strings. Float numerals order only when
/// their texts agree; their numeric order belongs to the host floats, which
/// stay outside the library.
pub open spec fn val_cmp(a: Val, b: Val) -> Option<Ordering> {
    match (a, b) {
        (Val::String(x), Val::String(y)) => Some(lex_cmp(x@, y@)),
        (Val::Isize(x), Val::Isize(y)) => Some(int_ord(x as int, y as int)),
        (Val::Usize(x), Val::Usize(y)) => Some(int_ord(x as int, y as int)),
        (Val::Int128(x), Val::Int128(y)) => Some(int_ord(x as int, y as int)),
        (Val::UInt128(x), Val::UInt128(y)) => Some(int_ord(x as int, y as int)),
        (Val::Int64(x), Val::Int64(y)) => Some(int_ord(x as int, y as int)),
        (Val::Uint64(x), Val::Uint64(y)) => Some(int_ord(x as int, y as int)),
        (Val::Int32(x), Val::Int32(y)) => Some(int_ord(x as int, y as int)),
        (Val::Uint32(x), Val::Uint32(y)) => Some(int_ord(x as int, y as int)),
        (Val::Int16(x), Val::Int16(y)) => Some(int_ord(x as int, y as int)),
        (Val::Uint16(x), Val::Uint16(y)) => Some(int_ord(x as int, y as int)),
        (Val::Int8(x), Val::Int8(y)) => Some(int_ord(x as int, y as int)),
        (Val::Uint8(x), Val::Uint8(y)) => Some(int_ord(x as int, y as int)),
        (Val::Float64(x), Val::Float64(y)) => if x@ == y@ {
            Some(Ordering::Equal)
        } else {
            None
        },
        (Val::Float32(x), Val::Float32(y)) => if x@ == y@ {
            Some(Ordering::Equal)
        } else {
            None
        },
        _ => None,
    }
}

impl Val {
    /// Reads one cell by inference: integer first, then float numeral, then
    /// plain text. Text is the catch-all, so inference cannot fail.
    pub fn infer(value: &str) -> (v: Val)
        ensures
            infer_rel(value@, v),
    {
        match parse_i64(value) {
            Some(n) => Val::Int64(n),
            None => {
                if is_float_text(value) {
                    Val::Float64(String::from_str(value))
                } else {
                    Val::String(String::from_str(value))
                }
            },
        }
    }

    /// Reads one cell by inference, as a result for callers that expect the
    /// fallible shape.
    pub fn from_str(value: &str) -> (r: Result<Val, Error>)
        ensures
            r matches Ok(v) && infer_rel(value@, v),
    {
        Ok(Val::infer(value))
    }

    /// Reads one cell as the declared type name directs, reporting an
    /// unrecognized name or an unreadable cell.
    pub fn from_str_typed(value: &str, dtype: &str) -> (r: Result<Val, Error>)
        ensures
            typed_rel(value@, dtype@, r),
    {
        if str_eq(dtype, "String") {
            Ok(Val::String(String::from_str(value)))
        } else if str_eq(dtype, "f64") {
            if is_float_text(value) {
                Ok(Val::Float64(String::from_str(value)))
            } else {
                Err(Error::ValParseError(String::from_str(value)))
            }
        } else if str_eq(dtype, "f32") || str_eq(dtype, "usize") || str_eq(
            dtype,
            "isize",
        ) || str_eq(dtype, "u128") || str_eq(dtype, "i128") || str_eq(dtype, "u64")
            || str_eq(dtype, "i64") || str_eq(dtype, "u32") || str_eq(dtype, "i32")
            || str_eq(dtype, "u16") || str_eq(dtype, "i16") || str_eq(dtype, "u8")
            || str_eq(dtype, "i8") {
            match parse_usize(value) {
                Some(n) => Ok(Val::Usize(n)),
                None => Err(Error::ValParseError(String::from_str(value))),
            }
        } else {
            Err(Error::InvalidDataType(String::from_str(dtype)))
        }
    }

    /// Renders the cell as text; a string cell is quoted on request.
    pub fn to_text(&self, quoted: bool) -> (r: String)
        ensures
            r@ == val_text(*self, quoted),
    {
        match self {
            Val::String(s) => {
                if quoted {
                    proof {
                        reveal_strlit("\"");
                    }
                    let mut out = String::new();
                    out.append("\"");
                    out.append(s.as_str());
                    out.append("\"");
                    proof {
                        assert(out@ =~= seq!['"'] + s@ + seq!['"']);
                    }
                    out
                } else {
                    s.clone()
                }
            },
            Val::Isize(n) => crate::numtext::i128_to_text(*n as i128),
            Val::Usize(n) => crate::numtext::u128_to_text(*n as u128),
            Val::Int128(n) => crate::numtext::i128_to_text(*n),
            Val::UInt128(n) => crate::numtext::u128_to_text(*n),
            Val::Int64(n) => crate::numtext::i128_to_text(*n as i128),
            Val::Uint64(n) => crate::numtext::u128_to_text(*n as u128),
            Val::Int32(n) => crate::numtext::i128_to_text(*n as i128),
            Val::Uint32(n) => crate::numtext::u128_to_text(*n as u128),
            Val::Int16(n) => crate::numtext::i128_to_text(*n as i128),
            Val::Uint16(n) => crate::numtext::u128_to_text(*n as u128),
            Val::Int8(n) => crate::numtext::i128_to_text(*n as i128),
            Val::Uint8(n) => crate::numtext::u128_to_text(*n as u128),
            Val::Float64(t) => t.clone(),
            Val::Float32(t) => t.clone(),
        }
    }

    /// True for a 64-bit float cell.
    pub fn is_float(&self) -> (r: bool)
        ensures
            r == (self matches Val::Float64(_)),
    {
        matches!(self, Val::Float64(_))
    }

    /// True for a signed 64-bit integer cell.
    pub fn is_int(&self) -> (r: bool)
        ensures
            r == (self matches Val::Int64(_)),
    {
        matches!(self, Val::Int64(_))
    }

    /// True for an unsigned size cell.
    pub fn is_usize(&self) -> (r: bool)
        ensures
            r == (self matches Val::Usize(_)),
    {
        matches!(self, Val::Usize(_))
    }

    /// True for a string cell.
    pub fn is_str(&self) -> (r: bool)
        ensures
            r == (self matches Val::String(_)),
    {
        matches!(self, Val::String(_))
    }
}

impl Clone for Val {
    /// A cell clones to an equal cell.
    fn clone(&self) -> (r: Self)
        ensures
            r == *self,
    {
        match self {
            Val::String(s) => Val::String(s.clone()),
            Val::Isize(n) => Val::Isize(*n),
            Val::Usize(n) => Val::Usize(*n),
            Val::Int128(n) => Val::Int128(*n),
            Val::UInt128(n) => Val::UInt128(*n),
            Val::Int64(n) => Val::Int64(*n),
            Val::Uint64(n) => Val::Uint64(*n),
            Val::Int32(n) => Val::Int32(*n),
            Val::Uint32(n) => Val::Uint32(*n),
            Val::Int16(n) => Val::Int16(*n),
            Val::Uint16(n) => Val::Uint16(*n),
            Val::Int8(n) => Val::Int8(*n),
            Val::Uint8(n) => Val::Uint8(*n),
            Val::Float64(t) => Val::Float64(t.clone()),
            Val::Float32(t) => Val::Float32(t.clone()),
        }
    }
}

impl Default for Val {
    /// The default cell is the empty string.
    fn default() -> (r: Self)
        ensures
            r matches Val::String(s) && s@ == Seq::<char>::empty(),
    {
        Val::String(String::new())
    }
}

impl PartialEq for Val {
    fn eq(&self, other: &Val) -> (r: bool)
        ensures
            r == val_eq(*self, *other),
    {
        match (self, other) {
            (Val::String(x), Val::String(y)) => str_eq(x.as_str(), y.as_str()),
            (Val::Isize(x), Val::Isize(y)) => x == y,
            (Val::Usize(x), Val::Usize(y)) => x == y,
            (Val::Int128(x), Val::Int128(y)) => x == y,
            (Val::UInt128(x), Val::UInt128(y)) => x == y,
            (Val::Int64(x), Val::Int64(y)) => x == y,
            (Val::Uint64(x), Val::Uint64(y)) => x == y,
            (Val::Int32(x), Val::Int32(y)) => x == y,
            (Val::Uint32(x), Val::Uint32(y)) => x == y,
            (Val::Int16(x), Val::Int16(y)) => x == y,
            (Val::Uint16(x), Val::Uint16(y)) => x == y,
            (Val::Int8(x), Val::Int8(y)) => x == y,
            (Val::Uint8(x), Val::Uint8(y)) => x == y,
            (Val::Float64(x), Val::Float64(y)) => str_eq(x.as_str(), y.as_str()),
            (Val::Float32(x), Val::Float32(y)) => str_eq(x.as_str(), y.as_str()),
            _ => false,
        }
    }
}

impl vstd::std_specs::cmp::PartialEqSpecImpl for Val {
    open spec fn obeys_eq_spec() -> bool {
        true
    }

    open spec fn eq_spec(&self, other: &Val) -> bool {
        val_eq(*self, *other)
    }
}

impl PartialOrd for Val {
    fn partial_cmp(&self, other: &Val) -> (r: Option<Ordering>)
        ensures
            r == val_cmp(*self, *other),
    {
        match (self, other) {
            (Val::String(x), Val::String(y)) => Some(str_lex_cmp(x.as_str(), y.as_str())),
            (Val::Isize(x), Val::Isize(y)) => Some(
                if x < y {
                    Ordering::Less
                } else if x > y {
                    Ordering::Greater
                } else {
                    Ordering::Equal
                },
            ),
            (Val::Usize(x), Val::Usize(y)) => Some(
                if x < y {
                    Ordering::Less
                } else if x > y {
                    Ordering::Greater
                } else {
                    Ordering::Equal
                },
            ),
            (Val::Int128(x), Val::Int128(y)) => Some(
                if x < y {
                    Ordering::Less
                } else if x > y {
                    Ordering::Greater
                } else {
                    Ordering::Equal
                },
            ),
            (Val::UInt128(x), Val::UInt128(y)) => Some(
                if x < y {
                    Ordering::Less
                } else if x > y {
                    Ordering::Greater
                } else {
                    Ordering::Equal
                },
            ),
            (Val::Int64(x), Val::Int64(y)) => Some(
                if x < y {
                    Ordering::Less
                } else if x > y {
                    Ordering::Greater
                } else {
                    Ordering::Equal
                },
            ),
            (Val::Uint64(x), Val::Uint64(y)) => Some(
                if x < y {
                    Ordering::Less
                } else if x > y {
                    Ordering::Greater
                } else {
                    Ordering::Equal
                },
            ),
            (Val::Int32(x), Val::Int32(y)) => Some(
                if x < y {
                    Ordering::Less
                } else if x > y {
                    Ordering::Greater
                } else {
                    Ordering::Equal
                },
            ),
            (Val::Uint32(x), Val::Uint32(y)) => Some(
                if x < y {
                    Ordering::Less
                } else if x > y {
                    Ordering::Greater
                } else {
                    Ordering::Equal
                },
            ),
            (Val::Int16(x), Val::Int16(y)) => Some(
                if x < y {
                    Ordering::Less
                } else if x > y {
                    Ordering::Greater
                } else {
                    Ordering::Equal
                },
            ),
            (Val::Uint16(x), Val::Uint16(y)) => Some(
                if x < y {
                    Ordering::Less
                } else if x > y {
                    Ordering::Greater
                } else {
                    Ordering::Equal
                },
            ),
            (Val::Int8(x), Val::Int8(y)) => Some(
                if x < y {
                    Ordering::Less
                } else if x > y {
                    Ordering::Greater
                } else {
                    Ordering::Equal
                },
            ),
            (Val::Uint8(x), Val::Uint8(y)) => Some(
                if x < y {
                    Ordering::Less
                } else if x > y {
                    Ordering::Greater
                } else {
                    Ordering::Equal
                },
            ),
            (Val::Float64(x), Val::Float64(y)) => {
                if str_eq(x.as_str(), y.as_str()) {
                    Some(Ordering::Equal)
                } else {
                    None
                }
            },
            (Val::Float32(x), Val::Float32(y)) => {
                if str_eq(x.as_str(), y.as_str()) {
                    Some(Ordering::Equal)
                } else {
                    None
                }
            },
            _ => None,
        }
    }
}

impl vstd::std_specs::cmp::PartialOrdSpecImpl for Val {
    open spec fn obeys_partial_cmp_spec() -> bool {
        true
    }

    open spec fn partial_cmp_spec(&self, other: &Val) -> Option<Ordering> {
        val_cmp(*self, *other)
    }
}

impl From<String> for Val {
    /// Owned text becomes a string cell.
    fn from(value: String) -> (r: Self)
        ensures
            r matches Val::String(s) && s == value,
    {
        Val::String(value)
    }
}

impl vstd::std_specs::convert::FromSpecImpl<String> for Val {
    open spec fn obeys_from_spec() -> bool {
        true
    }

    open spec fn from_spec(value: String) -> Val {
        Val::String(value)
    }
}

impl From<i64> for Val {
    /// A signed 64-bit integer becomes an integer cell.
    fn from(value: i64) -> (r: Self)
        ensures
            r == Val::Int64(value),
    {
        Val::Int64(value)
    }
}

impl vstd::std_specs::convert::FromSpecImpl<i64> for Val {
    open spec fn obeys_from_spec() -> bool {
        true
    }

    open spec fn from_spec(value: i64) -> Val {
        Val::Int64(value)
    }
}

impl From<usize> for Val {
    /// An unsigned size becomes a size cell.
    fn from(value: usize) -> (r: Self)
        ensures
            r == Val::Usize(value),
    {
        Val::Usize(value)
    }
}

impl vstd::std_specs::convert::FromSpecImpl<usize> for Val {
    open spec fn obeys_from_spec() -> bool {
        true
    }

    open spec fn from_spec(value: usize) -> Val {
        Val::Usize(value)
    }
}

impl Val {
    /// The text of a string cell; any other variant is an incompatible
    /// conversion.
    pub fn try_string(&self) -> (r: Result<String, Error>)
        ensures
            match *self {
                Val::String(s) => r matches Ok(t) && t == s,
                _ => r == Err::<String, Error>(Error::ValToString),
            },
    {
        match self {
            Val::String(s) => Ok(s.clone()),
            _ => Err(Error::ValToString),
        }
    }

    /// The value of an unsigned size cell; any other variant is an
    /// incompatible conversion.
    pub fn try_usize(&self) -> (r: Result<usize, Error>)
        ensures
            match *self {
                Val::Usize(n) => r == Ok::<usize, Error>(n),
                _ => r == Err::<usize, Error>(Error::ValToUsize),
            },
    {
        match self {
            Val::Usize(n) => Ok(*n),
            _ => Err(Error::ValToUsize),
        }
    }

    /// The value of a signed 64-bit integer cell; any other variant is an
    /// incompatible conversion.
    pub fn try_i64(&self) -> (r: Result<i64, Error>)
        ensures
            match *self {
                Val::Int64(n) => r == Ok::<i64, Error>(n),
                _ => r == Err::<i64, Error>(Error::ValToInt64),
            },
    {
        match self {
            Val::Int64(n) => Ok(*n),
            _ => Err(Error::ValToInt64),
        }
    }

    /// The numeral of a 64-bit float cell; any other variant is an
    /// incompatible conversion. The host converts the numeral to its float.
    pub fn try_f64_text(&self) -> (r: Result<String, Error>)
        ensures
            match *self {
                Val::Float64(t) => r matches Ok(s) && s == t,
                _ => r == Err::<String, Error>(Error::ValToFloat64),
            },
    {
        match self {
            Val::Float64(t) => Ok(t.clone()),
            _ => Err(Error::ValToFloat64),
        }
    }
}

} // verus!
