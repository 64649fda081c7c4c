//! The failures the library reports: lookup of an unknown header, cell texts
//! that do not read as the requested type, schema field types the decoder
//! does not recognize, typed extraction against the wrong variant, and
//! wrapped input-stream failures.
use crate::numtext::dec_text;
use vstd::prelude::*;
use vstd::string::*;

verus! {

/// One failure of a decode, lookup, mutation, or typed extraction.
#[derive(Debug, PartialEq)]
pub enum Error {
    /// A failure of the input stream, by its description.
    Io(String),
    /// A column mutation named a header the table does not hold.
    HeaderNotFound(String),
    /// A cell text did not read as the requested value type.
    ValParseError(String),
    /// A schema field declared a type the decoder does not recognize.
    InvalidDataType(String),
    /// A schema did not fit the column layout of the input.
    IncompatibleStruct { struct_fields: usize, csv_columns: usize, incompatible: String },
    /// A typed extraction asked a non-string cell for its string.
    ValToString,
    /// A typed extraction asked a non-float cell for its float.
    ValToFloat64,
    /// A typed extraction asked a cell of another variant for its signed
    /// 64-bit integer.
    ValToInt64,
    /// A typed extraction asked a cell of another variant for its unsigned
    /// size integer.
    ValToUsize,
    /// Any other failure, by its description.
    Other(String),
}

/// The text `message` renders for each failure.
pub open spec fn error_text(e: Error) -> Seq<char> {
    match e {
        Error::Io(s) => s@,
        Error::HeaderNotFound(h) => "Header "@ + h@ + " doesn't exist"@,
        Error::ValParseError(p) => "Unable to parse "@ + p@ + " into Val"@,
        Error::InvalidDataType(s) => s@,
        Error::IncompatibleStruct { struct_fields, csv_columns, incompatible } => "Struct has "@
            + dec_text(struct_fields as nat) + " fields, while csv data only has "@ + dec_text(
            csv_columns as nat,
        ) + " columns. "@ + incompatible@ + " is incompatible"@,
        Error::ValToString => "Incompatible type conversion"@,
        Error::ValToFloat64 => "Incompatible type conversion"@,
        Error::ValToInt64 => "Incompatible type conversion"@,
        Error::ValToUsize => "Incompatible type conversion"@,
        Error::Other(s) => s@,
    }
}

impl Error {
    /// Renders the failure as a human-readable line.
    pub fn message(&self) -> (r: String)
        ensures
            r@ == error_text(*self),
    {
        match self {
            Error::Io(s) => s.clone(),
            Error::HeaderNotFound(h) => {
                proof {
                    reveal_strlit("Header ");
                    reveal_strlit(" doesn't exist");
                }
                let mut out = String::new();
                out.append("Header ");
                out.append(h.as_str());
                out.append(" doesn't exist");
                out
            },
            Error::ValParseError(p) => {
                proof {
                    reveal_strlit("Unable to parse ");
                    reveal_strlit(" into Val");
                }
                let mut out = String::new();
                out.append("Unable to parse ");
                out.append(p.as_str());
                out.append(" into Val");
                out
            },
            Error::InvalidDataType(s) => s.clone(),
            Error::IncompatibleStruct { struct_fields, csv_columns, incompatible } => {
                proof {
                    reveal_strlit("Struct has ");
                    reveal_strlit(" fields, while csv data only has ");
                    reveal_strlit(" columns. ");
                    reveal_strlit(" is incompatible");
                }
                let mut out = String::new();
                out.append("Struct has ");
                let fields = crate::numtext::u128_to_text(*struct_fields as u128);
                out.append(fields.as_str());
                out.append(" fields, while csv data only has ");
                let columns = crate::numtext::u128_to_text(*csv_columns as u128);
                out.append(columns.as_str());
                out.append(" columns. ");
                out.append(incompatible.as_str());
                out.append(" is incompatible");
                out
            },
            Error::ValToString => {
                proof {
                    reveal_strlit("Incompatible type conversion");
                }
                String::from_str("Incompatible type conversion")
            },
            Error::ValToFloat64 => {
                proof {
                    reveal_strlit("Incompatible type conversion");
                }
                String::from_str("Incompatible type conversion")
            },
            Error::ValToInt64 => {
                proof {
                    reveal_strlit("Incompatible type conversion");
                }
                String::from_str("Incompatible type conversion")
            },
            Error::ValToUsize => {
                proof {
                    reveal_strlit("Incompatible type conversion");
                }
                String::from_str("Incompatible type conversion")
            },
            Error::Other(s) => s.clone(),
        }
    }
}

} // verus!
