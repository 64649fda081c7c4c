use dataframe::{Error, Val};
use std::cmp::Ordering;

#[test]
fn inference_is_deterministic() {
    let float = Val::from_str("66.66").unwrap();
    match &float {
        Val::Float64(t) => {
            let f: f64 = t.parse().unwrap();
            assert_eq!(f, 66.66);
        },
        _ => panic!("a float numeral infers to a float cell"),
    }
    assert_eq!(Val::from_str("66").unwrap(), Val::Int64(66));
    assert_eq!(Val::from_str("Messi").unwrap(), Val::String("Messi".to_string()));
}

#[test]
fn inference_edges() {
    assert_eq!(Val::from_str("+66").unwrap(), Val::Int64(66));
    assert_eq!(Val::from_str("-7").unwrap(), Val::Int64(-7));
    assert_eq!(
        Val::from_str("9223372036854775807").unwrap(),
        Val::Int64(9223372036854775807)
    );
    assert_eq!(
        Val::from_str("-9223372036854775808").unwrap(),
        Val::Int64(i64::MIN)
    );
    // one past the signed range still reads as a float numeral
    assert_eq!(
        Val::from_str("9223372036854775808").unwrap(),
        Val::Float64("9223372036854775808".to_string())
    );
    assert_eq!(Val::from_str("1e3").unwrap(), Val::Float64("1e3".to_string()));
    assert_eq!(Val::from_str("inf").unwrap(), Val::Float64("inf".to_string()));
    assert_eq!(Val::from_str("NaN").unwrap(), Val::Float64("NaN".to_string()));
    assert_eq!(Val::from_str("1.").unwrap(), Val::Float64("1.".to_string()));
    assert_eq!(Val::from_str(".5").unwrap(), Val::Float64(".5".to_string()));
    assert_eq!(Val::from_str("1e").unwrap(), Val::String("1e".to_string()));
    assert_eq!(Val::from_str("1.2.3").unwrap(), Val::String("1.2.3".to_string()));
    assert_eq!(Val::from_str("").unwrap(), Val::String(String::new()));
}

#[test]
fn typed_parse_follows_the_declared_type() {
    assert_eq!(
        Val::from_str_typed("888", "usize").unwrap(),
        Val::Usize(888)
    );
    assert_eq!(
        Val::from_str_typed("66.66", "f64").unwrap(),
        Val::Float64("66.66".to_string())
    );
    assert_eq!(
        Val::from_str_typed("66.66", "String").unwrap(),
        Val::String("66.66".to_string())
    );
    // the declared-type table narrows every integer width onto the
    // unsigned-size representation
    assert_eq!(Val::from_str_typed("7", "i64").unwrap(), Val::Usize(7));
    assert_eq!(Val::from_str_typed("7", "u8").unwrap(), Val::Usize(7));
    assert_eq!(Val::from_str_typed("7", "f32").unwrap(), Val::Usize(7));
    match Val::from_str_typed("x", "bool") {
        Err(Error::InvalidDataType(t)) => assert_eq!(t, "bool"),
        _ => panic!("an unrecognized declared type is refused"),
    }
    match Val::from_str_typed("abc", "usize") {
        Err(Error::ValParseError(c)) => assert_eq!(c, "abc"),
        _ => panic!("a cell that does not read as its declared type is refused"),
    }
    match Val::from_str_typed("-1", "usize") {
        Err(Error::ValParseError(c)) => assert_eq!(c, "-1"),
        _ => panic!("a negative numeral does not read as unsigned"),
    }
    match Val::from_str_typed("zz", "f64") {
        Err(Error::ValParseError(c)) => assert_eq!(c, "zz"),
        _ => panic!("a non-numeral does not read as a float"),
    }
}

#[test]
fn display_modes() {
    assert_eq!(Val::Int64(-5).to_text(false), "-5");
    assert_eq!(Val::Usize(42).to_text(false), "42");
    assert_eq!(Val::Int8(-128).to_text(false), "-128");
    assert_eq!(Val::UInt128(0).to_text(false), "0");
    assert_eq!(
        Val::Int128(-170141183460469231731687303715884105728).to_text(false),
        "-170141183460469231731687303715884105728"
    );
    assert_eq!(Val::Float64("6.9".to_string()).to_text(false), "6.9");
    assert_eq!(Val::String("hi".to_string()).to_text(false), "hi");
    assert_eq!(Val::String("hi".to_string()).to_text(true), "\"hi\"");
}

#[test]
fn equality_stays_inside_one_variant() {
    assert_eq!(Val::Int64(3), Val::Int64(3));
    assert_ne!(Val::Int64(3), Val::Int64(4));
    assert_ne!(Val::Int64(3), Val::Usize(3));
    assert_ne!(Val::Int64(3), Val::String("3".to_string()));
    assert_eq!(Val::Uint16(9), Val::Uint16(9));
    assert_eq!(
        Val::Float64("6.9".to_string()),
        Val::Float64("6.9".to_string())
    );
    assert_ne!(
        Val::Float64("6.9".to_string()),
        Val::Float64("6.90".to_string())
    );
}

#[test]
fn ordering_stays_inside_one_variant() {
    assert_eq!(
        Val::Int64(3).partial_cmp(&Val::Int64(4)),
        Some(Ordering::Less)
    );
    assert_eq!(
        Val::String("b".to_string()).partial_cmp(&Val::String("a".to_string())),
        Some(Ordering::Greater)
    );
    assert_eq!(
        Val::String("ab".to_string()).partial_cmp(&Val::String("ab".to_string())),
        Some(Ordering::Equal)
    );
    assert_eq!(Val::Int64(3).partial_cmp(&Val::Usize(3)), None);
    assert_eq!(
        Val::Float64("1.0".to_string()).partial_cmp(&Val::Float64("1.0".to_string())),
        Some(Ordering::Equal)
    );
    assert_eq!(
        Val::Float64("1.0".to_string()).partial_cmp(&Val::Float64("2.0".to_string())),
        None
    );
}

#[test]
fn typed_extraction_refuses_the_wrong_variant() {
    assert_eq!(Val::Usize(7).try_usize().unwrap(), 7);
    assert_eq!(Val::Int64(-7).try_i64().unwrap(), -7);
    assert_eq!(
        Val::String("x".to_string()).try_string().unwrap(),
        "x".to_string()
    );
    assert_eq!(
        Val::Float64("6.9".to_string()).try_f64_text().unwrap(),
        "6.9".to_string()
    );
    assert_eq!(Val::Int64(7).try_usize(), Err(Error::ValToUsize));
    assert_eq!(Val::Usize(7).try_i64(), Err(Error::ValToInt64));
    assert_eq!(Val::Int64(7).try_string(), Err(Error::ValToString));
    assert_eq!(Val::Int64(7).try_f64_text(), Err(Error::ValToFloat64));
}

#[test]
fn conversions_into_cells() {
    assert_eq!(Val::from("x".to_string()), Val::String("x".to_string()));
    assert_eq!(Val::from(7i64), Val::Int64(7));
    assert_eq!(Val::from(7usize), Val::Usize(7));
    assert!(matches!(Val::default(), Val::String(s) if s.is_empty()));
}

#[test]
fn error_messages_name_the_failure() {
    assert_eq!(
        Error::HeaderNotFound("xg".to_string()).message(),
        "Header xg doesn't exist"
    );
    assert_eq!(
        Error::ValParseError("abc".to_string()).message(),
        "Unable to parse abc into Val"
    );
    assert_eq!(Error::InvalidDataType("bool".to_string()).message(), "bool");
    assert_eq!(Error::ValToUsize.message(), "Incompatible type conversion");
    assert_eq!(
        Error::IncompatibleStruct {
            struct_fields: 4,
            csv_columns: 3,
            incompatible: "xg".to_string()
        }
        .message(),
        "Struct has 4 fields, while csv data only has 3 columns. xg is incompatible"
    );
    assert_eq!(Error::Io("gone".to_string()).message(), "gone");
    assert_eq!(Error::Other("odd".to_string()).message(), "odd");
}
