use json4web::de::{from_str, CommaSeparated, FloatToken};
use json4web::error::JsonError;
use json4web::ser::{to_string, Serializer};
use std::borrow::Cow;

fn written(write: impl FnOnce(&mut Serializer)) -> String {
    let mut ser = Serializer::new();
    write(&mut ser);
    to_string(&ser)
}

#[test]
fn booleans_round_trip() {
    for v in [true, false] {
        let text = written(|ser| ser.serialize_bool(v));
        assert_eq!(from_str(&text).deserialize_bool(), Ok(v));
    }
}

#[test]
fn narrow_integers_round_trip() {
    for v in [0u8, 1, 9, 10, 99, 100, 255] {
        let text = written(|ser| ser.serialize_u8(v));
        assert_eq!(from_str(&text).deserialize_u8(), Ok(v));
    }
    for v in [i8::MIN, -100, -1, 0, 1, 100, i8::MAX] {
        let text = written(|ser| ser.serialize_i8(v));
        assert_eq!(from_str(&text).deserialize_i8(), Ok(v));
    }
    for v in [0u16, 256, 9999, 10000, u16::MAX] {
        let text = written(|ser| ser.serialize_u16(v));
        assert_eq!(from_str(&text).deserialize_u16(), Ok(v));
    }
    for v in [i16::MIN, -255, 0, 255, i16::MAX] {
        let text = written(|ser| ser.serialize_i16(v));
        assert_eq!(from_str(&text).deserialize_i16(), Ok(v));
    }
    for v in [0u32, 65536, 1_000_000_000, u32::MAX] {
        let text = written(|ser| ser.serialize_u32(v));
        assert_eq!(from_str(&text).deserialize_u32(), Ok(v));
    }
    for v in [i32::MIN, -65536, 0, 65536, i32::MAX] {
        let text = written(|ser| ser.serialize_i32(v));
        assert_eq!(from_str(&text).deserialize_i32(), Ok(v));
    }
}

#[test]
fn wide_integers_round_trip() {
    for v in [0u64, 1 << 53, u64::MAX] {
        let text = written(|ser| ser.serialize_u64(v));
        assert_eq!(from_str(&text).deserialize_u64(), Ok(v));
    }
    for v in [i64::MIN, -(1 << 53), 0, i64::MAX] {
        let text = written(|ser| ser.serialize_i64(v));
        assert_eq!(from_str(&text).deserialize_i64(), Ok(v));
    }
    for v in [0u128, 1 << 100, u128::MAX] {
        let text = written(|ser| ser.serialize_u128(v));
        assert_eq!(from_str(&text).deserialize_u128(), Ok(v));
    }
    for v in [i128::MIN, -(1 << 100), 0, i128::MAX] {
        let text = written(|ser| ser.serialize_i128(v));
        assert_eq!(from_str(&text).deserialize_i128(), Ok(v));
    }
}

#[test]
fn strings_and_characters_round_trip() {
    let mut all = String::new();
    for code in 0u32..0x300 {
        all.push(char::from_u32(code).unwrap());
    }
    all.push_str("\u{2026}\u{ffff}\u{10000}\u{10ffff}");
    for v in ["", "plain", "\"\\/\x08\x0c\n\r\t", "'", "\\u0041", all.as_str()] {
        let text = written(|ser| ser.serialize_str(v));
        assert_eq!(from_str(&text).deserialize_string(), Ok(v.to_owned()));
    }
    for v in all.chars() {
        let text = written(|ser| ser.serialize_char(v));
        assert_eq!(from_str(&text).deserialize_char(), Ok(v));
    }
}

#[test]
fn byte_strings_round_trip() {
    let mut bytes = Vec::new();
    for n in 0..=255u8 {
        let text = written(|ser| ser.serialize_bytes(&bytes).unwrap());
        assert_eq!(from_str(&text).deserialize_bytes(), Ok(bytes.clone()));
        bytes.push(n.wrapping_mul(37));
    }
}

#[test]
fn unit_and_optional_values_round_trip() {
    let text = written(|ser| ser.serialize_unit());
    assert_eq!(from_str(&text).deserialize_unit(), Ok(()));
    let text = written(|ser| ser.serialize_none());
    assert_eq!(from_str(&text).deserialize_option(), Ok(false));
    let text = written(|ser| ser.serialize_u32(7));
    let mut de = from_str(&text);
    assert_eq!(de.deserialize_option(), Ok(true));
    assert_eq!(de.deserialize_u32(), Ok(7));
}

#[test]
fn floats_round_trip_through_their_literal() {
    for v in [0.0f64, -0.0, 1.3, -2.5, 123456.789, 0.001] {
        let mut ser = Serializer::new();
        ser.append_string(ryu::Buffer::new().format_finite(v).to_owned());
        let text = to_string(&ser);
        match from_str(&text).deserialize_float() {
            Ok(FloatToken::Literal(lit)) => assert_eq!(lit.parse::<f64>().unwrap(), v),
            other => panic!("{:?}", other),
        }
    }
}

fn numbers(j: &str) -> Result<Vec<i32>, JsonError> {
    let mut de = from_str(j);
    de.begin_seq()?;
    let mut out = Vec::new();
    {
        let mut items = CommaSeparated::new(&mut de);
        while items.next_element()? {
            out.push(items.de.deserialize_i32()?);
        }
    }
    de.end_seq()?;
    Ok(out)
}

#[test]
fn whitespace_between_tokens_changes_nothing() {
    let expected = Ok(vec![1, -2, 30]);
    assert_eq!(numbers("[1,-2,30]"), expected);
    for ws in [" ", "\t", "\n", "\r", " \t\r\n  "] {
        let spaced = format!("{0}[{0}1{0},{0}-2{0},{0}30{0}]{0}", ws);
        assert_eq!(numbers(&spaced), expected);
    }
    assert_eq!(from_str(" \n\t\r \"a b\"").deserialize_str(), Ok(Cow::Borrowed("a b")));
    assert_eq!(from_str("\"a b\"").deserialize_str(), Ok(Cow::Borrowed("a b")));
    assert_eq!(from_str("  \"12\"").deserialize_u64(), from_str("\"12\"").deserialize_u64());
    assert_eq!(from_str("\r\nfalse").deserialize_bool(), from_str("false").deserialize_bool());
    assert_eq!(from_str("\tnull").deserialize_unit(), from_str("null").deserialize_unit());
}

#[test]
fn whitespace_inside_a_token_is_not_skipped() {
    assert_eq!(numbers("[1 2]"), Err(JsonError::UnexpectedToken('2')));
    assert_eq!(from_str("\" a\"").deserialize_str(), Ok(Cow::Borrowed(" a")));
    assert_eq!(from_str("t rue").deserialize_bool(), Err(JsonError::UnexpectedToken('t')));
}

fn every_operation_on(text: &str) {
    let _ = from_str(text).deserialize_bool();
    let _ = from_str(text).deserialize_u8();
    let _ = from_str(text).deserialize_i32();
    let _ = from_str(text).deserialize_u64();
    let _ = from_str(text).deserialize_i128();
    let _ = from_str(text).deserialize_float();
    let _ = from_str(text).deserialize_char();
    let _ = from_str(text).deserialize_bytes();
    let _ = from_str(text).deserialize_option();
    let _ = from_str(text).deserialize_unit();
    let _ = from_str(text).deserialize_any();
    let _ = from_str(text).begin_enum();
    let _ = from_str(text).deserialize_ignored_any();
    let mut de = from_str(text);
    if let Ok(value) = de.deserialize_str() {
        let again = written(|ser| ser.serialize_str(&value));
        assert_eq!(from_str(&again).deserialize_str(), Ok(value));
    }
}

#[test]
fn no_input_makes_an_operation_panic() {
    let alphabet = [
        "\"", "\\", "/", "u", "0", "9", "a", "F", "-", ".", ",", ":", "[", "]", "{", "}", " ",
        "\n", "n", "null", "true", "false", "1", "\u{e9}", "\u{2026}", "\u{10348}", "=", "_",
    ];
    for a in alphabet {
        every_operation_on(a);
        for b in alphabet {
            let two = format!("{}{}", a, b);
            every_operation_on(&two);
            for c in alphabet {
                let three = format!("{}{}", two, c);
                every_operation_on(&three);
                every_operation_on(&format!("\"{}\"", three));
                every_operation_on(&format!("[{}]", three));
            }
        }
    }
}

#[test]
fn long_inputs_are_read_in_one_pass() {
    let body = "a\u{e9}\\n".repeat(200_000);
    let text = format!(" \"{}\" ", body);
    let value = from_str(&text).deserialize_string().unwrap();
    assert_eq!(value.chars().count(), 600_000);
    let text = written(|ser| ser.serialize_str(&value));
    assert_eq!(from_str(&text).deserialize_string(), Ok(value));
    let digits = "1,".repeat(200_000);
    let array = format!("[{}1]", digits);
    assert_eq!(from_str(&array).deserialize_ignored_any(), Ok(()));
}
