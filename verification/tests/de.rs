use json4web::de::{
    from_slice, from_str, CommaSeparated, Deserializer, Enum, EnumHead, FloatToken, ValueKind,
    MAX_DEPTH,
};
use json4web::number::Width;
use json4web::error::{Base64ErrorKind, FloatErrorKind, IntErrorKind, JsonError};
use std::borrow::Cow;

#[derive(Debug, PartialEq)]
struct Test {
    int: u32,
    seq: Vec<String>,
}

#[derive(Debug, PartialEq)]
enum E {
    Unit,
    Newtype(u32),
    Tuple(u32, u32),
    Struct { a: u32 },
}

fn missing(field: &str) -> JsonError {
    JsonError::Custom(format!("missing field `{}`", field))
}

fn string_seq(de: &mut Deserializer) -> Result<Vec<String>, JsonError> {
    de.begin_seq()?;
    let mut out = Vec::new();
    {
        let mut items = CommaSeparated::new(de);
        while items.next_element()? {
            out.push(items.de.deserialize_string()?);
        }
    }
    de.end_seq()?;
    Ok(out)
}

fn test_struct_of(j: &str) -> Result<Test, JsonError> {
    let mut de = from_str(j);
    de.begin_map()?;
    let mut int = None;
    let mut seq = None;
    {
        let mut fields = CommaSeparated::new(&mut de);
        while fields.next_key()? {
            let key = fields.de.deserialize_str()?;
            fields.next_value()?;
            match key.as_ref() {
                "int" => int = Some(fields.de.deserialize_u32()?),
                "seq" => seq = Some(string_seq(fields.de)?),
                _ => fields.de.deserialize_ignored_any()?,
            }
        }
    }
    de.end_map()?;
    Ok(Test {
        int: int.ok_or_else(|| missing("int"))?,
        seq: seq.ok_or_else(|| missing("seq"))?,
    })
}

fn payload_of(tag: &str, access: &mut Enum) -> Result<E, JsonError> {
    match tag {
        "Unit" => {
            access.unit_variant()?;
            Ok(E::Unit)
        }
        "Newtype" => Ok(E::Newtype(access.de.deserialize_u32()?)),
        "Tuple" => {
            access.de.begin_seq()?;
            let mut values = Vec::new();
            {
                let mut items = CommaSeparated::new(access.de);
                while items.next_element()? {
                    values.push(items.de.deserialize_u32()?);
                }
            }
            access.de.end_seq()?;
            if values.len() != 2 {
                return Err(JsonError::Custom(format!("invalid length {}", values.len())));
            }
            Ok(E::Tuple(values[0], values[1]))
        }
        "Struct" => {
            access.de.begin_map()?;
            let mut a = None;
            {
                let mut fields = CommaSeparated::new(access.de);
                while fields.next_key()? {
                    let key = fields.de.deserialize_str()?;
                    fields.next_value()?;
                    match key.as_ref() {
                        "a" => a = Some(fields.de.deserialize_u32()?),
                        _ => fields.de.deserialize_ignored_any()?,
                    }
                }
            }
            access.de.end_map()?;
            Ok(E::Struct {
                a: a.ok_or_else(|| missing("a"))?,
            })
        }
        other => Err(JsonError::Custom(format!("unknown variant `{}`", other))),
    }
}

fn enum_of(j: &str) -> Result<E, JsonError> {
    let mut de = from_str(j);
    match de.begin_enum()? {
        EnumHead::Unit(tag) => match tag.as_ref() {
            "Unit" => Ok(E::Unit),
            other => Err(JsonError::Custom(format!("unknown variant `{}`", other))),
        },
        EnumHead::Tagged => {
            let value = {
                let mut access = Enum::new(&mut de);
                let tag = access.variant()?;
                payload_of(tag.as_ref(), &mut access)?
            };
            de.end_enum()?;
            Ok(value)
        }
    }
}

fn float_of(token: FloatToken) -> f64 {
    match token {
        FloatToken::NaN => f64::NAN,
        FloatToken::Literal(text) => text.parse().unwrap(),
    }
}

fn float32_of(token: FloatToken) -> f32 {
    match token {
        FloatToken::NaN => f32::NAN,
        FloatToken::Literal(text) => text.parse().unwrap(),
    }
}

#[test]
fn de_test_struct() {
    let j = r#"{"int":1,"seq":["a","b"]}"#;
    let expected = Test {
        int: 1,
        seq: vec!["a".to_owned(), "b".to_owned()],
    };
    assert_eq!(expected, test_struct_of(j).unwrap());

    let j = r#"  {  "int"  :  1  ,  "seq"  :  [  "a"  ,  "b"  ]  }  "#;
    let expected = Test {
        int: 1,
        seq: vec!["a".to_owned(), "b".to_owned()],
    };
    assert_eq!(expected, test_struct_of(j).unwrap());
}

#[test]
fn de_test_enum() {
    let j = r#" "Unit" "#;
    assert_eq!(E::Unit, enum_of(j).unwrap());

    let j = r#" { "Newtype" : 1 } "#;
    assert_eq!(E::Newtype(1), enum_of(j).unwrap());

    let j = r#" {"Tuple":[1,2]}"#;
    assert_eq!(E::Tuple(1, 2), enum_of(j).unwrap());

    let j = r#"  {  "Tuple"  :  [ 1 , 2 ] } "#;
    assert_eq!(E::Tuple(1, 2), enum_of(j).unwrap());

    let j = r#"{"Struct":{"a":1}}"#;
    assert_eq!(E::Struct { a: 1 }, enum_of(j).unwrap());

    let j = r#"  {  "Struct"  :  {  "a"  :  1  }  }  "#;
    assert_eq!(E::Struct { a: 1 }, enum_of(j).unwrap());
}

#[test]
fn de_test_bytes() {
    let b = b"bytes test";
    let j = &format!(
        "{{\"b\":\"{}\"}}",
        base64::encode_config(b, base64::URL_SAFE)
    );
    let mut de = from_str(j);
    de.begin_map().unwrap();
    let mut found = None;
    {
        let mut fields = CommaSeparated::new(&mut de);
        while fields.next_key().unwrap() {
            let key = fields.de.deserialize_str().unwrap();
            fields.next_value().unwrap();
            assert_eq!(key, "b");
            found = Some(fields.de.deserialize_bytes().unwrap());
        }
    }
    de.end_map().unwrap();
    assert_eq!(found, Some(b.to_vec()));
}

#[test]
fn de_test_bool() {
    let expected = true;
    assert_eq!(from_str("1").deserialize_bool(), Ok(expected));
    assert_eq!(from_str("true").deserialize_bool(), Ok(expected));

    let expected = false;
    assert_eq!(from_str("0").deserialize_bool(), Ok(expected));
    assert_eq!(from_str("false").deserialize_bool(), Ok(expected));
}

#[test]
fn de_test_string() {
    assert_eq!(from_str(r#""\"""#).deserialize_string(), Ok("\"".to_owned()));
    assert_eq!(from_str(r#""\\""#).deserialize_string(), Ok("\\".to_owned()));
    assert_eq!(
        from_str(r#""\/\b\f\n\r\t""#).deserialize_string(),
        Ok("/\u{8}\u{c}\n\r\t".to_owned())
    );
    assert_eq!(from_str(r#""\u0022""#).deserialize_string(), Ok("\"".to_owned()));
}

#[test]
fn de_test_number() {
    assert_eq!(from_str(r#"123"#).deserialize_u8(), Ok(123u8));
    assert_eq!(from_str(r#"12345"#).deserialize_u16(), Ok(12345u16));
    assert_eq!(from_str(r#"1234512345"#).deserialize_u32(), Ok(1234512345u32));
    assert_eq!(from_str(r#""1234512345""#).deserialize_u64(), Ok(1234512345u64));
    assert_eq!(from_str(r#"123"#).deserialize_i8(), Ok(123i8));
    assert_eq!(from_str(r#"12345"#).deserialize_i16(), Ok(12345i16));
    assert_eq!(from_str(r#"1234512345"#).deserialize_i32(), Ok(1234512345i32));
    assert_eq!(from_str(r#""1234512345""#).deserialize_i64(), Ok(1234512345i64));
    assert_eq!(
        from_str(r#""12345123451234512345""#).deserialize_u128(),
        Ok(12345123451234512345u128)
    );
    assert_eq!(
        from_str(r#""12345123451234512345""#).deserialize_i128(),
        Ok(12345123451234512345i128)
    );
    assert_eq!(float32_of(from_str(r#"1.3"#).deserialize_float().unwrap()), 1.3f32);
    assert_eq!(float_of(from_str(r#"1.3"#).deserialize_float().unwrap()), 1.3f64);
    assert!(float32_of(from_str("null").deserialize_float().unwrap()).is_nan());
    assert!(float_of(from_str("null").deserialize_float().unwrap()).is_nan());
}

#[test]
fn de_test_null() {
    assert_eq!(from_str(r#"null"#).deserialize_unit(), Ok(()));
}

#[test]
fn cursor_primitives() {
    let mut de = from_str(" \t\r\n x\u{e9}y");
    assert_eq!(de.peek_char(), Ok(' '));
    de.trim_start();
    assert_eq!(de.peek_char(), Ok('x'));
    assert_eq!(de.peek_u8(), Ok(b'x'));
    assert_eq!(de.next_char(), Ok('x'));
    assert_eq!(de.peek_u8(), Ok(0xc3));
    assert_eq!(de.assert_next_char('z'), Err(JsonError::UnexpectedToken('\u{e9}')));
    assert_eq!(de.assert_next_char('\u{e9}'), Ok(()));
    assert_eq!(de.next_char(), Ok('y'));
    assert_eq!(de.next_char(), Err(JsonError::UnexpectedEnd));
    assert_eq!(de.peek_char(), Err(JsonError::UnexpectedEnd));
    assert_eq!(de.peek_u8(), Err(JsonError::UnexpectedEnd));
    assert_eq!(de.assert_next_char('a'), Err(JsonError::UnexpectedEnd));
}

#[test]
fn whitespace_is_only_the_four_characters() {
    let mut de = from_str("\u{a0}1");
    de.trim_start();
    assert_eq!(de.peek_char(), Ok('\u{a0}'));
    assert_eq!(de.deserialize_u8(), Err(JsonError::ParseIntError(IntErrorKind::Empty)));
}

#[test]
fn bool_leaves_the_rest() {
    let mut de = from_str("  true,0");
    assert_eq!(de.deserialize_bool(), Ok(true));
    assert_eq!(de.next_char(), Ok(','));
    assert_eq!(de.parse_bool(), Ok(false));
    assert_eq!(de.parse_bool(), Err(JsonError::UnexpectedEnd));
    assert_eq!(from_str("yes").parse_bool(), Err(JsonError::UnexpectedToken('y')));
    assert_eq!(from_str(" 1").parse_bool(), Err(JsonError::UnexpectedToken(' ')));
}

#[test]
fn narrow_integers_and_their_limits() {
    assert_eq!(from_str("255").deserialize_u8(), Ok(255));
    assert_eq!(
        from_str("256").deserialize_u8(),
        Err(JsonError::ParseIntError(IntErrorKind::PosOverflow))
    );
    assert_eq!(from_str("-128").deserialize_i8(), Ok(-128));
    assert_eq!(
        from_str("-129").deserialize_i8(),
        Err(JsonError::ParseIntError(IntErrorKind::NegOverflow))
    );
    assert_eq!(
        from_str("128").deserialize_i8(),
        Err(JsonError::ParseIntError(IntErrorKind::PosOverflow))
    );
    assert_eq!(from_str("-32768").deserialize_i16(), Ok(i16::MIN));
    assert_eq!(from_str("65535").deserialize_u16(), Ok(u16::MAX));
    assert_eq!(from_str("4294967295").deserialize_u32(), Ok(u32::MAX));
    assert_eq!(
        from_str("4294967296").deserialize_u32(),
        Err(JsonError::ParseIntError(IntErrorKind::PosOverflow))
    );
    assert_eq!(from_str("-2147483648").deserialize_i32(), Ok(i32::MIN));
    assert_eq!(from_str("007").deserialize_u8(), Ok(7));
    assert_eq!(from_str("-0").deserialize_i8(), Ok(0));
    assert_eq!(
        from_str("").deserialize_u8(),
        Err(JsonError::ParseIntError(IntErrorKind::Empty))
    );
    assert_eq!(
        from_str("-1").deserialize_u8(),
        Err(JsonError::ParseIntError(IntErrorKind::Empty))
    );
    assert_eq!(
        from_str("-").deserialize_i8(),
        Err(JsonError::ParseIntError(IntErrorKind::InvalidDigit))
    );
    assert_eq!(
        from_str("1-2").deserialize_i32(),
        Err(JsonError::ParseIntError(IntErrorKind::InvalidDigit))
    );
    assert_eq!(
        from_str("--1").deserialize_i32(),
        Err(JsonError::ParseIntError(IntErrorKind::InvalidDigit))
    );
    let mut de = from_str("12]");
    assert_eq!(de.parse_unsigned(Width::W8), Ok(12));
    assert_eq!(de.peek_char(), Ok(']'));
    let mut de = from_str("-12,");
    assert_eq!(de.parse_signed(Width::W16), Ok(-12));
    assert_eq!(de.peek_char(), Ok(','));
    assert_eq!(from_str("18446744073709551615").parse_unsigned(Width::W64), Ok(u64::MAX as u128));
    assert_eq!(
        from_str("65536").parse_unsigned(Width::W16),
        Err(JsonError::ParseIntError(IntErrorKind::PosOverflow))
    );
    assert_eq!(
        from_str("-170141183460469231731687303715884105728").parse_signed(Width::W128),
        Ok(i128::MIN)
    );
}

#[test]
fn wide_integers_are_quoted() {
    assert_eq!(from_str("\"18446744073709551615\"").deserialize_u64(), Ok(u64::MAX));
    assert_eq!(
        from_str("\"18446744073709551616\"").deserialize_u64(),
        Err(JsonError::ParseIntError(IntErrorKind::PosOverflow))
    );
    assert_eq!(from_str("\"-9223372036854775808\"").deserialize_i64(), Ok(i64::MIN));
    assert_eq!(
        from_str("\"-9223372036854775809\"").deserialize_i64(),
        Err(JsonError::ParseIntError(IntErrorKind::NegOverflow))
    );
    assert_eq!(
        from_str("\"340282366920938463463374607431768211455\"").deserialize_u128(),
        Ok(u128::MAX)
    );
    assert_eq!(
        from_str("\"340282366920938463463374607431768211456\"").deserialize_u128(),
        Err(JsonError::ParseIntError(IntErrorKind::PosOverflow))
    );
    assert_eq!(
        from_str("\"-170141183460469231731687303715884105728\"").deserialize_i128(),
        Ok(i128::MIN)
    );
    assert_eq!(
        from_str("\"170141183460469231731687303715884105727\"").deserialize_i128(),
        Ok(i128::MAX)
    );
    assert_eq!(
        from_str("\"170141183460469231731687303715884105728\"").deserialize_i128(),
        Err(JsonError::ParseIntError(IntErrorKind::PosOverflow))
    );
    assert_eq!(from_str("\"+5\"").deserialize_u64(), Ok(5));
    assert_eq!(from_str("\"+5\"").deserialize_i64(), Ok(5));
    assert_eq!(
        from_str("\"+\"").deserialize_i64(),
        Err(JsonError::ParseIntError(IntErrorKind::InvalidDigit))
    );
    assert_eq!(
        from_str("\"-5\"").deserialize_u64(),
        Err(JsonError::ParseIntError(IntErrorKind::InvalidDigit))
    );
    assert_eq!(
        from_str("\"\"").deserialize_u64(),
        Err(JsonError::ParseIntError(IntErrorKind::Empty))
    );
    assert_eq!(
        from_str("\"999999999999999999999x\"").deserialize_u64(),
        Err(JsonError::ParseIntError(IntErrorKind::PosOverflow))
    );
    assert_eq!(
        from_str("\"12x\"").deserialize_u64(),
        Err(JsonError::ParseIntError(IntErrorKind::InvalidDigit))
    );
    assert_eq!(from_str("5").deserialize_u64(), Err(JsonError::UnexpectedToken('5')));
}

#[test]
fn float_tokens() {
    assert_eq!(from_str(" -1.5e").deserialize_float(), Ok(FloatToken::Literal("-1.5")));
    assert_eq!(from_str("5.").deserialize_float(), Ok(FloatToken::Literal("5.")));
    assert_eq!(from_str(".5").deserialize_float(), Ok(FloatToken::Literal(".5")));
    assert_eq!(from_str("null").parse_float(), Ok(FloatToken::NaN));
    let mut de = from_str("null,1");
    assert_eq!(de.parse_float(), Ok(FloatToken::NaN));
    assert_eq!(de.peek_char(), Ok(','));
    assert_eq!(
        from_str("").parse_float(),
        Err(JsonError::ParseFloatError(FloatErrorKind::Empty))
    );
    assert_eq!(
        from_str("x").parse_float(),
        Err(JsonError::ParseFloatError(FloatErrorKind::Empty))
    );
    for bad in ["-", ".", "-.", "1.2.3", "1-2", "--1"] {
        assert_eq!(
            from_str(bad).parse_float(),
            Err(JsonError::ParseFloatError(FloatErrorKind::Invalid))
        );
        assert!(bad.parse::<f64>().is_err());
    }
    for good in ["0", "-0", "1.3", "-.5", "5.", "0012.50"] {
        assert_eq!(from_str(good).parse_float(), Ok(FloatToken::Literal(good)));
        assert!(good.parse::<f64>().is_ok());
    }
}

#[test]
fn strings_borrow_unless_escaped() {
    let input = String::from("\"plain text \u{11f}\u{2026}\" rest");
    let mut de = from_str(&input);
    match de.parse_string().unwrap() {
        Cow::Borrowed(text) => {
            assert_eq!(text, "plain text \u{11f}\u{2026}");
            assert_eq!(text.as_ptr(), input[1..].as_ptr());
        }
        Cow::Owned(_) => panic!("a string without a backslash is borrowed"),
    }
    assert_eq!(de.next_char(), Ok(' '));

    let mut de = from_str("\"a\\nb\u{e9}\\u00e9\"!");
    match de.parse_string().unwrap() {
        Cow::Owned(text) => assert_eq!(text, "a\nb\u{e9}\u{e9}"),
        Cow::Borrowed(_) => panic!("a string with a backslash is built"),
    }
    assert_eq!(de.next_char(), Ok('!'));
    assert_eq!(from_str("\"\"").parse_string(), Ok(Cow::Borrowed("")));
}

#[test]
fn string_errors() {
    assert_eq!(from_str("").parse_string(), Err(JsonError::UnexpectedEnd));
    assert_eq!(from_str("x").parse_string(), Err(JsonError::UnexpectedToken('x')));
    assert_eq!(from_str("\"abc").parse_string(), Err(JsonError::UnexpectedEnd));
    assert_eq!(from_str("\"abc\\").parse_string(), Err(JsonError::UnexpectedEnd));
    assert_eq!(from_str("\"\\x\"").parse_string(), Err(JsonError::UnexpectedToken('x')));
    assert_eq!(from_str("\"\\'\"").parse_string(), Err(JsonError::UnexpectedToken('\'')));
    assert_eq!(
        from_str("\"\\u12g4\"").parse_string(),
        Err(JsonError::InvalidUnicodeEscapeSequence)
    );
    assert_eq!(
        from_str("\"\\u12\"").parse_string(),
        Err(JsonError::InvalidUnicodeEscapeSequence)
    );
    assert_eq!(from_str("\"\\u12").parse_string(), Err(JsonError::UnexpectedEnd));
    assert_eq!(
        from_str("\"\\ud800\"").parse_string(),
        Err(JsonError::UnexpectedUnicodeEscapeSequence(0xd800))
    );
    assert_eq!(
        from_str("\"\\uDFFF\"").parse_string(),
        Err(JsonError::UnexpectedUnicodeEscapeSequence(0xdfff))
    );
    assert_eq!(from_str("\"\\uFFFF\"").deserialize_string(), Ok("\u{ffff}".to_owned()));
    assert_eq!(from_str("\"\\uAbCd\"").deserialize_string(), Ok("\u{abcd}".to_owned()));
    let mut de = from_str("\"abc");
    assert!(de.parse_string().is_err());
    assert_eq!(de.peek_char(), Ok('"'));
}

#[test]
fn characters() {
    assert_eq!(from_str(" \"x\"").deserialize_char(), Ok('x'));
    assert_eq!(from_str("\"\\n\"").deserialize_char(), Ok('\n'));
    assert_eq!(from_str("\"\u{2026}z\"").deserialize_char(), Ok('\u{2026}'));
    assert_eq!(from_str("\"\"").deserialize_char(), Err(JsonError::UnexpectedToken('"')));
    assert_eq!(from_str("x").deserialize_char(), Err(JsonError::UnexpectedToken('x')));
}

#[test]
fn byte_strings() {
    assert_eq!(from_str("\"aGk_\"").deserialize_bytes(), Ok(vec![0x68, 0x69, 0x3f]));
    assert_eq!(from_str("\"-_8=\"").deserialize_bytes(), Ok(vec![0xfb, 0xff]));
    assert_eq!(from_str("\"\"").deserialize_bytes(), Ok(vec![]));
    assert_eq!(
        from_str("\"a+b/\"").deserialize_bytes(),
        Err(JsonError::Base64Error(Base64ErrorKind::InvalidByte(1, b'+')))
    );
    assert_eq!(
        from_str("\"a\"").deserialize_bytes(),
        Err(JsonError::Base64Error(Base64ErrorKind::InvalidLength))
    );
    assert_eq!(
        from_str("\"aR==\"").deserialize_bytes(),
        Err(JsonError::Base64Error(Base64ErrorKind::InvalidLastSymbol(1, b'R')))
    );
    assert_eq!(from_str("aGk_").deserialize_bytes(), Err(JsonError::UnexpectedToken('a')));
}

#[test]
fn optional_values() {
    let mut de = from_str(" null,");
    assert_eq!(de.deserialize_option(), Ok(false));
    assert_eq!(de.next_char(), Ok(','));
    let mut de = from_str(" 12");
    assert_eq!(de.deserialize_option(), Ok(true));
    assert_eq!(de.deserialize_u8(), Ok(12));
    assert_eq!(from_str("nil").deserialize_option(), Err(JsonError::UnexpectedToken('n')));
    assert_eq!(from_str("  ").deserialize_option(), Err(JsonError::UnexpectedEnd));
    assert_eq!(from_str("nul").deserialize_unit(), Err(JsonError::UnexpectedToken('n')));
    assert_eq!(from_str("").deserialize_unit(), Err(JsonError::UnexpectedEnd));
}

#[test]
fn kinds_by_first_character() {
    assert_eq!(from_str(" null").deserialize_any(), Ok(ValueKind::Unit));
    assert_eq!(from_str("true").deserialize_any(), Ok(ValueKind::Bool));
    assert_eq!(from_str("false").deserialize_any(), Ok(ValueKind::Bool));
    assert_eq!(from_str("\"s\"").deserialize_any(), Ok(ValueKind::Str));
    assert_eq!(from_str("0").deserialize_any(), Ok(ValueKind::Number));
    assert_eq!(from_str("9").deserialize_any(), Ok(ValueKind::Number));
    assert_eq!(from_str("-1").deserialize_any(), Ok(ValueKind::Number));
    assert_eq!(from_str("[").deserialize_any(), Ok(ValueKind::Array));
    assert_eq!(from_str("{").deserialize_any(), Ok(ValueKind::Object));
    assert_eq!(from_str("x").deserialize_any(), Err(JsonError::UnexpectedToken('x')));
    assert_eq!(
        from_str("\u{e9}").deserialize_any(),
        Err(JsonError::UnexpectedToken('\u{e9}'))
    );
    assert_eq!(from_str("   ").deserialize_any(), Err(JsonError::UnexpectedEnd));
}

#[test]
fn malformed_documents() {
    assert_eq!(
        test_struct_of(r#"{"int":1,}"#),
        Err(JsonError::UnexpectedToken('}'))
    );
    assert_eq!(
        test_struct_of(r#"{"int":1,"seq":["a","b"]"#),
        Err(JsonError::UnexpectedEnd)
    );
    assert_eq!(
        test_struct_of(r#"{"int":1 "seq":[]}"#),
        Err(JsonError::UnexpectedToken('"'))
    );
    assert_eq!(
        test_struct_of(r#"{"int" 1}"#),
        Err(JsonError::UnexpectedToken('1'))
    );
    assert_eq!(
        test_struct_of(r#"["int"]"#),
        Err(JsonError::UnexpectedToken('['))
    );
    assert_eq!(
        test_struct_of(r#"{"int":1,"seq":["a" "b"]}"#),
        Err(JsonError::UnexpectedToken('"'))
    );
    assert_eq!(
        test_struct_of(r#"{"int":1,"seq":["a",]}"#),
        Err(JsonError::UnexpectedToken(']'))
    );
    assert_eq!(test_struct_of(r#"{"seq":[]}"#), Err(missing("int")));
    assert_eq!(from_str("1]").begin_seq(), Err(JsonError::UnexpectedToken('1')));
    assert_eq!(from_str("").begin_map(), Err(JsonError::UnexpectedEnd));
    assert_eq!(from_str(" )").end_seq(), Err(JsonError::UnexpectedToken(')')));
}

#[test]
fn variant_shapes_are_told_apart() {
    assert_eq!(enum_of(r#"{"Unit":1}"#), Err(JsonError::UnexpectedToken('1')));
    assert_eq!(enum_of(r#"{"Unit":"#), Err(JsonError::UnexpectedEnd));
    assert_eq!(enum_of(r#"["Unit"]"#), Err(JsonError::UnexpectedToken('[')));
    assert_eq!(enum_of(r#"{"Newtype":1"#), Err(JsonError::UnexpectedEnd));
    assert_eq!(enum_of(r#"{"Newtype":1]"#), Err(JsonError::UnexpectedToken(']')));
    assert_eq!(enum_of(r#"{"Newtype" 1}"#), Err(JsonError::UnexpectedToken('1')));
    assert_eq!(enum_of(r#"{"Tuple":{"a":1}}"#), Err(JsonError::UnexpectedToken('{')));
    assert_eq!(enum_of(r#"{"Struct":[1]}"#), Err(JsonError::UnexpectedToken('[')));
    let mut de = from_str("\"Tag\" ");
    assert_eq!(de.begin_enum(), Ok(EnumHead::Unit(Cow::Borrowed("Tag"))));
    let mut de = from_str(" {\"Tag\" : 5}");
    assert_eq!(de.begin_enum(), Ok(EnumHead::Tagged));
    {
        let mut access = Enum::new(&mut de);
        assert_eq!(access.variant(), Ok(Cow::Borrowed("Tag")));
        assert_eq!(access.unit_variant(), Err(JsonError::UnexpectedToken(' ')));
        assert_eq!(access.de.deserialize_u8(), Ok(5));
    }
    assert_eq!(de.end_enum(), Ok(()));
}

#[test]
fn any_value_is_skipped_whole() {
    let doc = r#" {"a" : [1, -2.5, "x\"]", null, true, false, {"b": []}], "c": {}} ,7"#;
    let mut de = from_str(doc);
    assert_eq!(de.deserialize_ignored_any(), Ok(()));
    de.trim_start();
    assert_eq!(de.next_char(), Ok(','));
    assert_eq!(de.deserialize_u8(), Ok(7));

    let j = r#"{"extra":{"deep":[1,2,{"x":null}]},"int":1,"other":"s","seq":["a","b"]}"#;
    let expected = Test {
        int: 1,
        seq: vec!["a".to_owned(), "b".to_owned()],
    };
    assert_eq!(test_struct_of(j), Ok(expected));

    assert_eq!(from_str("[1,2").deserialize_ignored_any(), Err(JsonError::UnexpectedEnd));
    assert_eq!(
        from_str("[1 2]").deserialize_ignored_any(),
        Err(JsonError::UnexpectedToken('2'))
    );
    assert_eq!(
        from_str("{\"a\" 1}").deserialize_ignored_any(),
        Err(JsonError::UnexpectedToken('1'))
    );
    assert_eq!(
        from_str("[1,]").deserialize_ignored_any(),
        Err(JsonError::UnexpectedToken(']'))
    );
    assert_eq!(
        from_str("tru").deserialize_ignored_any(),
        Err(JsonError::UnexpectedToken('t'))
    );
    assert_eq!(from_str("").deserialize_ignored_any(), Err(JsonError::UnexpectedEnd));
}

#[test]
fn nesting_is_bounded() {
    let deep = "[".repeat(MAX_DEPTH) + &"]".repeat(MAX_DEPTH);
    assert_eq!(from_str(&deep).deserialize_ignored_any(), Ok(()));
    let deeper = "[".repeat(MAX_DEPTH + 1) + &"]".repeat(MAX_DEPTH + 1);
    assert_eq!(from_str(&deeper).deserialize_ignored_any(), Err(JsonError::OutOfRange));
    let endless = "[".repeat(100_000);
    assert_eq!(from_str(&endless).deserialize_ignored_any(), Err(JsonError::OutOfRange));
    let braces = "{\"a\":".repeat(MAX_DEPTH + 1);
    assert_eq!(from_str(&braces).deserialize_ignored_any(), Err(JsonError::OutOfRange));

    let mut de = from_str(&deeper);
    for _ in 0..MAX_DEPTH {
        assert_eq!(de.begin_seq(), Ok(()));
    }
    assert_eq!(de.begin_seq(), Err(JsonError::OutOfRange));
    let many = "[]".repeat(2 * MAX_DEPTH);
    let mut de = from_str(&many);
    for _ in 0..(2 * MAX_DEPTH) {
        assert_eq!(de.begin_seq(), Ok(()));
        assert_eq!(de.end_seq(), Ok(()));
    }
    assert_eq!(de.peek_char(), Err(JsonError::UnexpectedEnd));
}

#[test]
fn a_failed_operation_leaves_the_cursor_behind_the_whitespace() {
    let mut de = from_str("  x");
    assert_eq!(de.deserialize_bool(), Err(JsonError::UnexpectedToken('x')));
    assert_eq!(de.peek_char(), Ok('x'));
    assert!(de.deserialize_u8().is_err());
    assert!(de.deserialize_i32().is_err());
    assert!(de.deserialize_float().is_err());
    assert!(de.deserialize_str().is_err());
    assert!(de.deserialize_string().is_err());
    assert!(de.deserialize_unit().is_err());
    assert!(de.deserialize_u64().is_err());
    assert!(de.deserialize_char().is_err());
    assert!(de.deserialize_bytes().is_err());
    assert!(de.deserialize_any().is_err());
    assert!(de.deserialize_ignored_any().is_err());
    assert!(de.begin_seq().is_err());
    assert!(de.begin_map().is_err());
    assert!(de.begin_enum().is_err());
    assert!(de.end_seq().is_err());
    assert!(de.end_map().is_err());
    assert!(de.end_enum().is_err());
    assert_eq!(de.next_char(), Ok('x'));
    assert_eq!(de.next_char(), Err(JsonError::UnexpectedEnd));

    let mut de = from_str(" nil");
    assert!(de.deserialize_option().is_err());
    assert_eq!(de.peek_char(), Ok('n'));

    let mut de = from_str(" \"12x\" ,");
    assert_eq!(
        de.deserialize_u64(),
        Err(JsonError::ParseIntError(IntErrorKind::InvalidDigit))
    );
    assert_eq!(de.peek_char(), Ok(' '));
    let mut de = from_str(" \"\",");
    assert_eq!(de.deserialize_char(), Err(JsonError::UnexpectedToken('"')));
    assert_eq!(de.peek_char(), Ok(','));
    let mut de = from_str(" \"a+b/\"]");
    assert!(de.deserialize_bytes().is_err());
    assert_eq!(de.peek_char(), Ok(']'));
    let mut de = from_str(" \"abc");
    assert_eq!(de.deserialize_i128(), Err(JsonError::UnexpectedEnd));
    assert_eq!(de.peek_char(), Ok('"'));

    let mut de = from_str("[1 2]");
    assert_eq!(de.begin_seq(), Ok(()));
    {
        let mut items = CommaSeparated::new(&mut de);
        assert_eq!(items.next_element(), Ok(true));
        assert_eq!(items.de.deserialize_u8(), Ok(1));
        assert_eq!(items.next_element(), Err(JsonError::UnexpectedToken('2')));
        assert!(!items.first);
        assert_eq!(items.de.peek_char(), Ok('2'));
        assert_eq!(items.next_value(), Err(JsonError::UnexpectedToken('2')));
        assert_eq!(items.de.peek_char(), Ok('2'));
    }

    let mut de = from_str(" \"Tag\"  5");
    {
        let mut access = Enum::new(&mut de);
        assert_eq!(access.variant(), Err(JsonError::UnexpectedToken('5')));
        assert_eq!(access.de.peek_char(), Ok('5'));
    }
    let mut de = from_str("  Tag");
    {
        let mut access = Enum::new(&mut de);
        assert_eq!(access.variant(), Err(JsonError::UnexpectedToken('T')));
        assert_eq!(access.de.peek_char(), Ok('T'));
    }

    let deep = "[".repeat(MAX_DEPTH + 1);
    let mut de = from_str(&deep);
    for _ in 0..MAX_DEPTH {
        assert_eq!(de.begin_seq(), Ok(()));
    }
    assert_eq!(de.begin_seq(), Err(JsonError::OutOfRange));
    assert_eq!(de.next_char(), Ok('['));
    assert_eq!(de.next_char(), Err(JsonError::UnexpectedEnd));

    let mut de = from_str("  [1, {\"a\": [2, x]}] tail");
    assert_eq!(de.deserialize_ignored_any(), Err(JsonError::UnexpectedToken('x')));
    assert_eq!(de.peek_char(), Ok('['));
    let text = "[".repeat(MAX_DEPTH) + "x";
    let mut de = from_str(&text);
    assert_eq!(de.deserialize_ignored_any(), Err(JsonError::UnexpectedToken('x')));
    for _ in 0..MAX_DEPTH {
        assert_eq!(de.begin_seq(), Ok(()));
    }
    assert_eq!(de.peek_char(), Ok('x'));
}

#[test]
fn input_as_bytes() {
    let mut de = from_slice(b" \"h\xc3\xa9\" ").unwrap();
    assert_eq!(de.deserialize_string(), Ok("h\u{e9}".to_owned()));
    match from_slice(b"12\xff4") {
        Err(JsonError::Utf8Error(valid_up_to, error_len)) => {
            assert_eq!(valid_up_to, 2);
            assert_eq!(error_len, Some(1));
        }
        other => panic!("{:?}", other.map(|_| ())),
    }
    assert_eq!(from_slice(&[0xff]).err(), Some(JsonError::Utf8Error(0, Some(1))));
    assert_eq!(
        from_slice(b"123").map(|mut de| de.deserialize_u8()).ok(),
        Some(Ok(123))
    );
    match from_slice(b"\"\xe2\x80") {
        Err(JsonError::Utf8Error(valid_up_to, error_len)) => {
            assert_eq!(valid_up_to, 1);
            assert_eq!(error_len, None);
        }
        other => panic!("{:?}", other.map(|_| ())),
    }
}

#[test]
fn the_first_number_of_a_refusal_is_the_longest_valid_prefix() {
    let bytes = [
        0x00u8, 0x22, 0x41, 0x7f, 0x80, 0x9f, 0xa0, 0xbf, 0xc0, 0xc1, 0xc2, 0xdf, 0xe0, 0xe1,
        0xed, 0xee, 0xef, 0xf0, 0xf1, 0xf4, 0xf5, 0xff,
    ];
    let mut inputs: Vec<Vec<u8>> = Vec::new();
    for a in bytes {
        inputs.push(vec![a]);
        for b in bytes {
            inputs.push(vec![a, b]);
            for c in bytes {
                inputs.push(vec![a, b, c]);
                inputs.push(vec![0x41, a, b, c, 0x80]);
                inputs.push(vec![0xf0, 0x90, a, b, c]);
            }
        }
    }
    for input in inputs {
        match from_slice(&input) {
            Ok(mut de) => {
                let text = std::str::from_utf8(&input).unwrap();
                let mut read = String::new();
                while let Ok(c) = de.next_char() {
                    read.push(c);
                }
                assert_eq!(read, text);
            }
            Err(JsonError::Utf8Error(valid_up_to, error_len)) => {
                let e = std::str::from_utf8(&input).unwrap_err();
                assert_eq!(valid_up_to, e.valid_up_to());
                assert_eq!(error_len, e.error_len());
                assert!(valid_up_to < input.len());
                assert!(std::str::from_utf8(&input[..valid_up_to]).is_ok());
                for longer in (valid_up_to + 1)..=input.len() {
                    assert!(std::str::from_utf8(&input[..longer]).is_err());
                }
            }
            Err(other) => panic!("{:?}", other),
        }
    }
}
