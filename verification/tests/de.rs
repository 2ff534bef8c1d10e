use onecode::de::{from_str, Deserializer};
use onecode::error::Error;
use onecode::value::{Kind, Value, Variant};

#[test]
fn test_int() {
    let test_1code = r#"i1e"#;
    let expected = 1;
    assert_eq!(Value::Unsigned(expected), from_str(test_1code).unwrap());
    assert_eq!(
        1i32,
        Deserializer::from_str(test_1code).deserialize_i32().unwrap()
    );
}

#[test]
fn test_string() {
    let test_1code = r#"5:hello"#;
    let expected = "hello".to_string();
    let actual = from_str(test_1code).unwrap();
    assert_eq!(Value::Str(&expected), actual);
    let typed: String = Deserializer::from_str(test_1code)
        .deserialize_str()
        .unwrap()
        .to_string();
    assert_eq!(expected, typed);
}

#[test]
fn test_seq() {
    let test_1code = r#"l1:a1:be"#;
    let expected: Vec<String> = vec!["a".to_owned(), "b".to_owned()];
    let actual = from_str(test_1code).unwrap();
    assert_eq!(
        Value::List(vec![Value::Str(&expected[0]), Value::Str(&expected[1])]),
        actual
    );
}

#[test]
fn test_struct() {
    let test_1code = r#"d3:inti1ee"#;
    let expected = Value::Dict(vec![(Value::Str("int"), Value::Unsigned(1))]);
    assert_eq!(expected, from_str(test_1code).unwrap());
}

#[test]
fn test_struct_with_seq() {
    let test_1code = r#"d3:inti1e3:seql1:a1:bee"#;
    let expected = Value::Dict(vec![
        (Value::Str("int"), Value::Unsigned(1)),
        (
            Value::Str("seq"),
            Value::List(vec![Value::Str("a"), Value::Str("b")]),
        ),
    ]);
    assert_eq!(expected, from_str(test_1code).unwrap());
}

#[test]
fn list_without_end_is_list_end_error() {
    assert_eq!(Err(Error::ExpectedListEnd), from_str("l1:a1:b"));
    assert_eq!(Err(Error::ExpectedListEnd), from_str("l"));
    let mut de = Deserializer::from_str("li1ei2e");
    assert_eq!(Ok(()), de.open_list());
    assert_eq!(Ok(true), de.more_items());
    assert_eq!(Ok(1), de.deserialize_u8());
    assert_eq!(Ok(2), de.deserialize_u8());
    assert_eq!(Err(Error::ExpectedListEnd), de.more_items());
    assert_eq!(Err(Error::ExpectedListEnd), de.close_list());
}

#[test]
fn text_behind_a_value_is_trailing_characters() {
    assert_eq!(Err(Error::TrailingCharacters), from_str("i1e extra"));
    assert_eq!(Err(Error::TrailingCharacters), from_str("NN"));
    let mut de = Deserializer::from_str("i1e extra");
    assert_eq!(Ok(1), de.parse_unsigned());
    assert_eq!(Err(Error::TrailingCharacters), de.end());
}

#[test]
fn empty_input_is_eof() {
    assert_eq!(Err(Error::Eof), from_str(""));
    assert_eq!(Err(Error::Eof), Deserializer::from_str("").peek_char());
    assert_eq!(Err(Error::Eof), Deserializer::from_str("").next_char());
    assert_eq!(Err(Error::Eof), Deserializer::from_str("").parse_unsigned());
    assert_eq!(Err(Error::Eof), Deserializer::from_str("").parse_signed());
    assert_eq!(Err(Error::Eof), Deserializer::from_str("i").parse_signed());
    assert_eq!(Err(Error::Eof), Deserializer::from_str("").parse_string());
    assert_eq!(Err(Error::Eof), Deserializer::from_str("").open_list());
    assert_eq!(Err(Error::Eof), Deserializer::from_str("").open_dictionary());
    assert_eq!(Err(Error::Eof), from_str("i"));
}

#[test]
fn cursor_takes_one_character_at_a_time() {
    let mut de = Deserializer::from_str("aé世e");
    assert_eq!(Ok('a'), de.peek_char());
    assert_eq!(Ok('a'), de.next_char());
    assert_eq!(Ok('é'), de.next_char());
    assert_eq!(Ok('世'), de.peek_char());
    assert_eq!(Ok('世'), de.next_char());
    assert_eq!(Ok('e'), de.next_char());
    assert_eq!(Err(Error::Eof), de.next_char());
    assert_eq!(Ok(()), de.end());
}

#[test]
fn booleans_in_typed_mode() {
    let mut de = Deserializer::from_str("TFx");
    assert_eq!(Ok(true), de.parse_bool());
    assert_eq!(Ok(false), de.deserialize_bool());
    assert_eq!(Err(Error::ExpectedBoolean), de.parse_bool());
    assert_eq!(Ok('x'), de.next_char());
    assert_eq!(Err(Error::ExpectedBoolean), de.parse_bool());
    assert_eq!(
        Err(Error::ExpectedBoolean),
        Deserializer::from_str("t").parse_bool()
    );
}

#[test]
fn booleans_by_dispatch() {
    assert_eq!(Ok(Kind::Boolean), Deserializer::from_str("T").peek_kind());
    assert_eq!(Ok(Kind::Boolean), Deserializer::from_str("F").peek_kind());
    assert_eq!(Ok(Value::Bool(true)), from_str("T"));
    assert_eq!(Ok(Value::Bool(false)), from_str("F"));
    assert_eq!(
        Ok(Value::List(vec![Value::Bool(true), Value::Bool(false)])),
        from_str("lTFe")
    );
    assert_eq!(Err(Error::Syntax), from_str("t"));
    assert_eq!(Err(Error::Syntax), from_str("f"));
    assert_eq!(Err(Error::Syntax), Deserializer::from_str("t").peek_kind());
}

#[test]
fn refusal_takes_nothing() {
    let mut de = Deserializer::from_str("f");
    assert_eq!(Err(Error::ExpectedBoolean), de.parse_bool());
    assert_eq!(Err(Error::ExpectedBoolean), de.deserialize_bool());
    assert_eq!(Err(Error::ExpectedNull), de.deserialize_unit());
    assert_eq!(Ok('f'), de.next_char());
    assert_eq!(Ok(()), de.end());

    let mut de = Deserializer::from_str("x1");
    assert_eq!(Err(Error::Syntax), de.deserialize_any());
    assert_eq!(Ok('x'), de.next_char());
    assert_eq!(Ok('1'), de.next_char());

    let mut de = Deserializer::from_str("ie");
    assert_eq!(Err(Error::Syntax), de.deserialize_any());
    assert_eq!(Ok('i'), de.next_char());
    assert_eq!(Ok('e'), de.next_char());

    let mut de = Deserializer::from_str("");
    assert_eq!(Err(Error::Eof), de.deserialize_any());
    assert_eq!(Ok(()), de.end());
}

#[test]
fn unsigned_integers() {
    assert_eq!(Ok(0), Deserializer::from_str("i0e").parse_unsigned());
    assert_eq!(Ok(42), Deserializer::from_str("i42e").parse_unsigned());
    assert_eq!(Ok(7), Deserializer::from_str("i007e").parse_unsigned());
    assert_eq!(
        Err(Error::ExpectedInteger),
        Deserializer::from_str("ie").parse_unsigned()
    );
    assert_eq!(
        Err(Error::ExpectedInteger),
        Deserializer::from_str("ie").deserialize_u8()
    );
    assert_eq!(
        Ok(18446744073709551615),
        Deserializer::from_str("i18446744073709551615e").parse_unsigned()
    );
    assert_eq!(
        Err(Error::ExpectedInteger),
        Deserializer::from_str("i18446744073709551616e").parse_unsigned()
    );
    assert_eq!(
        Err(Error::ExpectedInteger),
        Deserializer::from_str("i-1e").parse_unsigned()
    );
    assert_eq!(
        Err(Error::ExpectedInteger),
        Deserializer::from_str("x1e").parse_unsigned()
    );
    assert_eq!(
        Err(Error::ExpectedInteger),
        Deserializer::from_str("i12").parse_unsigned()
    );
    assert_eq!(
        Err(Error::ExpectedInteger),
        Deserializer::from_str("i1.5e").parse_unsigned()
    );
    let mut de = Deserializer::from_str("i12ei3e");
    assert_eq!(Ok(12), de.deserialize_u64());
    assert_eq!(Ok(3), de.deserialize_u64());
    assert_eq!(Ok(()), de.end());
}

#[test]
fn signed_integers() {
    assert_eq!(Ok(-1), Deserializer::from_str("i-1e").parse_signed());
    assert_eq!(Ok(1), Deserializer::from_str("i1e").parse_signed());
    assert_eq!(Ok(0), Deserializer::from_str("i-0e").parse_signed());
    assert_eq!(
        Err(Error::ExpectedInteger),
        Deserializer::from_str("i-e").parse_signed()
    );
    assert_eq!(
        Err(Error::ExpectedInteger),
        Deserializer::from_str("ie").parse_signed()
    );
    assert_eq!(
        Err(Error::ExpectedInteger),
        Deserializer::from_str("i-e").deserialize_i32()
    );
    assert_eq!(Err(Error::ExpectedInteger), from_str("i-e"));
    assert_eq!(Ok(-12), Deserializer::from_str("i-012e").deserialize_i64());
    assert_eq!(
        Ok(i64::MIN),
        Deserializer::from_str("i-9223372036854775808e").parse_signed()
    );
    assert_eq!(
        Ok(i64::MAX),
        Deserializer::from_str("i9223372036854775807e").parse_signed()
    );
    assert_eq!(
        Err(Error::ExpectedInteger),
        Deserializer::from_str("i9223372036854775808e").parse_signed()
    );
    assert_eq!(
        Err(Error::ExpectedInteger),
        Deserializer::from_str("i-9223372036854775809e").parse_signed()
    );
    assert_eq!(
        Err(Error::ExpectedInteger),
        Deserializer::from_str("i--1e").parse_signed()
    );
    assert_eq!(
        Err(Error::ExpectedInteger),
        Deserializer::from_str("l").parse_signed()
    );
}

#[test]
fn integers_of_each_width() {
    assert_eq!(Ok(255), Deserializer::from_str("i255e").deserialize_u8());
    assert_eq!(
        Err(Error::ExpectedInteger),
        Deserializer::from_str("i256e").deserialize_u8()
    );
    assert_eq!(Ok(65535), Deserializer::from_str("i65535e").deserialize_u16());
    assert_eq!(
        Err(Error::ExpectedInteger),
        Deserializer::from_str("i65536e").deserialize_u16()
    );
    assert_eq!(
        Ok(4294967295),
        Deserializer::from_str("i4294967295e").deserialize_u32()
    );
    assert_eq!(
        Err(Error::ExpectedInteger),
        Deserializer::from_str("i4294967296e").deserialize_u32()
    );
    assert_eq!(Ok(-128), Deserializer::from_str("i-128e").deserialize_i8());
    assert_eq!(Ok(127), Deserializer::from_str("i127e").deserialize_i8());
    assert_eq!(
        Err(Error::ExpectedInteger),
        Deserializer::from_str("i128e").deserialize_i8()
    );
    assert_eq!(
        Err(Error::ExpectedInteger),
        Deserializer::from_str("i-129e").deserialize_i8()
    );
    assert_eq!(Ok(-32768), Deserializer::from_str("i-32768e").deserialize_i16());
    assert_eq!(
        Err(Error::ExpectedInteger),
        Deserializer::from_str("i32768e").deserialize_i16()
    );
    assert_eq!(
        Ok(-2147483648),
        Deserializer::from_str("i-2147483648e").deserialize_i32()
    );
    assert_eq!(
        Err(Error::ExpectedInteger),
        Deserializer::from_str("i2147483648e").deserialize_i32()
    );
}

#[test]
fn strings() {
    assert_eq!(Ok(""), Deserializer::from_str("0:").parse_string());
    assert_eq!(Ok("0.1"), Deserializer::from_str("3:0.1").parse_string());
    assert_eq!(Ok("h h"), Deserializer::from_str("3:h h").parse_string());
    assert_eq!(Ok("hello"), Deserializer::from_str("005:hello").parse_string());
    assert_eq!(Ok(":ie"), Deserializer::from_str("3::ie").parse_string());
    assert_eq!(
        Ok("привет мир"),
        Deserializer::from_str("19:привет мир").parse_string()
    );
    assert_eq!(
        Ok("hello".to_string()),
        Deserializer::from_str("5:hello").deserialize_string()
    );
    let mut de = Deserializer::from_str("4:éé1:x");
    assert_eq!(Ok("éé"), de.parse_string());
    assert_eq!(Ok("x"), de.deserialize_identifier());
    assert_eq!(Ok(()), de.end());
}

#[test]
fn strings_that_are_refused() {
    assert_eq!(
        Err(Error::ExpectedString),
        Deserializer::from_str("x").parse_string()
    );
    assert_eq!(
        Err(Error::ExpectedString),
        Deserializer::from_str(":abc").parse_string()
    );
    assert_eq!(
        Err(Error::ExpectedString),
        Deserializer::from_str("5").parse_string()
    );
    assert_eq!(
        Err(Error::ExpectedString),
        Deserializer::from_str("5hello").parse_string()
    );
    assert_eq!(Err(Error::Eof), Deserializer::from_str("5:hell").parse_string());
    assert_eq!(Err(Error::Eof), Deserializer::from_str("1:").parse_string());
    assert_eq!(
        Err(Error::Eof),
        Deserializer::from_str("99999999999999999999999999999999:a").parse_string()
    );
    assert_eq!(
        Err(Error::ExpectedString),
        Deserializer::from_str("99999999999999999999999999999999a").parse_string()
    );
    assert_eq!(
        Err(Error::ExpectedString),
        Deserializer::from_str("1:é").parse_string()
    );
    assert_eq!(
        Err(Error::ExpectedString),
        Deserializer::from_str("3:éé").parse_string()
    );
}

#[test]
fn characters() {
    assert_eq!(Ok('a'), Deserializer::from_str("1:a").deserialize_char());
    assert_eq!(Ok(':'), Deserializer::from_str("1::").deserialize_char());
    assert_eq!(
        Err(Error::Syntax),
        Deserializer::from_str("2:ab").deserialize_char()
    );
    assert_eq!(
        Err(Error::Syntax),
        Deserializer::from_str("0:").deserialize_char()
    );
    assert_eq!(
        Err(Error::Syntax),
        Deserializer::from_str("2:é").deserialize_char()
    );
    assert_eq!(
        Err(Error::ExpectedString),
        Deserializer::from_str("a").deserialize_char()
    );
}

#[test]
fn null_and_option() {
    assert_eq!(Ok(Value::Null), from_str("N"));
    assert_eq!(Ok(()), Deserializer::from_str("N").deserialize_unit());
    assert_eq!(Ok(()), Deserializer::from_str("N").deserialize_unit_struct());
    assert_eq!(
        Err(Error::ExpectedNull),
        Deserializer::from_str("i1e").deserialize_unit()
    );
    assert_eq!(
        Err(Error::ExpectedNull),
        Deserializer::from_str("").deserialize_unit()
    );
    assert_eq!(Ok(None), Deserializer::from_str("N").deserialize_option());
    let mut de = Deserializer::from_str("NxN");
    assert!(de.take_null());
    assert!(!de.take_null());
    assert_eq!(Ok('x'), de.next_char());
    assert!(de.take_null());
    assert!(!de.take_null());
    assert_eq!(Ok(()), de.end());
    assert_eq!(
        Ok(Some(Value::Unsigned(3))),
        Deserializer::from_str("i3e").deserialize_option()
    );
    assert_eq!(Err(Error::Eof), Deserializer::from_str("").deserialize_option());
}

#[test]
fn dispatch_on_the_first_character() {
    assert_eq!(Ok(Kind::Null), Deserializer::from_str("N").peek_kind());
    assert_eq!(Ok(Kind::String), Deserializer::from_str("0:").peek_kind());
    assert_eq!(Ok(Kind::String), Deserializer::from_str("9").peek_kind());
    assert_eq!(Ok(Kind::Signed), Deserializer::from_str("i-1e").peek_kind());
    assert_eq!(Ok(Kind::Unsigned), Deserializer::from_str("i1e").peek_kind());
    assert_eq!(Ok(Kind::List), Deserializer::from_str("le").peek_kind());
    assert_eq!(Ok(Kind::Dictionary), Deserializer::from_str("de").peek_kind());
    assert_eq!(Err(Error::Eof), Deserializer::from_str("").peek_kind());
    assert_eq!(Err(Error::Eof), Deserializer::from_str("i").peek_kind());
    assert_eq!(Err(Error::Syntax), Deserializer::from_str("ie").peek_kind());
    assert_eq!(Err(Error::Syntax), Deserializer::from_str("e").peek_kind());
    assert_eq!(Err(Error::Syntax), Deserializer::from_str("x").peek_kind());
    assert_eq!(Err(Error::Syntax), Deserializer::from_str("é").peek_kind());
    assert_eq!(Err(Error::Syntax), from_str("ie"));
    assert_eq!(Err(Error::Syntax), from_str("?"));
    assert_eq!(Ok(Value::Signed(-5)), from_str("i-5e"));
    assert_eq!(Ok(Value::Signed(0)), from_str("i-0e"));
    assert_eq!(Ok(Value::Unsigned(5)), from_str("i5e"));
}

#[test]
fn dispatch_and_typed_reading_agree() {
    let mut any = Deserializer::from_str("i42e5:hello");
    let mut typed = Deserializer::from_str("i42e5:hello");
    assert_eq!(Ok(Value::Unsigned(42)), any.deserialize_any());
    assert_eq!(Ok(42), typed.parse_unsigned());
    assert_eq!(Ok(Value::Str("hello")), any.deserialize_any());
    assert_eq!(Ok("hello"), typed.parse_string());
    assert_eq!(Ok(()), any.end());
    assert_eq!(Ok(()), typed.end());

    let mut any = Deserializer::from_str("TFi-7eNli1ee");
    let mut typed = Deserializer::from_str("TFi-7eNli1ee");
    assert_eq!(Ok(Value::Bool(true)), any.deserialize_any());
    assert_eq!(Ok(true), typed.deserialize_bool());
    assert_eq!(Ok(Value::Bool(false)), any.deserialize_any());
    assert_eq!(Ok(false), typed.parse_bool());
    assert_eq!(Ok(Value::Signed(-7)), any.deserialize_any());
    assert_eq!(Ok(-7), typed.parse_signed());
    assert_eq!(Ok(Value::Null), any.deserialize_any());
    assert_eq!(Ok(()), typed.deserialize_unit());
    assert_eq!(
        Ok(Value::List(vec![Value::Unsigned(1)])),
        any.deserialize_newtype_struct()
    );
    assert_eq!(Ok(vec![Value::Unsigned(1)]), typed.deserialize_seq());
}

#[test]
fn lists() {
    assert_eq!(Ok(Value::List(vec![])), from_str("le"));
    assert_eq!(
        Ok(Value::List(vec![
            Value::Unsigned(1),
            Value::Unsigned(2),
            Value::Unsigned(3)
        ])),
        from_str("li1ei2ei3ee")
    );
    assert_eq!(
        Ok(Value::List(vec![
            Value::List(vec![]),
            Value::List(vec![Value::Null])
        ])),
        from_str("llelNee")
    );
    assert_eq!(
        Ok(vec![Value::Str("a")]),
        Deserializer::from_str("l1:ae").deserialize_tuple()
    );
    assert_eq!(
        Ok(vec![Value::Str("a")]),
        Deserializer::from_str("l1:ae").deserialize_tuple_struct()
    );
    assert_eq!(
        Err(Error::ExpectedList),
        Deserializer::from_str("de").deserialize_seq()
    );
    assert_eq!(Err(Error::ExpectedListEnd), from_str("lN"));
    assert_eq!(Err(Error::Syntax), from_str("lxe"));
    assert_eq!(Err(Error::ExpectedInteger), from_str("li1"));
    let mut de = Deserializer::from_str("li1ei2ee");
    assert_eq!(Ok(()), de.open_list());
    assert_eq!(Ok(1), de.deserialize_u8());
    assert_eq!(Err(Error::ExpectedListEnd), de.close_list());
}

#[test]
fn list_items_one_by_one() {
    let mut de = Deserializer::from_str("l1:aNe");
    assert_eq!(Ok(()), de.open_list());
    assert_eq!(Ok(Some(Value::Str("a"))), de.next_element());
    assert_eq!(Ok(Some(Value::Null)), de.next_element());
    assert_eq!(Ok(None), de.next_element());
    assert_eq!(Ok(false), de.more_items());
    assert_eq!(Ok(()), de.close_list());
    assert_eq!(Ok(()), de.end());
}

#[test]
fn dictionaries() {
    assert_eq!(Ok(Value::Dict(vec![])), from_str("de"));
    assert_eq!(
        Ok(Value::Dict(vec![
            (Value::Str("b"), Value::Unsigned(1)),
            (Value::Str("a"), Value::Unsigned(2))
        ])),
        from_str("d1:bi1e1:ai2ee")
    );
    assert_eq!(
        Ok(Value::Dict(vec![(Value::Unsigned(1), Value::List(vec![]))])),
        from_str("di1elee")
    );
    assert_eq!(
        Ok(vec![(Value::Str("a"), Value::Null)]),
        Deserializer::from_str("d1:aNe").deserialize_struct()
    );
    assert_eq!(
        Err(Error::ExpectedDictionary),
        Deserializer::from_str("le").deserialize_map()
    );
    assert_eq!(Err(Error::ExpectedDictionaryEnd), from_str("d"));
    assert_eq!(Err(Error::ExpectedDictionaryEnd), from_str("d1:ai1e"));
    assert_eq!(Err(Error::Eof), from_str("d1:a"));
    assert_eq!(Err(Error::Syntax), from_str("d1:ae"));
    let mut de = Deserializer::from_str("d1:ai1ex");
    assert_eq!(Ok(()), de.open_dictionary());
    assert_eq!(Ok(true), de.more_pairs());
    assert_eq!(Ok(Some(Value::Str("a"))), de.next_key());
    assert_eq!(Ok(Value::Unsigned(1)), de.next_value());
    assert_eq!(Err(Error::ExpectedDictionaryEnd), de.close_dictionary());
    assert_eq!(
        Err(Error::ExpectedDictionaryEnd),
        Deserializer::from_str("").more_pairs()
    );
    let mut de = Deserializer::from_str("de");
    assert_eq!(Ok(()), de.open_dictionary());
    assert_eq!(Ok(None), de.next_key());
    assert_eq!(Ok(()), de.close_dictionary());
}

#[test]
fn enum_variants_are_read() {
    assert_eq!(
        Ok(("Newtype", Value::Unsigned(1))),
        Deserializer::from_str("d7:Newtypei1ee").deserialize_enum(Variant::Newtype)
    );
    assert_eq!(
        Ok((
            "Tuple",
            Value::List(vec![Value::Unsigned(1), Value::Unsigned(2)])
        )),
        Deserializer::from_str("d5:Tupleli1ei2eee").deserialize_enum(Variant::Tuple)
    );
    assert_eq!(
        Ok((
            "Struct",
            Value::Dict(vec![(Value::Str("a"), Value::Unsigned(1))])
        )),
        Deserializer::from_str("d6:Structd1:ai1eee").deserialize_enum(Variant::Struct)
    );
    assert_eq!(
        Err(Error::ExpectedString),
        Deserializer::from_str("d4:Unite").deserialize_enum(Variant::Unit)
    );
    assert_eq!(
        Err(Error::ExpectedDictionaryEnd),
        Deserializer::from_str("d7:Newtypei1e").deserialize_enum(Variant::Newtype)
    );
    assert_eq!(
        Err(Error::ExpectedDictionaryEnd),
        Deserializer::from_str("d7:Newtypei1ei2ee").deserialize_enum(Variant::Newtype)
    );
    assert_eq!(
        Err(Error::ExpectedList),
        Deserializer::from_str("d5:Tuplei1ee").deserialize_enum(Variant::Tuple)
    );
    assert_eq!(
        Err(Error::ExpectedDictionary),
        Deserializer::from_str("d6:Structlee").deserialize_enum(Variant::Struct)
    );
    assert_eq!(
        Err(Error::ExpectedString),
        Deserializer::from_str("di1ei1ee").deserialize_enum(Variant::Newtype)
    );
    assert_eq!(
        Err(Error::Eof),
        Deserializer::from_str("").deserialize_enum(Variant::Newtype)
    );
    let mut de = Deserializer::from_str("d1:VNe");
    assert_eq!(Ok(()), de.open_dictionary());
    assert_eq!(Ok("V"), de.variant());
    assert_eq!(Err(Error::ExpectedString), de.unit_variant());
    assert_eq!(Ok(Value::Null), de.newtype_variant());
    assert_eq!(Ok(()), de.close_dictionary());
    assert_eq!(
        Ok(Value::List(vec![])),
        Deserializer::from_str("le").tuple_variant()
    );
    assert_eq!(
        Ok(Value::Dict(vec![])),
        Deserializer::from_str("de").struct_variant()
    );
}

#[test]
fn ignored_values_are_read_over() {
    let mut de = Deserializer::from_str("ld1:ai1eeei7e");
    assert_eq!(Ok(()), de.deserialize_ignored_any());
    assert_eq!(Ok(7), de.parse_unsigned());
    assert_eq!(Ok(()), de.end());
    assert_eq!(
        Err(Error::Syntax),
        Deserializer::from_str("x").deserialize_ignored_any()
    );
}
