use onecode::de::{from_str, Deserializer};
use onecode::error::Error;
use onecode::ser::{to_string, Serializer};
use onecode::value::{Value, Variant};

fn comes_back(value: Value) {
    let text = to_string(&value).unwrap();
    assert_eq!(Ok(value), from_str(&text));
}

#[test]
fn values_come_back_from_their_text() {
    comes_back(Value::Null);
    comes_back(Value::Bool(true));
    comes_back(Value::Bool(false));
    comes_back(Value::List(vec![Value::Bool(true), Value::Bool(false)]));
    comes_back(Value::Dict(vec![(Value::Bool(false), Value::Bool(true))]));
    comes_back(Value::Unsigned(0));
    comes_back(Value::Unsigned(42));
    comes_back(Value::Unsigned(u64::MAX));
    comes_back(Value::Signed(-1));
    comes_back(Value::Signed(i64::MIN));
    comes_back(Value::Str(""));
    comes_back(Value::Str("hello"));
    comes_back(Value::Str("привет мир"));
    comes_back(Value::Str("こんにちは世界"));
    comes_back(Value::Str("i1e:le"));
    comes_back(Value::List(vec![]));
    comes_back(Value::List(vec![Value::Str("a"), Value::Str("b")]));
    comes_back(Value::Dict(vec![]));
    comes_back(Value::Dict(vec![
        (Value::Str("int"), Value::Unsigned(1)),
        (
            Value::Str("seq"),
            Value::List(vec![Value::Str("a"), Value::Signed(-3), Value::Null]),
        ),
        (
            Value::Unsigned(7),
            Value::Dict(vec![(Value::Str("é"), Value::List(vec![]))]),
        ),
    ]));
}

#[test]
fn typed_values_come_back_from_their_text() {
    let mut serializer = Serializer::new();
    serializer.serialize_bool(true).unwrap();
    serializer.serialize_bool(false).unwrap();
    serializer.serialize_i64(5).unwrap();
    serializer.serialize_i64(i64::MIN).unwrap();
    serializer.serialize_i8(-128).unwrap();
    serializer.serialize_u64(u64::MAX).unwrap();
    serializer.serialize_u16(9).unwrap();
    serializer.serialize_str("día").unwrap();
    serializer.serialize_char('x').unwrap();
    serializer.serialize_unit().unwrap();
    let text = serializer.into_string();
    let mut de = Deserializer::from_str(&text);
    assert_eq!(Ok(true), de.deserialize_bool());
    assert_eq!(Ok(false), de.deserialize_bool());
    assert_eq!(Ok(5), de.deserialize_i64());
    assert_eq!(Ok(i64::MIN), de.deserialize_i64());
    assert_eq!(Ok(-128), de.deserialize_i8());
    assert_eq!(Ok(u64::MAX), de.deserialize_u64());
    assert_eq!(Ok(9), de.deserialize_u16());
    assert_eq!(Ok("día"), de.deserialize_str());
    assert_eq!(Ok('x'), de.deserialize_char());
    assert_eq!(Ok(()), de.deserialize_unit());
    assert_eq!(Ok(()), de.end());
}

#[test]
fn values_that_do_not_come_back() {
    assert_eq!(
        Ok(Value::Unsigned(5)),
        from_str(&to_string(&Value::Signed(5)).unwrap())
    );
    assert_eq!(
        Ok(Value::Unsigned(0)),
        from_str(&to_string(&Value::Signed(0)).unwrap())
    );
    assert_eq!(
        Ok(Value::List(vec![Value::Unsigned(7)])),
        from_str(&to_string(&Value::List(vec![Value::Signed(7)])).unwrap())
    );
    let mut serializer = Serializer::new();
    serializer.serialize_char('é').unwrap();
    let text = serializer.into_string();
    assert_eq!(
        Err(Error::Syntax),
        Deserializer::from_str(&text).deserialize_char()
    );
}

#[test]
fn unit_variant_is_written_and_not_read() {
    let mut serializer = Serializer::new();
    serializer.serialize_unit_variant("Unit").unwrap();
    let text = serializer.into_string();
    assert_eq!("4:Unit", text);
    assert_eq!(
        Err(Error::ExpectedDictionary),
        Deserializer::from_str(&text).deserialize_enum(Variant::Unit)
    );
    assert_eq!(
        Err(Error::ExpectedDictionary),
        Deserializer::from_str(&text).deserialize_enum(Variant::Newtype)
    );
    assert_eq!(
        Err(Error::ExpectedDictionary),
        Deserializer::from_str(&text).deserialize_enum(Variant::Tuple)
    );
    assert_eq!(
        Err(Error::ExpectedDictionary),
        Deserializer::from_str(&text).deserialize_enum(Variant::Struct)
    );
}

#[test]
fn other_variants_come_back() {
    let mut serializer = Serializer::new();
    serializer
        .serialize_newtype_variant("Newtype", &Value::Unsigned(1))
        .unwrap();
    serializer.serialize_tuple_variant("Tuple").unwrap();
    serializer.serialize_element(&Value::Unsigned(1)).unwrap();
    serializer.serialize_element(&Value::Unsigned(2)).unwrap();
    serializer.end_variant().unwrap();
    serializer.serialize_struct_variant("Struct").unwrap();
    serializer.serialize_field("a", &Value::Unsigned(1)).unwrap();
    serializer.end_variant().unwrap();
    let text = serializer.into_string();
    let mut de = Deserializer::from_str(&text);
    assert_eq!(
        Ok(("Newtype", Value::Unsigned(1))),
        de.deserialize_enum(Variant::Newtype)
    );
    assert_eq!(
        Ok((
            "Tuple",
            Value::List(vec![Value::Unsigned(1), Value::Unsigned(2)])
        )),
        de.deserialize_enum(Variant::Tuple)
    );
    assert_eq!(
        Ok((
            "Struct",
            Value::Dict(vec![(Value::Str("a"), Value::Unsigned(1))])
        )),
        de.deserialize_enum(Variant::Struct)
    );
    assert_eq!(Ok(()), de.end());
}

#[test]
fn typed_list_comes_back_item_by_item() {
    let written = vec![true, false, false, true];
    let mut serializer = Serializer::new();
    serializer.serialize_seq().unwrap();
    for item in &written {
        serializer.serialize_bool(*item).unwrap();
    }
    serializer.end().unwrap();
    let text = serializer.into_string();
    assert_eq!("lTFFTe", text);

    let mut de = Deserializer::from_str(&text);
    let mut read = Vec::new();
    de.open_list().unwrap();
    while de.more_items().unwrap() {
        read.push(de.deserialize_bool().unwrap());
    }
    de.close_list().unwrap();
    assert_eq!(Ok(()), de.end());
    assert_eq!(written, read);
}

#[test]
fn empty_typed_list_comes_back() {
    let mut serializer = Serializer::new();
    serializer.serialize_seq().unwrap();
    serializer.end().unwrap();
    let text = serializer.into_string();
    let mut de = Deserializer::from_str(&text);
    de.open_list().unwrap();
    assert_eq!(Ok(false), de.more_items());
    de.close_list().unwrap();
    assert_eq!(Ok(()), de.end());
}

#[test]
fn typed_list_of_lists_comes_back() {
    let written: Vec<Vec<i16>> = vec![vec![], vec![0, -1, 300], vec![7]];
    let mut serializer = Serializer::new();
    serializer.serialize_seq().unwrap();
    for row in &written {
        serializer.serialize_seq().unwrap();
        for item in row {
            serializer.serialize_i16(*item).unwrap();
        }
        serializer.end().unwrap();
    }
    serializer.end().unwrap();
    let text = serializer.into_string();
    assert_eq!("lleli0ei-1ei300eeli7eee", text);

    let mut de = Deserializer::from_str(&text);
    let mut read: Vec<Vec<i16>> = Vec::new();
    de.open_list().unwrap();
    while de.more_items().unwrap() {
        let mut row = Vec::new();
        de.open_list().unwrap();
        while de.more_items().unwrap() {
            row.push(de.deserialize_i16().unwrap());
        }
        de.close_list().unwrap();
        read.push(row);
    }
    de.close_list().unwrap();
    assert_eq!(Ok(()), de.end());
    assert_eq!(written, read);
}

#[test]
fn typed_dictionary_comes_back_pair_by_pair() {
    let written: Vec<(String, Vec<u8>)> = vec![
        ("b".to_string(), vec![1, 2]),
        ("día".to_string(), vec![]),
        ("a".to_string(), vec![255]),
    ];
    let mut serializer = Serializer::new();
    serializer.serialize_map().unwrap();
    for (key, value) in &written {
        serializer.serialize_str(key).unwrap();
        serializer.serialize_bytes(value).unwrap();
    }
    serializer.end().unwrap();
    let text = serializer.into_string();
    assert_eq!("d1:bli1ei2ee4:díale1:ali255eee", text);

    let mut de = Deserializer::from_str(&text);
    let mut read: Vec<(String, Vec<u8>)> = Vec::new();
    de.open_dictionary().unwrap();
    while de.more_pairs().unwrap() {
        let key = de.deserialize_string().unwrap();
        let mut value = Vec::new();
        de.open_list().unwrap();
        while de.more_items().unwrap() {
            value.push(de.deserialize_u8().unwrap());
        }
        de.close_list().unwrap();
        read.push((key, value));
    }
    de.close_dictionary().unwrap();
    assert_eq!(Ok(()), de.end());
    assert_eq!(written, read);
}
