use onecode::ser::{to_string, Serializer};
use onecode::value::Value;

fn field(serializer: &mut Serializer, name: &str) {
    serializer.serialize_str(name).unwrap();
}

// Transforms struct into
/*
    d
    7:booleanT
    16:positive_integeri1e
    16:negative_integeri-1e
    14:positive_floati1.5e
    14:negative_floati-1.5e
    20:negative_float_commai-1.5e
    12:empty_string0:
    13:number_string3:0.1
    12:latin_string11:hello world
    15:cyrillic_string19:привет мир
    12:japan_string21:こんにちは世界
    11:number_listli1ei2ei3ee
    11:string_listl1:12:013:011e
    17:number_dictionaryd1:1i1ee
    17:string_dictionaryd1:11:1e
    15:list_dictionaryd1:1li1ei2ei3eee
    4:nullN
    e
*/
#[test]
fn it_works() {
    let positive_float: f32 = 1.5;
    let negative_float: f32 = -1.5;
    let negative_float_comma: f32 = -1.5;
    let number_list = Value::List(vec![
        Value::Unsigned(1),
        Value::Unsigned(2),
        Value::Unsigned(3),
    ]);
    let string_list = Value::List(vec![Value::Str("1"), Value::Str("01"), Value::Str("011")]);
    let number_dictionary = Value::Dict(vec![(Value::Str("1"), Value::Unsigned(1))]);
    let string_dictionary = Value::Dict(vec![(Value::Str("1"), Value::Str("1"))]);
    let list_dictionary = Value::Dict(vec![(
        Value::Str("1"),
        Value::List(vec![
            Value::Unsigned(1),
            Value::Unsigned(2),
            Value::Unsigned(3),
        ]),
    )]);

    let mut serializer = Serializer::new();
    serializer.serialize_struct().unwrap();
    field(&mut serializer, "boolean");
    serializer.serialize_bool(true).unwrap();
    field(&mut serializer, "positive_integer");
    serializer.serialize_u8(1).unwrap();
    field(&mut serializer, "negative_integer");
    serializer.serialize_i16(-1).unwrap();
    field(&mut serializer, "positive_float");
    serializer
        .serialize_number(&f64::from(positive_float).to_string())
        .unwrap();
    field(&mut serializer, "negative_float");
    serializer
        .serialize_number(&f64::from(negative_float).to_string())
        .unwrap();
    field(&mut serializer, "negative_float_comma");
    serializer
        .serialize_number(&f64::from(negative_float_comma).to_string())
        .unwrap();
    field(&mut serializer, "empty_string");
    serializer.serialize_str("").unwrap();
    field(&mut serializer, "number_string");
    serializer.serialize_str("0.1").unwrap();
    field(&mut serializer, "latin_string");
    serializer.serialize_str("hello world").unwrap();
    field(&mut serializer, "cyrillic_string");
    serializer.serialize_str("привет мир").unwrap();
    field(&mut serializer, "japan_string");
    serializer.serialize_str("こんにちは世界").unwrap();
    serializer.serialize_field("number_list", &number_list).unwrap();
    serializer.serialize_field("string_list", &string_list).unwrap();
    serializer
        .serialize_field("number_dictionary", &number_dictionary)
        .unwrap();
    serializer
        .serialize_field("string_dictionary", &string_dictionary)
        .unwrap();
    serializer
        .serialize_field("list_dictionary", &list_dictionary)
        .unwrap();
    field(&mut serializer, "null");
    serializer.serialize_none().unwrap();
    serializer.end().unwrap();

    let expected_result = "d7:booleanT16:positive_integeri1e16:negative_integeri-1e14:positive_floati1.5e14:negative_floati-1.5e20:negative_float_commai-1.5e12:empty_string0:13:number_string3:0.112:latin_string11:hello world15:cyrillic_string19:привет мир12:japan_string21:こんにちは世界11:number_listli1ei2ei3ee11:string_listl1:12:013:011e17:number_dictionaryd1:1i1ee17:string_dictionaryd1:11:1e15:list_dictionaryd1:1li1ei2ei3eee4:nullNe";
    assert_eq!(serializer.into_string(), expected_result);
}

#[test]
fn new_serializer_is_empty() {
    assert_eq!("", Serializer::new().into_string());
}

#[test]
fn string_length_is_in_bytes() {
    assert_eq!("5:hello", to_string(&Value::Str("hello")).unwrap());
    assert_eq!("0:", to_string(&Value::Str("")).unwrap());
    assert_eq!("4:éé", to_string(&Value::Str("éé")).unwrap());
    assert_eq!("3:h h", to_string(&Value::Str("h h")).unwrap());
    assert_eq!("21:こんにちは世界", to_string(&Value::Str("こんにちは世界")).unwrap());
    assert_eq!("3::ie", to_string(&Value::Str(":ie")).unwrap());
}

#[test]
fn integer_token_shape() {
    assert_eq!("i0e", to_string(&Value::Unsigned(0)).unwrap());
    assert_eq!("i42e", to_string(&Value::Unsigned(42)).unwrap());
    assert_eq!("i-1e", to_string(&Value::Signed(-1)).unwrap());
    assert_eq!("i0e", to_string(&Value::Signed(0)).unwrap());
    assert_eq!("i10e", to_string(&Value::Signed(10)).unwrap());
    assert_eq!("i1000e", to_string(&Value::Unsigned(1000)).unwrap());
    assert_eq!(
        "i18446744073709551615e",
        to_string(&Value::Unsigned(u64::MAX)).unwrap()
    );
    assert_eq!(
        "i-9223372036854775808e",
        to_string(&Value::Signed(i64::MIN)).unwrap()
    );
    assert_eq!(
        "i9223372036854775807e",
        to_string(&Value::Signed(i64::MAX)).unwrap()
    );
}

#[test]
fn integers_of_each_width_are_written_alike() {
    let mut serializer = Serializer::new();
    serializer.serialize_u8(255).unwrap();
    serializer.serialize_u16(65535).unwrap();
    serializer.serialize_u32(4294967295).unwrap();
    serializer.serialize_u64(7).unwrap();
    serializer.serialize_i8(-128).unwrap();
    serializer.serialize_i16(-32768).unwrap();
    serializer.serialize_i32(-2147483648).unwrap();
    serializer.serialize_i64(-7).unwrap();
    assert_eq!(
        "i255ei65535ei4294967295ei7ei-128ei-32768ei-2147483648ei-7e",
        serializer.into_string()
    );
}

#[test]
fn booleans_and_null() {
    assert_eq!("T", to_string(&Value::Bool(true)).unwrap());
    assert_eq!("F", to_string(&Value::Bool(false)).unwrap());
    assert_eq!("N", to_string(&Value::Null).unwrap());
    let mut serializer = Serializer::new();
    serializer.serialize_unit().unwrap();
    serializer.serialize_none().unwrap();
    serializer.serialize_unit_struct().unwrap();
    serializer.serialize_some(&Value::Bool(true)).unwrap();
    serializer
        .serialize_newtype_struct(&Value::Unsigned(3))
        .unwrap();
    assert_eq!("NNNTi3e", serializer.into_string());
}

#[test]
fn characters_are_strings() {
    let mut serializer = Serializer::new();
    serializer.serialize_char('a').unwrap();
    serializer.serialize_char('é').unwrap();
    serializer.serialize_char('世').unwrap();
    serializer.serialize_char(':').unwrap();
    assert_eq!("1:a2:é3:世1::", serializer.into_string());
}

#[test]
fn number_text_is_written_as_it_stands() {
    let mut serializer = Serializer::new();
    serializer.serialize_number("1.5").unwrap();
    serializer.serialize_number("-0.25").unwrap();
    serializer.serialize_number(&0.1f64.to_string()).unwrap();
    assert_eq!("i1.5ei-0.25ei0.1e", serializer.into_string());
}

#[test]
fn bytes_are_a_list_of_integers() {
    let mut serializer = Serializer::new();
    serializer.serialize_bytes(&[1, 2, 3]).unwrap();
    serializer.serialize_bytes(&[]).unwrap();
    serializer.serialize_bytes(&[255]).unwrap();
    assert_eq!("li1ei2ei3eeleli255ee", serializer.into_string());
}

#[test]
fn lists_and_dictionaries() {
    assert_eq!("le", to_string(&Value::List(vec![])).unwrap());
    assert_eq!("de", to_string(&Value::Dict(vec![])).unwrap());
    assert_eq!(
        "l1:a1:be",
        to_string(&Value::List(vec![Value::Str("a"), Value::Str("b")])).unwrap()
    );
    assert_eq!(
        "d3:str3:stre",
        to_string(&Value::Dict(vec![(Value::Str("str"), Value::Str("str"))])).unwrap()
    );
    assert_eq!(
        "d1:bi1e1:ai2ee",
        to_string(&Value::Dict(vec![
            (Value::Str("b"), Value::Unsigned(1)),
            (Value::Str("a"), Value::Unsigned(2))
        ]))
        .unwrap()
    );
    assert_eq!(
        "llelNed1:kleee",
        to_string(&Value::List(vec![
            Value::List(vec![]),
            Value::List(vec![Value::Null]),
            Value::Dict(vec![(Value::Str("k"), Value::List(vec![]))])
        ]))
        .unwrap()
    );
}

#[test]
fn containers_piece_by_piece() {
    let mut serializer = Serializer::new();
    serializer.serialize_seq().unwrap();
    serializer.serialize_element(&Value::Unsigned(1)).unwrap();
    serializer.serialize_tuple().unwrap();
    serializer.serialize_element(&Value::Str("x")).unwrap();
    serializer.end().unwrap();
    serializer.serialize_tuple_struct().unwrap();
    serializer.end().unwrap();
    serializer.serialize_map().unwrap();
    serializer.serialize_key(&Value::Str("k")).unwrap();
    serializer.serialize_value(&Value::Null).unwrap();
    serializer.end().unwrap();
    serializer.end().unwrap();
    assert_eq!("li1el1:xeled1:kNee", serializer.into_string());
}

#[test]
fn enum_variants_are_written() {
    let mut serializer = Serializer::new();
    serializer.serialize_unit_variant("Unit").unwrap();
    assert_eq!("4:Unit", serializer.into_string());

    let mut serializer = Serializer::new();
    serializer
        .serialize_newtype_variant("Newtype", &Value::Unsigned(1))
        .unwrap();
    assert_eq!("d7:Newtypei1ee", serializer.into_string());

    let mut serializer = Serializer::new();
    serializer.serialize_tuple_variant("Tuple").unwrap();
    serializer.serialize_element(&Value::Unsigned(1)).unwrap();
    serializer.serialize_element(&Value::Unsigned(2)).unwrap();
    serializer.end_variant().unwrap();
    assert_eq!("d5:Tupleli1ei2eee", serializer.into_string());

    let mut serializer = Serializer::new();
    serializer.serialize_struct_variant("Struct").unwrap();
    serializer.serialize_field("a", &Value::Unsigned(1)).unwrap();
    serializer.end_variant().unwrap();
    assert_eq!("d6:Structd1:ai1eee", serializer.into_string());
}
