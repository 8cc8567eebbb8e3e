use easy_xml::de;
use easy_xml::de::DeError;
use easy_xml::schema::NumberKind;
use easy_xml::schema::SchemaDescriptor;
use easy_xml::schema::TypeDescriptor;
use easy_xml::tree::XmlElement;
use easy_xml::tree::XmlNode;
use easy_xml::value::Value;

fn scalar_kinds() -> Vec<NumberKind> {
    vec![
        NumberKind::U8,
        NumberKind::U16,
        NumberKind::U32,
        NumberKind::U64,
        NumberKind::U128,
        NumberKind::Usize,
        NumberKind::I8,
        NumberKind::I16,
        NumberKind::I32,
        NumberKind::I64,
        NumberKind::I128,
        NumberKind::Isize,
    ]
}

fn scalar_written(value: &Value, schema: &SchemaDescriptor, ty: usize) -> String {
    let mut text = XmlElement::Text(String::new());
    value.serialize(schema, ty, &mut text);
    match text {
        XmlElement::Text(s) => s,
        _ => panic!("not a text"),
    }
}

#[test]
fn number_is_trimmed_before_it_is_parsed() {
    assert_eq!(de::number_from_str(NumberKind::U8, "  18\n"), Ok(Value::Unsigned(18)));
    assert_eq!(de::number_from_str(NumberKind::I8, "\t-18 "), Ok(Value::Signed(-18)));
    assert_eq!(de::number_from_str(NumberKind::U8, "\u{3000}7\u{a0}"), Ok(Value::Unsigned(7)));
    assert_eq!(
        de::number_from_str(NumberKind::U8, "1 8"),
        Err(DeError::TypeConversionError("1 8".to_string()))
    );
}

#[test]
fn number_signs_and_digits() {
    assert_eq!(de::number_from_str(NumberKind::U8, "+5"), Ok(Value::Unsigned(5)));
    assert_eq!(de::number_from_str(NumberKind::U8, "005"), Ok(Value::Unsigned(5)));
    assert_eq!(de::number_from_str(NumberKind::I8, "+5"), Ok(Value::Signed(5)));
    assert_eq!(de::number_from_str(NumberKind::I8, "-0"), Ok(Value::Signed(0)));
    for text in ["", "+", "-", "-0", "5.0", "1e3", "0x10", "1_000", "٣"] {
        assert_eq!(
            de::number_from_str(NumberKind::U64, text),
            Err(DeError::TypeConversionError(text.to_string())),
            "{:?}",
            text
        );
    }
    for text in ["", "+", "-", "--1", "+-1", "5.0"] {
        assert_eq!(
            de::number_from_str(NumberKind::I64, text),
            Err(DeError::TypeConversionError(text.to_string())),
            "{:?}",
            text
        );
    }
}

#[test]
fn number_bounds_of_each_type() {
    let bounds: Vec<(NumberKind, i128, u128)> = vec![
        (NumberKind::U8, 0, u8::MAX as u128),
        (NumberKind::U16, 0, u16::MAX as u128),
        (NumberKind::U32, 0, u32::MAX as u128),
        (NumberKind::U64, 0, u64::MAX as u128),
        (NumberKind::Usize, 0, usize::MAX as u128),
        (NumberKind::I8, i8::MIN as i128, i8::MAX as u128),
        (NumberKind::I16, i16::MIN as i128, i16::MAX as u128),
        (NumberKind::I32, i32::MIN as i128, i32::MAX as u128),
        (NumberKind::I64, i64::MIN as i128, i64::MAX as u128),
        (NumberKind::Isize, isize::MIN as i128, isize::MAX as u128),
    ];
    for (kind, min, max) in bounds {
        let signed = kind.signed();
        assert_eq!(signed, min < 0);
        let value = |n: u128| if signed { Value::Signed(n as i128) } else { Value::Unsigned(n) };
        assert_eq!(de::number_from_str(kind, &max.to_string()), Ok(value(max)));
        assert!(de::number_from_str(kind, &(max + 1).to_string()).is_err());
        if signed {
            assert_eq!(de::number_from_str(kind, &min.to_string()), Ok(Value::Signed(min)));
            assert!(de::number_from_str(kind, &(min - 1).to_string()).is_err());
            assert!(kind.holds_signed(min) && !kind.holds_signed(min - 1));
            assert!(!kind.holds_unsigned(0));
        } else {
            assert!(de::number_from_str(kind, "-1").is_err());
            assert!(kind.holds_unsigned(max) && !kind.holds_unsigned(max + 1));
            assert!(!kind.holds_signed(0));
        }
    }
    assert_eq!(de::number_from_str(NumberKind::U128, &u128::MAX.to_string()), Ok(Value::Unsigned(u128::MAX)));
    assert!(de::number_from_str(NumberKind::U128, "340282366920938463463374607431768211456").is_err());
    assert_eq!(de::number_from_str(NumberKind::I128, &i128::MIN.to_string()), Ok(Value::Signed(i128::MIN)));
    assert_eq!(de::number_from_str(NumberKind::I128, &i128::MAX.to_string()), Ok(Value::Signed(i128::MAX)));
    assert!(de::number_from_str(NumberKind::I128, "170141183460469231731687303715884105728").is_err());
}

#[test]
fn number_is_written_in_decimal() {
    let schema = SchemaDescriptor::new(scalar_kinds().into_iter().map(TypeDescriptor::Number).collect()).unwrap();
    assert_eq!(scalar_written(&Value::Unsigned(0), &schema, 0), "0");
    assert_eq!(scalar_written(&Value::Unsigned(18), &schema, 5), "18");
    assert_eq!(scalar_written(&Value::Unsigned(u128::MAX), &schema, 4), "340282366920938463463374607431768211455");
    assert_eq!(scalar_written(&Value::Signed(-12), &schema, 6), "-12");
    assert_eq!(scalar_written(&Value::Signed(i128::MIN), &schema, 10), "-170141183460469231731687303715884105728");
    assert_eq!(scalar_written(&Value::Signed(7), &schema, 11), "7");
}

#[test]
fn number_comes_back_from_its_text() {
    let schema = SchemaDescriptor::new(scalar_kinds().into_iter().map(TypeDescriptor::Number).collect()).unwrap();
    for (ty, value) in [
        (0, Value::Unsigned(255)),
        (3, Value::Unsigned(u64::MAX as u128)),
        (6, Value::Signed(-128)),
        (9, Value::Signed(i64::MIN as i128)),
    ] {
        let mut node = XmlElement::Node(XmlNode::empty());
        value.serialize(&schema, ty, &mut node);
        assert_eq!(Value::deserialize(&node, &schema, ty), Ok(value));
    }
}

#[test]
fn string_is_not_trimmed() {
    let schema = SchemaDescriptor::new(vec![TypeDescriptor::Text]).unwrap();
    assert_eq!(
        Value::deserialize(&XmlElement::Text("  a b  ".to_string()), &schema, 0),
        Ok(Value::Text("  a b  ".to_string()))
    );
    assert_eq!(de::from_str("<s> a <!-- c -->b </s>", &schema, 0), Ok(Value::Text(" a b ".to_string())));
}

#[test]
fn value_of_another_type_writes_nothing() {
    let schema = SchemaDescriptor::new(vec![TypeDescriptor::Text, TypeDescriptor::Number(NumberKind::U8)]).unwrap();
    assert_eq!(scalar_written(&Value::Unsigned(1), &schema, 0), "");
    assert_eq!(scalar_written(&Value::Text("a".to_string()), &schema, 1), "");
    assert_eq!(scalar_written(&Value::Struct(Vec::new()), &schema, 0), "");
    assert_eq!(scalar_written(&Value::Text("a".to_string()), &schema, 2), "");
}

#[test]
fn text_grows_and_node_gains_a_child() {
    let schema = SchemaDescriptor::new(vec![TypeDescriptor::Text]).unwrap();
    let value = Value::Text("b".to_string());
    let mut text = XmlElement::Text("a".to_string());
    value.serialize(&schema, 0, &mut text);
    value.serialize(&schema, 0, &mut text);
    match &text {
        XmlElement::Text(s) => assert_eq!(s, "abb"),
        _ => panic!("not a text"),
    }
    let mut node = XmlElement::Node(XmlNode::empty());
    value.serialize(&schema, 0, &mut node);
    value.serialize(&schema, 0, &mut node);
    match &node {
        XmlElement::Node(n) => {
            assert_eq!(n.elements.len(), 2);
            let mut s = String::new();
            n.text(&mut s);
            assert_eq!(s, "bb");
        }
        _ => panic!("not a node"),
    }
    let mut comment = XmlElement::Comment("c".to_string());
    value.serialize(&schema, 0, &mut comment);
    match &comment {
        XmlElement::Comment(s) => assert_eq!(s, "c"),
        _ => panic!("not a comment"),
    }
}
