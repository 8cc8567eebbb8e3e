use easy_xml::de;
use easy_xml::de::DeError;
use easy_xml::schema::Attributes;
use easy_xml::schema::EnumDescriptor;
use easy_xml::schema::Field;
use easy_xml::schema::InvalidShape;
use easy_xml::schema::NumberKind;
use easy_xml::schema::SchemaDescriptor;
use easy_xml::schema::StructDescriptor;
use easy_xml::schema::TypeDescriptor;
use easy_xml::schema::TypeWapper;
use easy_xml::schema::VariantDescriptor;
use easy_xml::schema::VariantKind;
use easy_xml::tree::XmlVersion;
use easy_xml::tree::XmlDocument;
use easy_xml::tree::XmlElement;
use easy_xml::value::FieldValue;
use easy_xml::value::Value;

fn errors_type(idents: &[&str]) -> TypeWapper {
    let mut ty: Option<TypeWapper> = None;
    for ident in idents.iter().rev() {
        ty = Some(TypeWapper::new(ident.to_string(), Vec::new(), ty));
    }
    ty.unwrap()
}

fn errors_rule(kind: &str) -> Attributes {
    let mut attrs = Attributes::plain();
    match kind {
        "attribute" => attrs.attribute = true,
        "text" => attrs.text = true,
        "flatten" => attrs.flatten = true,
        _ => {}
    }
    attrs
}

// 0: String, 1: u8, 2: i8, 3: Node { #[attribute] id: u8, name: String, #[attribute] delta: Option<i8> }
fn errors_schema() -> SchemaDescriptor {
    SchemaDescriptor::new(vec![
        TypeDescriptor::Text,
        TypeDescriptor::Number(NumberKind::U8),
        TypeDescriptor::Number(NumberKind::I8),
        TypeDescriptor::Struct(StructDescriptor {
            ident: "Node".to_string(),
            attrs: Attributes::plain(),
            fields: vec![
                Field::from_struct(Some("id".to_string()), errors_type(&["u8"]), errors_rule("attribute"), 1),
                Field::from_struct(Some("name".to_string()), errors_type(&["String"]), errors_rule(""), 0),
                Field::from_struct(Some("delta".to_string()), errors_type(&["Option", "i8"]), errors_rule("attribute"), 2),
            ],
        }),
        TypeDescriptor::Enum(EnumDescriptor {
            ident: "Kind".to_string(),
            variants: vec![
                VariantDescriptor {
                    ident: "A".to_string(),
                    attrs: Attributes::plain(),
                    kind: VariantKind::Unit,
                    fields: Vec::new(),
                },
                VariantDescriptor {
                    ident: "B".to_string(),
                    attrs: Attributes::plain(),
                    kind: VariantKind::Named,
                    fields: Vec::new(),
                },
            ],
        }),
    ])
    .unwrap()
}

#[test]
fn error_for_malformed_input() {
    let schema = errors_schema();
    assert_eq!(de::from_str("<Node", &schema, 3), Err(DeError::SyntaxError));
    assert_eq!(de::from_str("<Node></Other>", &schema, 3), Err(DeError::SyntaxError));
    assert_eq!(de::from_str("", &schema, 3), Err(DeError::SyntaxError));
    assert_eq!(de::from_bytes(b"<a><b></a>", &schema, 3), Err(DeError::SyntaxError));
}

#[test]
fn error_for_a_document_without_element() {
    let schema = errors_schema();
    let doc = XmlDocument {
        version: XmlVersion::Version10,
        encoding: "UTF-8".to_string(),
        standalone: None,
        elements: Vec::new(),
    };
    assert_eq!(de::bind_document(&doc, &schema, 3), Err(DeError::EmptyDocument));
}

#[test]
fn error_for_a_type_outside_the_schema() {
    let schema = errors_schema();
    assert_eq!(
        de::from_str("<Node/>", &schema, 5),
        Err(DeError::InvalidShape(InvalidShape::UnknownType))
    );
    assert_eq!(
        Value::deserialize(&XmlElement::Text("x".to_string()), &schema, 9),
        Err(DeError::InvalidShape(InvalidShape::UnknownType))
    );
}

#[test]
fn error_for_a_missing_attribute() {
    let schema = errors_schema();
    assert_eq!(
        de::from_str("<Node><name>n</name></Node>", &schema, 3),
        Err(DeError::MissingField("id".to_string()))
    );
}

#[test]
fn error_for_a_missing_child() {
    let schema = errors_schema();
    assert_eq!(
        de::from_str(r#"<Node id="1"/>"#, &schema, 3),
        Err(DeError::MissingField("name".to_string()))
    );
}

#[test]
fn error_names_the_first_missing_field() {
    let schema = errors_schema();
    assert_eq!(de::from_str("<Node/>", &schema, 3), Err(DeError::MissingField("id".to_string())));
}

#[test]
fn error_for_an_unknown_tag() {
    let schema = errors_schema();
    assert_eq!(de::from_str("<C/>", &schema, 4), Err(DeError::NoMatchingVariant));
}

#[test]
fn error_for_an_unknown_text() {
    let schema = errors_schema();
    let text = |s: &str| XmlElement::Text(s.to_string());
    assert_eq!(Value::deserialize(&text("C"), &schema, 4), Err(DeError::NoMatchingVariant));
    // only a variant without fields can be named by a text
    assert_eq!(Value::deserialize(&text("B"), &schema, 4), Err(DeError::NoMatchingVariant));
    assert_eq!(Value::deserialize(&text("A"), &schema, 4), Ok(Value::Variant(0, Vec::new())));
    assert_eq!(Value::deserialize(&text(" A"), &schema, 4), Err(DeError::NoMatchingVariant));
}

#[test]
fn error_for_a_text_that_is_no_number() {
    let schema = errors_schema();
    assert_eq!(
        de::from_str(r#"<Node id="x1"><name>n</name></Node>"#, &schema, 3),
        Err(DeError::TypeConversionError("x1".to_string()))
    );
    assert_eq!(
        de::from_str(r#"<Node id="256"><name>n</name></Node>"#, &schema, 3),
        Err(DeError::TypeConversionError("256".to_string()))
    );
    assert_eq!(
        de::from_str(r#"<Node id="-1"><name>n</name></Node>"#, &schema, 3),
        Err(DeError::TypeConversionError("-1".to_string()))
    );
    assert_eq!(
        de::from_str(r#"<Node id=" "><name>n</name></Node>"#, &schema, 3),
        Err(DeError::TypeConversionError("".to_string()))
    );
}

#[test]
fn error_of_an_optional_field_ends_the_bind_unless_marked() {
    let schema = errors_schema();
    assert_eq!(
        de::from_str(r#"<Node id="1" delta="big"><name>n</name></Node>"#, &schema, 3),
        Err(DeError::TypeConversionError("big".to_string()))
    );
    assert_eq!(
        de::from_str(r#"<Node id="1" delta="-129"><name>n</name></Node>"#, &schema, 3),
        Err(DeError::TypeConversionError("-129".to_string()))
    );
    assert_eq!(
        de::from_str(r#"<Node id="1" delta="-128"><name>n</name></Node>"#, &schema, 3),
        Ok(Value::Struct(vec![
            FieldValue::Required(Value::Unsigned(1)),
            FieldValue::Required(Value::Text("n".to_string())),
            FieldValue::Optional(Some(Value::Signed(-128))),
        ]))
    );
}

#[test]
fn error_for_an_element_that_cannot_be_bound() {
    let schema = errors_schema();
    for ty in 0..5 {
        assert_eq!(
            Value::deserialize(&XmlElement::Comment("c".to_string()), &schema, ty),
            Err(DeError::UnsupportedElement)
        );
        assert_eq!(
            Value::deserialize(&XmlElement::Whitespace(" ".to_string()), &schema, ty),
            Err(DeError::UnsupportedElement)
        );
        assert_eq!(
            Value::deserialize(&XmlElement::CData("c".to_string()), &schema, ty),
            Err(DeError::UnsupportedElement)
        );
    }
}

#[test]
fn unwrap_option_reports_the_field() {
    assert_eq!(de::unwrap_option(Some(5), "age"), Ok(5));
    assert_eq!(de::unwrap_option::<u8>(None, "age"), Err(DeError::MissingField("age".to_string())));
}
