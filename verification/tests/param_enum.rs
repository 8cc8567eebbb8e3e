use easy_xml::de;
use easy_xml::schema::Attributes;
use easy_xml::schema::EnumDescriptor;
use easy_xml::schema::Field;
use easy_xml::schema::SchemaDescriptor;
use easy_xml::schema::StructDescriptor;
use easy_xml::schema::TypeDescriptor;
use easy_xml::schema::TypeWapper;
use easy_xml::schema::VariantDescriptor;
use easy_xml::schema::VariantKind;
use easy_xml::se;
use easy_xml::value::FieldValue;
use easy_xml::value::Value;

fn param_enum_string() -> TypeWapper {
    TypeWapper::new("String".to_string(), Vec::new(), None)
}

#[test]
fn param_enum_test() {
    let mut root = Attributes::plain();
    root.root = true;
    let mut content = Attributes::plain();
    content.rename = Some("Text|Img".to_string());
    content.enums = true;
    let mut text = Attributes::plain();
    text.text = true;
    let mut src = Attributes::plain();
    src.attribute = true;
    let schema = SchemaDescriptor::new(vec![
        TypeDescriptor::Text,
        TypeDescriptor::Enum(EnumDescriptor {
            ident: "Object".to_string(),
            variants: vec![
                VariantDescriptor {
                    ident: "Text".to_string(),
                    attrs: Attributes::plain(),
                    kind: VariantKind::Named,
                    fields: vec![Field::from_named(Some("text".to_string()), param_enum_string(), text, 0)],
                },
                VariantDescriptor {
                    ident: "Img".to_string(),
                    attrs: Attributes::plain(),
                    kind: VariantKind::Named,
                    fields: vec![Field::from_named(Some("src".to_string()), param_enum_string(), src, 0)],
                },
            ],
        }),
        TypeDescriptor::Struct(StructDescriptor {
            ident: "Content".to_string(),
            attrs: root,
            fields: vec![Field::from_struct(
                Some("content".to_string()),
                TypeWapper::new("Vec".to_string(), Vec::new(), Some(TypeWapper::new("Object".to_string(), Vec::new(), None))),
                content,
                1,
            )],
        }),
    ])
    .unwrap();

    let content = de::from_str(
        r#"
          <Content>
            <Text>text</Text>
            <Img src="logo.png"/>
          </Content>
      "#,
        &schema,
        2,
    )
    .unwrap();

    let items = match &content {
        Value::Struct(fields) => match &fields[0] {
            FieldValue::Repeated(items) => items,
            _ => panic!("not a repeated field"),
        },
        _ => panic!("not a struct"),
    };
    assert_eq!(items.len(), 2);

    for item in items {
        match item {
            Value::Variant(0, fields) => {
                assert_eq!(fields[0], FieldValue::Required(Value::Text("text".to_string())))
            }
            Value::Variant(1, fields) => {
                assert_eq!(fields[0], FieldValue::Required(Value::Text("logo.png".to_string())))
            }
            _ => panic!("not a variant"),
        }
    }

    let xml = se::to_string(&content, &schema, 2).unwrap();
    assert_eq!(
        xml.as_str(),
        r#"<?xml version="1.0" encoding="UTF-8"?><Content><Text>text</Text><Img src="logo.png" /></Content>"#
    );
}
