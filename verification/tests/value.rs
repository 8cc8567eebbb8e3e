use easy_xml::de;
use easy_xml::schema::Attributes;
use easy_xml::schema::EnumDescriptor;
use easy_xml::schema::Field;
use easy_xml::schema::SchemaDescriptor;
use easy_xml::schema::StructDescriptor;
use easy_xml::schema::TypeDescriptor;
use easy_xml::schema::TypeWapper;
use easy_xml::schema::VariantDescriptor;
use easy_xml::schema::VariantKind;
use easy_xml::value::FieldValue;
use easy_xml::value::Value;

fn value_text_field(is_struct: bool) -> Field {
    let mut text = Attributes::plain();
    text.text = true;
    let ty = TypeWapper::new("String".to_string(), Vec::new(), None);
    if is_struct {
        Field::from_struct(Some("text".to_string()), ty, text, 0)
    } else {
        Field::from_named(Some("text".to_string()), ty, text, 0)
    }
}

fn value_struct_schema() -> SchemaDescriptor {
    SchemaDescriptor::new(vec![
        TypeDescriptor::Text,
        TypeDescriptor::Struct(StructDescriptor {
            ident: "Node".to_string(),
            attrs: Attributes::plain(),
            fields: vec![value_text_field(true)],
        }),
    ])
    .unwrap()
}

#[test]
fn value_test() {
    // struct
    {
        let schema = value_struct_schema();
        let node = de::from_str("<Node>text</Node>", &schema, 1).unwrap();
        assert_eq!(node, Value::Struct(vec![FieldValue::Required(Value::Text("text".to_string()))]));
    }
    {
        let schema = value_struct_schema();
        let node = de::from_str("<Node><Node1>text</Node1></Node>", &schema, 1).unwrap();
        assert_eq!(node, Value::Struct(vec![FieldValue::Required(Value::Text("text".to_string()))]));
    }

    //enum

    {
        let schema = SchemaDescriptor::new(vec![
            TypeDescriptor::Text,
            TypeDescriptor::Enum(EnumDescriptor {
                ident: "Node".to_string(),
                variants: vec![VariantDescriptor {
                    ident: "Node".to_string(),
                    attrs: Attributes::plain(),
                    kind: VariantKind::Named,
                    fields: vec![value_text_field(false)],
                }],
            }),
        ])
        .unwrap();
        let node = de::from_str("<Node>text</Node>", &schema, 1).unwrap();
        match node {
            Value::Variant(0, fields) => {
                assert_eq!(fields[0], FieldValue::Required(Value::Text("text".to_string())));
            }
            _ => panic!("not the variant"),
        }
    }
}
