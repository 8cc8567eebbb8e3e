use easy_xml::schema::Attributes;
use easy_xml::schema::Field;
use easy_xml::schema::SchemaDescriptor;
use easy_xml::schema::StructDescriptor;
use easy_xml::schema::TypeDescriptor;
use easy_xml::schema::TypeWapper;
use easy_xml::se;
use easy_xml::value::FieldValue;
use easy_xml::value::Value;

#[test]
fn skip_test_for_option() {
    // No rule of the schema passes a field over: the field `tes1`, with the
    // value "test1", is not bound because the schema does not list it. A
    // node is named by a type only where the type is marked as root, so
    // `Node` is marked.
    let mut root = Attributes::plain();
    root.root = true;
    let mut child = Attributes::plain();
    child.rename = Some("Child".to_string());
    let schema = SchemaDescriptor::new(vec![
        TypeDescriptor::Text,
        TypeDescriptor::Struct(StructDescriptor {
            ident: "Node".to_string(),
            attrs: root,
            fields: vec![Field::from_struct(
                Some("test".to_string()),
                TypeWapper::new("String".to_string(), Vec::new(), None),
                child,
                0,
            )],
        }),
    ])
    .unwrap();

    let node = Value::Struct(vec![FieldValue::Required(Value::Text("test".to_string()))]);
    let xml = se::to_string(&node, &schema, 1).unwrap();
    println!("{}", xml);
    assert_eq!(
        xml.as_str(),
        r#"<?xml version="1.0" encoding="UTF-8"?><Node><Child>test</Child></Node>"#
    );
}
