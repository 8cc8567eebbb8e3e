use easy_xml::de;
use easy_xml::schema::Attributes;
use easy_xml::schema::Field;
use easy_xml::schema::SchemaDescriptor;
use easy_xml::schema::StructDescriptor;
use easy_xml::schema::TypeDescriptor;
use easy_xml::schema::TypeWapper;
use easy_xml::se;
use easy_xml::value::FieldValue;
use easy_xml::value::Value;

fn container_plain(name: &str) -> TypeWapper {
    TypeWapper::new(name.to_string(), Vec::new(), None)
}

fn container_renamed(name: &str) -> Attributes {
    let mut attrs = Attributes::plain();
    attrs.rename = Some(name.to_string());
    attrs
}

fn container_child(val: &str) -> Value {
    Value::Struct(vec![FieldValue::Required(Value::Text(val.to_string()))])
}

// No rule of the schema wraps the values of a field in an element of its
// own, and none names a child after its type: the element `Container` is a
// struct here, whose field `children` is renamed `Child`. A node is named
// by a type only where the type is marked as root, so `Node` is marked.
#[test]
fn test_for_vec() {
    let mut text = Attributes::plain();
    text.text = true;
    let mut root = Attributes::plain();
    root.root = true;
    let schema = SchemaDescriptor::new(vec![
        TypeDescriptor::Text,
        // Child
        TypeDescriptor::Struct(StructDescriptor {
            ident: "Child".to_string(),
            attrs: Attributes::plain(),
            fields: vec![Field::from_struct(Some("val".to_string()), container_plain("String"), text, 0)],
        }),
        // the element that holds the children
        TypeDescriptor::Struct(StructDescriptor {
            ident: "Container".to_string(),
            attrs: Attributes::plain(),
            fields: vec![Field::from_struct(
                Some("children".to_string()),
                TypeWapper::new("Vec".to_string(), Vec::new(), Some(container_plain("Child"))),
                container_renamed("Child"),
                1,
            )],
        }),
        // Node
        TypeDescriptor::Struct(StructDescriptor {
            ident: "Node".to_string(),
            attrs: root,
            fields: vec![Field::from_struct(
                Some("container".to_string()),
                container_plain("Container"),
                container_renamed("Container"),
                2,
            )],
        }),
    ])
    .unwrap();

    let node = Value::Struct(vec![FieldValue::Required(Value::Struct(vec![FieldValue::Repeated(vec![
        container_child("child1"),
        container_child("child2"),
    ])]))]);
    let xml = se::to_string(&node, &schema, 3).unwrap();
    assert_eq!(
        xml.as_str(),
        r#"<?xml version="1.0" encoding="UTF-8"?><Node><Container><Child>child1</Child><Child>child2</Child></Container></Node>"#
    );
    assert_eq!(node, de::from_str(&xml, &schema, 3).unwrap());
}
