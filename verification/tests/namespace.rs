use easy_xml::schema::Attributes;
use easy_xml::schema::Field;
use easy_xml::schema::SchemaDescriptor;
use easy_xml::schema::StructDescriptor;
use easy_xml::schema::TypeDescriptor;
use easy_xml::schema::TypeWapper;
use easy_xml::se;
use easy_xml::se::SerializeSettings;
use easy_xml::tree::XmlVersion;
use easy_xml::tree::XmlDocument;
use easy_xml::tree::XmlElement;
use easy_xml::tree::XmlNamespace;
use easy_xml::tree::XmlNode;
use easy_xml::value::FieldValue;
use easy_xml::value::Value;

// No rule of the schema declares a namespace, and `to_string` writes into a
// node of its own: the binding of the prefix is put on the node by hand,
// the record is written into that node, and the document is printed. A
// node is named by a type only where the type is marked as root, so `Node`
// is marked.
#[test]
fn namespace_test() {
    let mut rule = Attributes::plain();
    rule.root = true;
    rule.prefix = Some("easy".to_string());
    let mut text = Attributes::plain();
    text.text = true;
    let schema = SchemaDescriptor::new(vec![
        TypeDescriptor::Text,
        TypeDescriptor::Struct(StructDescriptor {
            ident: "Node".to_string(),
            attrs: rule,
            fields: vec![Field::from_struct(
                Some("text".to_string()),
                TypeWapper::new("String".to_string(), Vec::new(), None),
                text,
                0,
            )],
        }),
    ])
    .unwrap();
    let node = Value::Struct(vec![FieldValue::Required(Value::Text("hello easy-xml".to_string()))]);

    let mut target = XmlNode::empty();
    target.namespace.push(XmlNamespace {
        prefix: "easy".to_string(),
        uri: "http://www.easy-xml.org/".to_string(),
    });
    let mut root = XmlElement::Node(target);
    node.serialize(&schema, 1, &mut root);
    let doc = XmlDocument {
        version: XmlVersion::Version10,
        encoding: "UTF-8".to_string(),
        standalone: None,
        elements: vec![root],
    };
    let xml = se::text_of_output(se::print(&doc, &SerializeSettings::default())).unwrap();

    assert_eq!(
        xml.as_str(),
        r#"<?xml version="1.0" encoding="UTF-8"?><easy:Node xmlns:easy="http://www.easy-xml.org/">hello easy-xml</easy:Node>"#
    );
}
