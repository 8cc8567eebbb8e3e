use easy_xml::de;
use easy_xml::schema::Attributes;
use easy_xml::schema::EnumDescriptor;
use easy_xml::schema::Field;
use easy_xml::schema::SchemaDescriptor;
use easy_xml::schema::StructDescriptor;
use easy_xml::schema::TypeDescriptor;
use easy_xml::schema::TypeWapper;
use easy_xml::schema::VariantDescriptor;
use easy_xml::schema::VariantKind;
use easy_xml::se;
use easy_xml::value::FieldValue;
use easy_xml::value::Value;

fn enums_plain(name: &str) -> TypeWapper {
    TypeWapper::new(name.to_string(), Vec::new(), None)
}

fn enums_vec(name: &str) -> TypeWapper {
    TypeWapper::new("Vec".to_string(), Vec::new(), Some(enums_plain(name)))
}

fn enums_rule(kind: &str, rename: Option<&str>) -> Attributes {
    let mut attrs = Attributes::plain();
    match kind {
        "attribute" => attrs.attribute = true,
        "text" => attrs.text = true,
        "flatten" => attrs.flatten = true,
        _ => {}
    }
    attrs.rename = rename.map(|r| r.to_string());
    attrs
}

fn enums_unit(ident: &str, rename: Option<&str>) -> VariantDescriptor {
    VariantDescriptor {
        ident: ident.to_string(),
        attrs: enums_rule("", rename),
        kind: VariantKind::Unit,
        fields: Vec::new(),
    }
}

fn enums_text(value: &Value) -> &str {
    match value {
        Value::Text(s) => s.as_str(),
        _ => panic!("not a string"),
    }
}

fn enums_required(field: &FieldValue) -> &Value {
    match field {
        FieldValue::Required(v) => v,
        _ => panic!("not a required field"),
    }
}

fn enums_fields(value: &Value) -> &Vec<FieldValue> {
    match value {
        Value::Struct(fields) => fields,
        Value::Variant(_, fields) => fields,
        _ => panic!("not a record"),
    }
}

#[test]
fn enum_test() {
    let mut root = Attributes::plain();
    root.root = true;
    let mut alternatives = enums_rule("", Some("Unnamed|Named|Unit"));
    alternatives.enums = true;
    let schema = SchemaDescriptor::new(vec![
        TypeDescriptor::Text,
        // Flatten
        TypeDescriptor::Struct(StructDescriptor {
            ident: "Flatten".to_string(),
            attrs: Attributes::plain(),
            fields: vec![
                Field::from_struct(Some("attr".to_string()), enums_plain("String"), enums_rule("attribute", None), 0),
                Field::from_struct(Some("text".to_string()), enums_plain("String"), enums_rule("text", None), 0),
            ],
        }),
        // EnumTest
        TypeDescriptor::Enum(EnumDescriptor {
            ident: "EnumTest".to_string(),
            variants: vec![
                VariantDescriptor {
                    ident: "Unnamed".to_string(),
                    attrs: Attributes::plain(),
                    kind: VariantKind::Unnamed,
                    fields: vec![
                        Field::from_unnamed(enums_plain("String"), enums_rule("attribute", Some("attr")), 1, 0),
                        Field::from_unnamed(enums_plain("String"), enums_rule("text", None), 2, 0),
                        Field::from_unnamed(enums_plain("String"), enums_rule("", Some("Node")), 3, 0),
                        Field::from_unnamed(enums_plain("Flatten"), enums_rule("flatten", None), 4, 1),
                    ],
                },
                VariantDescriptor {
                    ident: "Named".to_string(),
                    attrs: Attributes::plain(),
                    kind: VariantKind::Named,
                    fields: vec![
                        Field::from_named(Some("attr".to_string()), enums_plain("String"), enums_rule("attribute", None), 0),
                        Field::from_named(Some("text".to_string()), enums_plain("String"), enums_rule("text", None), 0),
                        Field::from_named(Some("node".to_string()), enums_plain("String"), enums_rule("", Some("Node")), 0),
                        Field::from_named(Some("flatten".to_string()), enums_plain("Flatten"), enums_rule("flatten", None), 1),
                    ],
                },
                enums_unit("Unit", None),
            ],
        }),
        // Content
        TypeDescriptor::Struct(StructDescriptor {
            ident: "Content".to_string(),
            attrs: root,
            fields: vec![Field::from_struct(Some("enums".to_string()), enums_vec("EnumTest"), alternatives, 2)],
        }),
    ])
    .unwrap();

    let xml = r#"
          <Content>
            <Unnamed attr="value">
              <Node>node</Node>
            </Unnamed>
            <Named attr="value1">
              <Node>node1</Node>
            </Named>
            <Unit/>
          </Content>
        "#;

    let content = de::from_str(xml, &schema, 3).unwrap();
    let enums = match &enums_fields(&content)[0] {
        FieldValue::Repeated(enums) => enums,
        _ => panic!("not a repeated field"),
    };

    assert_eq!(enums.len(), 3);

    for e in enums {
        match e {
            Value::Variant(0, fields) => {
                assert_eq!(enums_text(enums_required(&fields[0])), "value");
                assert_eq!(enums_text(enums_required(&fields[1])), "node");
                assert_eq!(enums_text(enums_required(&fields[2])), "node");
                let flatten = enums_fields(enums_required(&fields[3]));
                assert_eq!(enums_text(enums_required(&flatten[0])), "value");
                assert_eq!(enums_text(enums_required(&flatten[1])), "node");
            }
            Value::Variant(1, fields) => {
                assert_eq!(enums_text(enums_required(&fields[0])), "value1");
                assert_eq!(enums_text(enums_required(&fields[1])), "node1");
                assert_eq!(enums_text(enums_required(&fields[2])), "node1");
                let flatten = enums_fields(enums_required(&fields[3]));
                assert_eq!(enums_text(enums_required(&flatten[0])), "value1");
                assert_eq!(enums_text(enums_required(&flatten[1])), "node1");
            }
            Value::Variant(2, fields) => assert!(fields.is_empty()),
            _ => panic!("not a variant"),
        }
    }

    let xml = se::to_string(&content, &schema, 3).unwrap();

    println!("{}", xml);

    assert_eq!(
        xml.as_str(),
        r#"<?xml version="1.0" encoding="UTF-8"?><Content><Unnamed attr="value" attr="value">node<Node>node</Node>node</Unnamed><Named attr="value1" attr="value1">node1<Node>node1</Node>node1</Named><Unit /></Content>"#
    );
}

// The schema of `Node`, whose `ty` is an element that holds the tag of a unit
// variant as its text, and whose `objs` are elements named by their variant.
//
// No rule of the schema turns the content of a child into a text for its
// field: the element `Type` is a struct here, whose one field is bound to
// the text. A rename lists alternatives only under the `enum` mark, so
// `objs` carries it. A node is named by a type only where the type is
// marked as root, so `Node` is marked.
fn enums_node_schema(types: [Option<&str>; 3], objs: [Option<&str>; 3], alternatives: &str) -> SchemaDescriptor {
    let mut root = Attributes::plain();
    root.root = true;
    let mut any = enums_rule("", Some(alternatives));
    any.enums = true;
    SchemaDescriptor::new(vec![
        // Type
        TypeDescriptor::Enum(EnumDescriptor {
            ident: "Type".to_string(),
            variants: vec![enums_unit("T1", types[0]), enums_unit("T2", types[1]), enums_unit("T3", types[2])],
        }),
        // Obj
        TypeDescriptor::Enum(EnumDescriptor {
            ident: "Obj".to_string(),
            variants: vec![enums_unit("Text", objs[0]), enums_unit("Img", objs[1]), enums_unit("Video", objs[2])],
        }),
        // the element whose text is the tag
        TypeDescriptor::Struct(StructDescriptor {
            ident: "TypeText".to_string(),
            attrs: Attributes::plain(),
            fields: vec![Field::from_struct(Some("ty".to_string()), enums_plain("Type"), enums_rule("text", None), 0)],
        }),
        // Node
        TypeDescriptor::Struct(StructDescriptor {
            ident: "Node".to_string(),
            attrs: root,
            fields: vec![
                Field::from_struct(Some("ty".to_string()), enums_plain("TypeText"), enums_rule("", Some("Type")), 2),
                Field::from_struct(Some("objs".to_string()), enums_vec("Obj"), any, 1),
            ],
        }),
    ])
    .unwrap()
}

fn enums_node_value() -> Value {
    Value::Struct(vec![
        FieldValue::Required(Value::Struct(vec![FieldValue::Required(Value::Variant(1, Vec::new()))])),
        FieldValue::Repeated(vec![
            Value::Variant(0, Vec::new()),
            Value::Variant(1, Vec::new()),
            Value::Variant(2, Vec::new()),
        ]),
    ])
}

#[test]
fn test_for_node() {
    let schema = enums_node_schema([None, None, None], [None, None, None], "Text|Img|Video");

    let node = enums_node_value();
    let xml = se::to_string(&node, &schema, 3).unwrap();

    assert_eq!(
        xml.as_str(),
        r#"<?xml version="1.0" encoding="UTF-8"?><Node><Type>T2</Type><Text /><Img /><Video /></Node>"#
    );

    assert_eq!(node, de::from_str(xml.as_str(), &schema, 3).unwrap());
}

#[test]
fn test_enum_with_rename() {
    let schema = enums_node_schema(
        [Some("TTT1"), Some("TTT2"), Some("TTT3")],
        [Some("TextObject"), Some("ImgObject"), Some("VideoObject")],
        "TextObject|ImgObject|VideoObject",
    );

    let node = enums_node_value();
    let xml = se::to_string(&node, &schema, 3).unwrap();

    assert_eq!(
        xml.as_str(),
        r#"<?xml version="1.0" encoding="UTF-8"?><Node><Type>TTT2</Type><TextObject /><ImgObject /><VideoObject /></Node>"#
    );

    assert_eq!(node, de::from_str(xml.as_str(), &schema, 3).unwrap());
}
