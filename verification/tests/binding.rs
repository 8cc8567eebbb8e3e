use easy_xml::de;
use easy_xml::de::DeError;
use easy_xml::schema::Attributes;
use easy_xml::schema::EnumDescriptor;
use easy_xml::schema::Field;
use easy_xml::schema::NumberKind;
use easy_xml::schema::SchemaDescriptor;
use easy_xml::schema::StructDescriptor;
use easy_xml::schema::TypeDescriptor;
use easy_xml::schema::TypeWapper;
use easy_xml::schema::VariantDescriptor;
use easy_xml::schema::VariantKind;
use easy_xml::se;
use easy_xml::tree::XmlElement;
use easy_xml::tree::XmlNode;
use easy_xml::value::FieldValue;
use easy_xml::value::Value;

fn binding_type(idents: &[&str]) -> TypeWapper {
    let mut ty: Option<TypeWapper> = None;
    for ident in idents.iter().rev() {
        ty = Some(TypeWapper::new(ident.to_string(), Vec::new(), ty));
    }
    ty.unwrap()
}

fn binding_rule(kind: &str, rename: Option<&str>) -> Attributes {
    let mut attrs = Attributes::plain();
    match kind {
        "attribute" => attrs.attribute = true,
        "text" => attrs.text = true,
        "flatten" => attrs.flatten = true,
        "root" => attrs.root = true,
        _ => {}
    }
    attrs.rename = rename.map(|r| r.to_string());
    attrs
}

fn binding_field(ident: &str, ty: &[&str], kind: &str, rename: Option<&str>, target: usize) -> Field {
    Field::from_struct(Some(ident.to_string()), binding_type(ty), binding_rule(kind, rename), target)
}

fn binding_struct(ident: &str, root: bool, fields: Vec<Field>) -> TypeDescriptor {
    TypeDescriptor::Struct(StructDescriptor {
        ident: ident.to_string(),
        attrs: binding_rule(if root { "root" } else { "" }, None),
        fields,
    })
}

fn binding_unit(ident: &str) -> VariantDescriptor {
    VariantDescriptor { ident: ident.to_string(), attrs: Attributes::plain(), kind: VariantKind::Unit, fields: Vec::new() }
}

fn binding_text(s: &str) -> Value {
    Value::Text(s.to_string())
}

fn binding_written(value: &Value, schema: &SchemaDescriptor, ty: usize) -> XmlNode {
    let mut element = XmlElement::Node(XmlNode::empty());
    value.serialize(schema, ty, &mut element);
    match element {
        XmlElement::Node(node) => node,
        _ => panic!("not a node"),
    }
}

// 0 String, 1 u16, 2 i64,
// 3 Address { #[attribute] zip: u16, street: String }
// 4 Person root { #[attribute] id: i64, #[attribute] nick: Option<String>, name: String,
//                 address: Option<Address>, #[rename = "Lang"] langs: Vec<String>,
//                 #[rename = "Home"] homes: Vec<Address> }
fn binding_people() -> SchemaDescriptor {
    SchemaDescriptor::new(vec![
        TypeDescriptor::Text,
        TypeDescriptor::Number(NumberKind::U16),
        TypeDescriptor::Number(NumberKind::I64),
        binding_struct(
            "Address",
            false,
            vec![
                binding_field("zip", &["u16"], "attribute", None, 1),
                binding_field("street", &["String"], "", None, 0),
            ],
        ),
        binding_struct(
            "Person",
            true,
            vec![
                binding_field("id", &["i64"], "attribute", None, 2),
                binding_field("nick", &["Option", "String"], "attribute", None, 0),
                binding_field("name", &["String"], "", None, 0),
                binding_field("address", &["Option", "Address"], "", None, 3),
                binding_field("langs", &["Vec", "String"], "", Some("Lang"), 0),
                binding_field("homes", &["Vec", "Address"], "", Some("Home"), 3),
            ],
        ),
    ])
    .unwrap()
}

fn binding_address(zip: u128, street: &str) -> Value {
    Value::Struct(vec![FieldValue::Required(Value::Unsigned(zip)), FieldValue::Required(binding_text(street))])
}

fn binding_person(nick: Option<&str>, address: Option<Value>, langs: &[&str], homes: Vec<Value>) -> Value {
    Value::Struct(vec![
        FieldValue::Required(Value::Signed(-7)),
        FieldValue::Optional(nick.map(binding_text)),
        FieldValue::Required(binding_text("Ann")),
        FieldValue::Optional(address),
        FieldValue::Repeated(langs.iter().map(|l| binding_text(l)).collect()),
        FieldValue::Repeated(homes),
    ])
}

#[test]
fn round_trip_through_the_tree() {
    let schema = binding_people();
    let people = vec![
        binding_person(None, None, &[], Vec::new()),
        binding_person(Some("a"), Some(binding_address(1, "x")), &["Chinese", "English"], Vec::new()),
        binding_person(Some(""), None, &[""], vec![binding_address(0, ""), binding_address(65535, " y ")]),
    ];
    for person in people {
        let node = XmlElement::Node(binding_written(&person, &schema, 4));
        assert_eq!(Value::deserialize(&node, &schema, 4), Ok(person));
    }
}

#[test]
fn round_trip_through_the_text() {
    let schema = binding_people();
    let person = binding_person(Some("a<b"), Some(binding_address(1, "x & y")), &["Chinese", "English"], vec![binding_address(2, "z")]);
    let xml = se::to_string(&person, &schema, 4).unwrap();
    assert_eq!(
        xml,
        r#"<?xml version="1.0" encoding="UTF-8"?><Person id="-7" nick="a&lt;b"><name>Ann</name><address zip="1"><street>x &amp; y</street></address><Lang>Chinese</Lang><Lang>English</Lang><Home zip="2"><street>z</street></Home></Person>"#
    );
    assert_eq!(de::from_str(&xml, &schema, 4), Ok(person));
}

#[test]
fn attributes_are_written_in_schema_order() {
    let schema = binding_people();
    let node = binding_written(&binding_person(Some("n"), None, &[], Vec::new()), &schema, 4);
    let names: Vec<&str> = node.attributes.iter().map(|a| a.name.local_name.as_str()).collect();
    assert_eq!(names, vec!["id", "nick"]);
    assert_eq!(node.attributes[0].value, "-7");
    assert_eq!(node.attributes[1].value, "n");
}

#[test]
fn attributes_are_added_behind_those_that_are_there() {
    let schema = binding_people();
    let mut target = XmlNode::empty();
    target.attributes.push(easy_xml::tree::XmlAttribute {
        name: easy_xml::tree::XmlName { local_name: "old".to_string(), namespace: None, prefix: None },
        value: "o".to_string(),
    });
    let mut element = XmlElement::Node(target);
    binding_person(Some("n"), None, &[], Vec::new()).serialize(&schema, 4, &mut element);
    let node = match &element {
        XmlElement::Node(node) => node,
        _ => panic!("not a node"),
    };
    let names: Vec<&str> = node.attributes.iter().map(|a| a.name.local_name.as_str()).collect();
    assert_eq!(names, vec!["old", "id", "nick"]);
}

#[test]
fn empty_optional_writes_neither_attribute_nor_child() {
    let schema = binding_people();
    let node = binding_written(&binding_person(None, None, &[], Vec::new()), &schema, 4);
    assert_eq!(node.attributes.len(), 1);
    assert_eq!(node.attributes[0].name.local_name, "id");
    assert_eq!(node.elements.len(), 1);
    assert!(matches!(&node.elements[0], XmlElement::Node(n) if n.name.local_name == "name"));
}

#[test]
fn absent_optional_reads_as_empty() {
    let schema = binding_people();
    let person = de::from_str(r#"<Person id="-7"><name>Ann</name></Person>"#, &schema, 4).unwrap();
    assert_eq!(person, binding_person(None, None, &[], Vec::new()));
}

#[test]
fn absent_required_is_fatal() {
    let schema = binding_people();
    assert_eq!(
        de::from_str(r#"<Person nick="n"><name>Ann</name></Person>"#, &schema, 4),
        Err(DeError::MissingField("id".to_string()))
    );
    assert_eq!(
        de::from_str(r#"<Person id="1" nick="n"><names>Ann</names></Person>"#, &schema, 4),
        Err(DeError::MissingField("name".to_string()))
    );
    assert_eq!(
        de::from_str(r#"<Person id="1"><name>Ann</name><address><street>s</street></address></Person>"#, &schema, 4),
        Err(DeError::MissingField("zip".to_string()))
    );
}

#[test]
fn repeated_keeps_document_order() {
    let schema = binding_people();
    let person = de::from_str(
        r#"<Person id="-7"><Lang>Chinese</Lang><name>Ann</name><Other>x</Other><Lang>English</Lang></Person>"#,
        &schema,
        4,
    )
    .unwrap();
    assert_eq!(person, binding_person(None, None, &["Chinese", "English"], Vec::new()));
    let person = de::from_str(
        r#"<Person id="-7"><Lang>English</Lang><name>Ann</name><Lang>Chinese</Lang><Lang>English</Lang></Person>"#,
        &schema,
        4,
    )
    .unwrap();
    assert_eq!(person, binding_person(None, None, &["English", "Chinese", "English"], Vec::new()));
}

#[test]
fn last_match_wins_for_a_single_value() {
    let schema = binding_people();
    let person = de::from_str(
        r#"<Person id="-7"><name>Bob</name><address zip="1"><street>a</street></address><name>Ann</name><address zip="2"><street>b</street></address></Person>"#,
        &schema,
        4,
    )
    .unwrap();
    assert_eq!(person, binding_person(None, Some(binding_address(2, "b")), &[], Vec::new()));
}

#[test]
fn enum_text_dispatch() {
    let schema = SchemaDescriptor::new(vec![TypeDescriptor::Enum(EnumDescriptor {
        ident: "Type".to_string(),
        variants: vec![binding_unit("T1"), binding_unit("T2")],
    })])
    .unwrap();
    assert_eq!(
        Value::deserialize(&XmlElement::Text("T2".to_string()), &schema, 0),
        Ok(Value::Variant(1, Vec::new()))
    );
    assert_eq!(
        Value::deserialize(&XmlElement::Text("T1".to_string()), &schema, 0),
        Ok(Value::Variant(0, Vec::new()))
    );
}

#[test]
fn enum_text_dispatch_takes_the_first_of_equal_tags() {
    let mut second = binding_unit("Other");
    second.attrs.rename = Some("T1".to_string());
    let mut third = binding_unit("T3");
    third.attrs.prefix = Some("p".to_string());
    let schema = SchemaDescriptor::new(vec![TypeDescriptor::Enum(EnumDescriptor {
        ident: "Type".to_string(),
        variants: vec![binding_unit("T1"), second, third],
    })])
    .unwrap();
    let text = |s: &str| XmlElement::Text(s.to_string());
    assert_eq!(Value::deserialize(&text("T1"), &schema, 0), Ok(Value::Variant(0, Vec::new())));
    assert_eq!(Value::deserialize(&text("Other"), &schema, 0), Err(DeError::NoMatchingVariant));
    assert_eq!(Value::deserialize(&text("p:T3"), &schema, 0), Ok(Value::Variant(2, Vec::new())));
    assert_eq!(Value::deserialize(&text("T3"), &schema, 0), Err(DeError::NoMatchingVariant));

    let mut written = text("");
    Value::Variant(2, Vec::new()).serialize(&schema, 0, &mut written);
    Value::Variant(1, Vec::new()).serialize(&schema, 0, &mut written);
    assert!(matches!(&written, XmlElement::Text(s) if s == "p:T3T1"));
    Value::Variant(3, Vec::new()).serialize(&schema, 0, &mut written);
    assert!(matches!(&written, XmlElement::Text(s) if s == "p:T3T1"));
}

#[test]
fn enum_node_dispatch_with_alternates() {
    let mut any = binding_rule("", Some("Unnamed|Named|Unit"));
    any.enums = true;
    let schema = SchemaDescriptor::new(vec![
        TypeDescriptor::Text,
        TypeDescriptor::Enum(EnumDescriptor {
            ident: "EnumTest".to_string(),
            variants: vec![
                VariantDescriptor {
                    ident: "Unnamed".to_string(),
                    attrs: Attributes::plain(),
                    kind: VariantKind::Unnamed,
                    fields: vec![Field::from_unnamed(binding_type(&["String"]), binding_rule("attribute", Some("attr")), 1, 0)],
                },
                VariantDescriptor {
                    ident: "Named".to_string(),
                    attrs: Attributes::plain(),
                    kind: VariantKind::Named,
                    fields: vec![Field::from_named(Some("attr".to_string()), binding_type(&["String"]), binding_rule("attribute", None), 0)],
                },
                binding_unit("Unit"),
            ],
        }),
        binding_struct(
            "Content",
            true,
            vec![Field::from_struct(Some("item".to_string()), binding_type(&["EnumTest"]), any, 1)],
        ),
    ])
    .unwrap();
    assert_eq!(
        de::from_str(r#"<Content><Named attr="v"/></Content>"#, &schema, 2),
        Ok(Value::Struct(vec![FieldValue::Required(Value::Variant(
            1,
            vec![FieldValue::Required(binding_text("v"))]
        ))]))
    );
    // the rules of the variant that fits apply: `Named` asks for `attr`
    assert_eq!(
        de::from_str(r#"<Content><Named/></Content>"#, &schema, 2),
        Err(DeError::MissingField("attr".to_string()))
    );
    assert_eq!(
        de::from_str(r#"<Content><Unit attr="v"/></Content>"#, &schema, 2),
        Ok(Value::Struct(vec![FieldValue::Required(Value::Variant(2, Vec::new()))]))
    );
    assert_eq!(
        de::from_str(r#"<Content><Other/></Content>"#, &schema, 2),
        Err(DeError::MissingField("item".to_string()))
    );
}

// 0 String, 1 usize, 2 BaseInfo { #[attribute] age: usize, #[rename = "Lang"] langs: Vec<String> },
// 3 Person root { #[flatten] base_info: BaseInfo, #[attribute] id: usize }
fn binding_flat() -> SchemaDescriptor {
    SchemaDescriptor::new(vec![
        TypeDescriptor::Text,
        TypeDescriptor::Number(NumberKind::Usize),
        binding_struct(
            "BaseInfo",
            false,
            vec![
                binding_field("age", &["usize"], "attribute", None, 1),
                binding_field("langs", &["Vec", "String"], "", Some("Lang"), 0),
            ],
        ),
        binding_struct(
            "Person",
            true,
            vec![
                binding_field("base_info", &["BaseInfo"], "flatten", None, 2),
                binding_field("id", &["usize"], "attribute", None, 1),
            ],
        ),
    ])
    .unwrap()
}

#[test]
fn flatten_merges_into_the_parent() {
    let schema = binding_flat();
    let person = Value::Struct(vec![
        FieldValue::Required(Value::Struct(vec![
            FieldValue::Required(Value::Unsigned(18)),
            FieldValue::Repeated(vec![binding_text("Chinese")]),
        ])),
        FieldValue::Required(Value::Unsigned(3)),
    ]);
    let node = binding_written(&person, &schema, 3);
    assert_eq!(node.name.local_name, "Person");
    let attributes: Vec<(&str, &str)> =
        node.attributes.iter().map(|a| (a.name.local_name.as_str(), a.value.as_str())).collect();
    assert_eq!(attributes, vec![("id", "3"), ("age", "18")]);
    assert_eq!(node.elements.len(), 1);
    assert!(matches!(&node.elements[0], XmlElement::Node(n) if n.name.local_name == "Lang"));
    assert_eq!(Value::deserialize(&XmlElement::Node(node), &schema, 3), Ok(person));
}

#[test]
fn node_is_named_by_a_root_only() {
    let schema = binding_people();
    let node = binding_written(&binding_address(1, "s"), &schema, 3);
    assert_eq!(node.name.local_name, "");
    let node = binding_written(&binding_person(None, None, &[], Vec::new()), &schema, 4);
    assert_eq!(node.name.local_name, "Person");
    assert!(node.name.prefix.is_none());
}

#[test]
fn each_text_field_writes_a_text() {
    let schema = SchemaDescriptor::new(vec![
        TypeDescriptor::Text,
        TypeDescriptor::Number(NumberKind::U8),
        binding_struct(
            "Node",
            true,
            vec![
                binding_field("a", &["String"], "text", None, 0),
                binding_field("b", &["Option", "u8"], "text", None, 1),
                binding_field("c", &["Option", "String"], "text", None, 0),
            ],
        ),
    ])
    .unwrap();
    let value = Value::Struct(vec![
        FieldValue::Required(binding_text("x")),
        FieldValue::Optional(Some(Value::Unsigned(5))),
        FieldValue::Optional(None),
    ]);
    let node = binding_written(&value, &schema, 2);
    assert_eq!(node.elements.len(), 2);
    assert!(matches!(&node.elements[0], XmlElement::Text(s) if s == "x"));
    assert!(matches!(&node.elements[1], XmlElement::Text(s) if s == "5"));
    assert_eq!(se::to_string(&value, &schema, 2).unwrap(), r#"<?xml version="1.0" encoding="UTF-8"?><Node>x5</Node>"#);
}

#[test]
fn every_field_that_fits_is_bound() {
    let schema = SchemaDescriptor::new(vec![
        TypeDescriptor::Text,
        binding_struct(
            "Node",
            false,
            vec![
                binding_field("a", &["String"], "", Some("x"), 0),
                binding_field("b", &["Vec", "String"], "", Some("x"), 0),
                binding_field("c", &["String"], "attribute", Some("x"), 0),
                binding_field("d", &["String"], "text", None, 0),
            ],
        ),
    ])
    .unwrap();
    assert_eq!(
        de::from_str(r#"<n x="k"><x>1</x><x>2</x></n>"#, &schema, 1),
        Ok(Value::Struct(vec![
            FieldValue::Required(binding_text("2")),
            FieldValue::Repeated(vec![binding_text("1"), binding_text("2")]),
            FieldValue::Required(binding_text("k")),
            FieldValue::Required(binding_text("12")),
        ]))
    );
}

#[test]
fn struct_from_a_text_reads_its_text_fields() {
    let schema = SchemaDescriptor::new(vec![
        TypeDescriptor::Text,
        binding_struct(
            "Inner",
            false,
            vec![
                binding_field("t", &["String"], "text", None, 0),
                binding_field("o", &["Option", "String"], "", None, 0),
            ],
        ),
        binding_struct("Outer", false, vec![binding_field("i", &["Inner"], "attribute", Some("i"), 1)]),
    ])
    .unwrap();
    assert_eq!(
        de::from_str(r#"<n i="v"/>"#, &schema, 2),
        Ok(Value::Struct(vec![FieldValue::Required(Value::Struct(vec![
            FieldValue::Required(binding_text("v")),
            FieldValue::Optional(None),
        ]))]))
    );
}

// 0 String, 1 i32, 2 Level (T1 | T2 renamed "two" | T3),
// 3 Leaf { #[attribute] level: Level, #[attribute] weight: Option<i32>, #[text] label: String },
// 4 Shape (Dot | Line { #[attribute] len: i32 } | Group(#[rename = "Dot|Line|Group", enum] Vec<Shape>, #[rename = "Leaf"] Option<Leaf>)),
// 5 Drawing root { #[rename = "Dot|Line|Group", enum] shapes: Vec<Shape>, title: String,
//                  #[rename = "T1|two|T3", enum] level: Level }
fn binding_drawing() -> SchemaDescriptor {
    let mut two = binding_unit("T2");
    two.attrs.rename = Some("two".to_string());
    let mut any = binding_rule("", Some("Dot|Line|Group"));
    any.enums = true;
    let mut inner = binding_rule("", Some("Dot|Line|Group"));
    inner.enums = true;
    let mut level = binding_rule("", Some("T1|two|T3"));
    level.enums = true;
    SchemaDescriptor::new(vec![
        TypeDescriptor::Text,
        TypeDescriptor::Number(NumberKind::I32),
        TypeDescriptor::Enum(EnumDescriptor {
            ident: "Level".to_string(),
            variants: vec![binding_unit("T1"), two, binding_unit("T3")],
        }),
        binding_struct(
            "Leaf",
            false,
            vec![
                binding_field("level", &["Level"], "attribute", None, 2),
                binding_field("weight", &["Option", "i32"], "attribute", None, 1),
                binding_field("label", &["String"], "text", None, 0),
            ],
        ),
        TypeDescriptor::Enum(EnumDescriptor {
            ident: "Shape".to_string(),
            variants: vec![
                binding_unit("Dot"),
                VariantDescriptor {
                    ident: "Line".to_string(),
                    attrs: Attributes::plain(),
                    kind: VariantKind::Named,
                    fields: vec![Field::from_named(Some("len".to_string()), binding_type(&["i32"]), binding_rule("attribute", None), 1)],
                },
                VariantDescriptor {
                    ident: "Group".to_string(),
                    attrs: Attributes::plain(),
                    kind: VariantKind::Unnamed,
                    fields: vec![
                        Field::from_unnamed(binding_type(&["Vec", "Shape"]), inner, 1, 4),
                        Field::from_unnamed(binding_type(&["Option", "Leaf"]), binding_rule("", Some("Leaf")), 2, 3),
                    ],
                },
            ],
        }),
        binding_struct(
            "Drawing",
            true,
            vec![
                Field::from_struct(Some("shapes".to_string()), binding_type(&["Vec", "Shape"]), any, 4),
                binding_field("title", &["String"], "", None, 0),
                Field::from_struct(Some("level".to_string()), binding_type(&["Level"]), level, 2),
            ],
        ),
    ])
    .unwrap()
}

fn binding_leaf(level: usize, weight: Option<i128>, label: &str) -> Value {
    Value::Struct(vec![
        FieldValue::Required(Value::Variant(level, Vec::new())),
        FieldValue::Optional(weight.map(Value::Signed)),
        FieldValue::Required(binding_text(label)),
    ])
}

fn binding_group(shapes: Vec<Value>, leaf: Option<Value>) -> Value {
    Value::Variant(2, vec![FieldValue::Repeated(shapes), FieldValue::Optional(leaf)])
}

#[test]
fn round_trip_of_variants_and_texts() {
    let schema = binding_drawing();
    let dot = || Value::Variant(0, Vec::new());
    let line = |len: i128| Value::Variant(1, vec![FieldValue::Required(Value::Signed(len))]);
    let drawing = Value::Struct(vec![
        FieldValue::Repeated(vec![
            dot(),
            line(-3),
            binding_group(Vec::new(), None),
            binding_group(
                vec![line(7), binding_group(vec![dot()], Some(binding_leaf(1, None, ""))), dot()],
                Some(binding_leaf(2, Some(-1), " a b ")),
            ),
        ]),
        FieldValue::Required(binding_text("t")),
        FieldValue::Required(Value::Variant(1, Vec::new())),
    ]);
    let node = binding_written(&drawing, &schema, 5);
    assert_eq!(Value::deserialize(&XmlElement::Node(node), &schema, 5), Ok(drawing));
}

#[test]
fn variants_and_texts_as_text() {
    let schema = binding_drawing();
    let drawing = Value::Struct(vec![
        FieldValue::Repeated(vec![
            Value::Variant(1, vec![FieldValue::Required(Value::Signed(2))]),
            binding_group(vec![Value::Variant(0, Vec::new())], Some(binding_leaf(1, Some(4), "x"))),
        ]),
        FieldValue::Required(binding_text("t")),
        FieldValue::Required(Value::Variant(2, Vec::new())),
    ]);
    let xml = se::to_string(&drawing, &schema, 5).unwrap();
    assert_eq!(
        xml,
        r#"<?xml version="1.0" encoding="UTF-8"?><Drawing><Line len="2" /><Group><Dot /><Leaf level="two" weight="4">x</Leaf></Group><title>t</title><T3 /></Drawing>"#
    );
}

#[test]
fn text_beside_a_child_is_not_read_back() {
    let schema = SchemaDescriptor::new(vec![
        TypeDescriptor::Text,
        binding_struct(
            "Node",
            false,
            vec![binding_field("t", &["String"], "text", None, 0), binding_field("c", &["String"], "", None, 0)],
        ),
    ])
    .unwrap();
    let value = Value::Struct(vec![FieldValue::Required(binding_text("a")), FieldValue::Required(binding_text("b"))]);
    let node = binding_written(&value, &schema, 1);
    assert_eq!(
        Value::deserialize(&XmlElement::Node(node), &schema, 1),
        Ok(Value::Struct(vec![FieldValue::Required(binding_text("ab")), FieldValue::Required(binding_text("b"))]))
    );
}

#[test]
fn repeated_attributes_are_read_back_in_order() {
    let schema = SchemaDescriptor::new(vec![
        TypeDescriptor::Number(NumberKind::U8),
        binding_struct(
            "Node",
            false,
            vec![
                binding_field("a", &["Vec", "u8"], "attribute", None, 0),
                binding_field("b", &["Vec", "u8"], "attribute", None, 0),
            ],
        ),
    ])
    .unwrap();
    let value = Value::Struct(vec![
        FieldValue::Repeated(vec![Value::Unsigned(3), Value::Unsigned(1), Value::Unsigned(2)]),
        FieldValue::Repeated(Vec::new()),
    ]);
    let node = binding_written(&value, &schema, 1);
    let attributes: Vec<(&str, &str)> =
        node.attributes.iter().map(|a| (a.name.local_name.as_str(), a.value.as_str())).collect();
    assert_eq!(attributes, vec![("a", "3"), ("a", "1"), ("a", "2")]);
    assert_eq!(Value::deserialize(&XmlElement::Node(node), &schema, 1), Ok(value));
}

// 0 String, 1 i16,
// 2 Label { #[attribute] id: i16, #[text] text: Option<String> }
// 3 Count { #[text, lenient] n: Option<i16> }
// 4 Size { #[attribute] w: i16, #[attribute] h: Option<i16> }
// 5 Frame root { #[flatten] size: Option<Size>, label: Vec<Label>, count: Count }
fn binding_frames() -> SchemaDescriptor {
    let mut lenient = binding_rule("text", None);
    lenient.lenient = true;
    SchemaDescriptor::new(vec![
        TypeDescriptor::Text,
        TypeDescriptor::Number(NumberKind::I16),
        binding_struct(
            "Label",
            false,
            vec![
                binding_field("id", &["i16"], "attribute", None, 1),
                binding_field("text", &["Option", "String"], "text", None, 0),
            ],
        ),
        binding_struct("Count", false, vec![Field::from_struct(Some("n".to_string()), binding_type(&["Option", "i16"]), lenient, 1)]),
        binding_struct(
            "Size",
            false,
            vec![
                binding_field("w", &["i16"], "attribute", None, 1),
                binding_field("h", &["Option", "i16"], "attribute", None, 1),
            ],
        ),
        binding_struct(
            "Frame",
            true,
            vec![
                binding_field("size", &["Option", "Size"], "flatten", None, 4),
                binding_field("label", &["Vec", "Label"], "", None, 2),
                binding_field("count", &["Count"], "", None, 3),
            ],
        ),
    ])
    .unwrap()
}

#[test]
fn round_trip_of_optional_text_and_optional_flatten() {
    let schema = binding_frames();
    let label = |id: i128, text: &str| {
        Value::Struct(vec![FieldValue::Required(Value::Signed(id)), FieldValue::Optional(Some(binding_text(text)))])
    };
    let count = |n: Option<i128>| Value::Struct(vec![FieldValue::Optional(n.map(Value::Signed))]);
    let size = Value::Struct(vec![FieldValue::Required(Value::Signed(4)), FieldValue::Optional(None)]);
    for n in [None, Some(0), Some(-32768)] {
        let frame = Value::Struct(vec![
            FieldValue::Optional(Some(size_copy(&size))),
            FieldValue::Repeated(vec![label(1, "a"), label(2, "")]),
            FieldValue::Required(count(n)),
        ]);
        let node = binding_written(&frame, &schema, 5);
        assert_eq!(node.attributes.len(), 1);
        assert_eq!(Value::deserialize(&XmlElement::Node(node), &schema, 5), Ok(frame));
    }
}

fn size_copy(size: &Value) -> Value {
    match size {
        Value::Struct(fields) => Value::Struct(
            fields
                .iter()
                .map(|f| match f {
                    FieldValue::Required(Value::Signed(n)) => FieldValue::Required(Value::Signed(*n)),
                    _ => FieldValue::Optional(None),
                })
                .collect(),
        ),
        _ => panic!("not a struct"),
    }
}

#[test]
fn empty_optional_text_is_not_read_back_as_empty() {
    // a string field reads the missing text as the empty string
    let schema = binding_frames();
    let label = Value::Struct(vec![FieldValue::Required(Value::Signed(1)), FieldValue::Optional(None)]);
    let node = binding_written(&label, &schema, 2);
    assert!(node.elements.is_empty());
    assert_eq!(
        Value::deserialize(&XmlElement::Node(node), &schema, 2),
        Ok(Value::Struct(vec![
            FieldValue::Required(Value::Signed(1)),
            FieldValue::Optional(Some(binding_text(""))),
        ]))
    );
}

#[test]
fn text_beside_children_without_text_is_read_back() {
    // 0 String, 1 Break { #[attribute] kind: String },
    // 2 Style { #[attribute] bold: String },
    // 3 Para root { #[text] text: String, #[rename = "br"] breaks: Vec<Break>, #[flatten] style: Style }
    let schema = SchemaDescriptor::new(vec![
        TypeDescriptor::Text,
        binding_struct("Break", false, vec![binding_field("kind", &["String"], "attribute", None, 0)]),
        binding_struct("Style", false, vec![binding_field("bold", &["String"], "attribute", None, 0)]),
        binding_struct(
            "Para",
            true,
            vec![
                binding_field("text", &["String"], "text", None, 0),
                binding_field("breaks", &["Vec", "Break"], "", Some("br"), 1),
                binding_field("style", &["Style"], "flatten", None, 2),
            ],
        ),
    ])
    .unwrap();
    let line = |kind: &str| Value::Struct(vec![FieldValue::Required(binding_text(kind))]);
    let para = Value::Struct(vec![
        FieldValue::Required(binding_text("a b")),
        FieldValue::Repeated(vec![line("soft"), line("hard")]),
        FieldValue::Required(Value::Struct(vec![FieldValue::Required(binding_text("yes"))])),
    ]);
    let xml = se::to_string(&para, &schema, 3).unwrap();
    assert_eq!(
        xml,
        r#"<?xml version="1.0" encoding="UTF-8"?><Para bold="yes">a b<br kind="soft" /><br kind="hard" /></Para>"#
    );
    let node = binding_written(&para, &schema, 3);
    assert_eq!(Value::deserialize(&XmlElement::Node(node), &schema, 3), Ok(para));
}
