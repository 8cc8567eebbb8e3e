use easy_xml::de;
use easy_xml::schema::Attributes;
use easy_xml::schema::EnumDescriptor;
use easy_xml::schema::Field;
use easy_xml::schema::NumberKind;
use easy_xml::schema::SchemaDescriptor;
use easy_xml::schema::StructDescriptor;
use easy_xml::schema::TypeDescriptor;
use easy_xml::schema::TypeWapper;
use easy_xml::schema::VariantDescriptor;
use easy_xml::schema::VariantKind;
use easy_xml::se;
use easy_xml::value::FieldValue;
use easy_xml::value::Value;

fn flatten_plain(name: &str) -> TypeWapper {
    TypeWapper::new(name.to_string(), Vec::new(), None)
}

fn flatten_base_info() -> TypeDescriptor {
    let mut age = Attributes::plain();
    age.attribute = true;
    let mut langs = Attributes::plain();
    langs.rename = Some("Lang".to_string());
    TypeDescriptor::Struct(StructDescriptor {
        ident: "BaseInfo".to_string(),
        attrs: Attributes::plain(),
        fields: vec![
            Field::from_struct(Some("age".to_string()), flatten_plain("usize"), age, 1),
            Field::from_struct(
                Some("langs".to_string()),
                TypeWapper::new("Vec".to_string(), Vec::new(), Some(flatten_plain("String"))),
                langs,
                0,
            ),
        ],
    })
}

fn flatten_rule() -> Attributes {
    let mut attrs = Attributes::plain();
    attrs.flatten = true;
    attrs
}

fn flatten_check(base_info: &FieldValue) {
    let fields = match base_info {
        FieldValue::Required(Value::Struct(fields)) => fields,
        _ => panic!("not a struct"),
    };
    assert_eq!(fields[0], FieldValue::Required(Value::Unsigned(18)));
    match &fields[1] {
        FieldValue::Repeated(langs) => assert_eq!(langs.len(), 2),
        _ => panic!("not a repeated field"),
    }
    assert_eq!(
        fields[1],
        FieldValue::Repeated(vec![Value::Text("Chinese".to_string()), Value::Text("English".to_string())])
    );
}

#[test]
fn flatten_test() {
    // struct
    {
        let mut root = Attributes::plain();
        root.root = true;
        let schema = SchemaDescriptor::new(vec![
            TypeDescriptor::Text,
            TypeDescriptor::Number(NumberKind::Usize),
            flatten_base_info(),
            TypeDescriptor::Struct(StructDescriptor {
                ident: "Person".to_string(),
                attrs: root,
                fields: vec![Field::from_struct(
                    Some("base_info".to_string()),
                    flatten_plain("BaseInfo"),
                    flatten_rule(),
                    2,
                )],
            }),
        ])
        .unwrap();

        let person = de::from_str(
            r#"
          <Person age="18">
            <Lang>Chinese</Lang>
            <Lang>English</Lang>
          </Person>
          "#,
            &schema,
            3,
        )
        .unwrap();
        match &person {
            Value::Struct(fields) => flatten_check(&fields[0]),
            _ => panic!("not a struct"),
        }

        let xml = se::to_string(&person, &schema, 3).unwrap();

        assert_eq!(
            xml.as_str(),
            r#"<?xml version="1.0" encoding="UTF-8"?><Person age="18"><Lang>Chinese</Lang><Lang>English</Lang></Person>"#
        );
    }
    {
        let schema = SchemaDescriptor::new(vec![
            TypeDescriptor::Text,
            TypeDescriptor::Number(NumberKind::Usize),
            flatten_base_info(),
            TypeDescriptor::Enum(EnumDescriptor {
                ident: "Object".to_string(),
                variants: vec![VariantDescriptor {
                    ident: "Person".to_string(),
                    attrs: Attributes::plain(),
                    kind: VariantKind::Named,
                    fields: vec![Field::from_named(
                        Some("base_info".to_string()),
                        flatten_plain("BaseInfo"),
                        flatten_rule(),
                        2,
                    )],
                }],
            }),
        ])
        .unwrap();

        let obj = de::from_str(
            r#"
        <Person age="18">
          <Lang>Chinese</Lang>
          <Lang>English</Lang>
        </Person>
        "#,
            &schema,
            3,
        )
        .unwrap();
        match &obj {
            Value::Variant(0, fields) => flatten_check(&fields[0]),
            _ => panic!("not the variant"),
        }

        let xml = se::to_string(&obj, &schema, 3).unwrap();

        assert_eq!(
            xml.as_str(),
            r#"<?xml version="1.0" encoding="UTF-8"?><Person age="18"><Lang>Chinese</Lang><Lang>English</Lang></Person>"#
        );
    }
}
