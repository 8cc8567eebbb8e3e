use easy_xml::annotation::unquote;
use easy_xml::annotation::Annotation;
use easy_xml::annotation::Delimiter;
use easy_xml::annotation::Token;
use easy_xml::schema::Attributes;

fn annotation_word(word: &str) -> Token {
    Token::Ident(word.to_string())
}

fn annotation_value(key: &str, value: &str) -> Vec<Token> {
    vec![annotation_word(key), Token::Punct('='), Token::Literal(format!("\"{}\"", value))]
}

fn annotation_of(path: &str, tokens: Vec<Token>) -> Annotation {
    Annotation {
        path: Some(path.to_string()),
        tokens: vec![Token::Group(Delimiter::Parenthesis, tokens)],
    }
}

#[test]
fn annotation_sets_each_flag() {
    for (word, pick) in [
        ("attribute", (|a: &Attributes| a.attribute) as fn(&Attributes) -> bool),
        ("text", |a: &Attributes| a.text),
        ("flatten", |a: &Attributes| a.flatten),
        ("enum", |a: &Attributes| a.enums),
        ("root", |a: &Attributes| a.root),
        ("lenient", |a: &Attributes| a.lenient),
    ] {
        let rule = Attributes::new(&vec![annotation_of("easy_xml", vec![annotation_word(word)])]);
        assert!(pick(&rule), "{}", word);
        let set = [rule.attribute, rule.text, rule.flatten, rule.enums, rule.root, rule.lenient];
        assert_eq!(set.iter().filter(|b| **b).count(), 1, "{}", word);
        assert!(rule.prefix.is_none() && rule.rename.is_none());
    }
}

#[test]
fn annotation_reads_values_without_their_quotes() {
    let mut tokens = annotation_value("rename", "Unnamed|Named|Unit");
    tokens.push(Token::Punct(','));
    tokens.push(annotation_word("enum"));
    tokens.push(Token::Punct(','));
    tokens.extend(annotation_value("prefix", "easy"));
    let rule = Attributes::new(&vec![annotation_of("easy_xml", tokens)]);
    assert_eq!(rule.rename.as_deref(), Some("Unnamed|Named|Unit"));
    assert_eq!(rule.prefix.as_deref(), Some("easy"));
    assert!(rule.enums);
    assert!(!rule.attribute && !rule.text && !rule.flatten && !rule.root && !rule.lenient);
}

#[test]
fn annotation_without_anything() {
    let rule = Attributes::new(&Vec::new());
    assert!(!rule.attribute && !rule.text && !rule.flatten && !rule.enums && !rule.root && !rule.lenient);
    assert!(rule.prefix.is_none() && rule.rename.is_none());
    assert!(rule.is_child());
}

#[test]
fn annotation_of_another_name_is_passed_over() {
    let rule = Attributes::new(&vec![
        annotation_of("serde", vec![annotation_word("attribute")]),
        Annotation { path: None, tokens: vec![Token::Group(Delimiter::Parenthesis, vec![annotation_word("text")])] },
        Annotation { path: Some("easy_xml".to_string()), tokens: Vec::new() },
        Annotation {
            path: Some("easy_xml".to_string()),
            tokens: vec![Token::Group(Delimiter::Bracket, vec![annotation_word("flatten")])],
        },
        Annotation {
            path: Some("easy_xml".to_string()),
            tokens: vec![Token::Punct('='), Token::Group(Delimiter::Parenthesis, vec![annotation_word("root")])],
        },
    ]);
    assert!(!rule.attribute && !rule.text && !rule.flatten && !rule.root);
}

#[test]
fn annotations_add_up() {
    let rule = Attributes::new(&vec![
        annotation_of("easy_xml", vec![annotation_word("attribute")]),
        annotation_of("doc", vec![annotation_word("text")]),
        annotation_of("easy_xml", annotation_value("rename", "a")),
        annotation_of("easy_xml", annotation_value("rename", "b")),
    ]);
    assert!(rule.attribute);
    assert!(!rule.text);
    assert_eq!(rule.rename.as_deref(), Some("b"));
}

#[test]
fn annotation_value_takes_two_tokens_whatever_they_are() {
    // no `=`: the two tokens behind `rename` are used up, and the value is
    // nothing
    let rule = Attributes::new(&vec![annotation_of(
        "easy_xml",
        vec![annotation_word("rename"), annotation_word("attribute"), annotation_word("text"), annotation_word("root")],
    )]);
    assert!(rule.rename.is_none());
    assert!(!rule.attribute && !rule.text);
    assert!(rule.root);

    let rule = Attributes::new(&vec![annotation_of(
        "easy_xml",
        vec![annotation_word("prefix"), Token::Punct(':'), Token::Literal("\"p\"".to_string())],
    )]);
    assert!(rule.prefix.is_none());

    let rule = Attributes::new(&vec![annotation_of("easy_xml", vec![annotation_word("prefix"), Token::Punct('=')])]);
    assert!(rule.prefix.is_none());

    let rule = Attributes::new(&vec![annotation_of(
        "easy_xml",
        vec![
            annotation_word("rename"),
            Token::Punct('='),
            Token::Group(Delimiter::Brace, Vec::new()),
            annotation_word("text"),
        ],
    )]);
    assert!(rule.rename.is_none());
    assert!(rule.text);
}

#[test]
fn annotation_passes_over_unknown_words() {
    let rule = Attributes::new(&vec![annotation_of(
        "easy_xml",
        vec![
            annotation_word("container"),
            Token::Punct(','),
            Token::Literal("\"text\"".to_string()),
            annotation_word("attribute"),
        ],
    )]);
    assert!(rule.attribute);
    assert!(!rule.text);
}

#[test]
fn quotes_are_taken_out_everywhere() {
    assert_eq!(unquote("\"abc\""), "abc");
    assert_eq!(unquote("a\"b\"c"), "abc");
    assert_eq!(unquote("\"\"\""), "");
    assert_eq!(unquote(""), "");
    assert_eq!(unquote("'a'"), "'a'");
    assert_eq!(unquote("r#\"ä\"#"), "r#ä#");
}
