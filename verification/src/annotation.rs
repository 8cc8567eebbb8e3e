//! Binding rules as they are written down: a list of words in parentheses
//! behind the name `easy_xml`, some of them with a value.

use vstd::prelude::*;
use vstd::string::StrSliceExecFns;
use vstd::string::StringExecFns;
use crate::schema::Attributes;
use crate::schema::is_word;
use crate::tree::option_text;

verus! {

/// The brackets round a group of tokens.
#[derive(Clone, Copy, Debug, PartialEq, Eq, Structural)]
pub enum Delimiter {
    Parenthesis,
    Brace,
    Bracket,
    Invisible,
}

/// One token of an annotation.
#[derive(Debug)]
pub enum Token {
    /// Tokens in brackets.
    Group(Delimiter, Vec<Token>),
    /// A word.
    Ident(String),
    /// A single sign.
    Punct(char),
    /// A literal, as it is written: a string with its quotes.
    Literal(String),
}

/// One annotation of an item: the name it begins with, where that is a
/// single word, and the tokens behind it.
#[derive(Debug)]
pub struct Annotation {
    pub path: Option<String>,
    pub tokens: Vec<Token>,
}

/// The mathematical value of a binding rule.
pub struct AttributesView {
    pub flatten: bool,
    pub text: bool,
    pub attribute: bool,
    pub prefix: Option<Seq<char>>,
    pub rename: Option<Seq<char>>,
    pub enums: bool,
    pub root: bool,
    pub lenient: bool,
}

impl View for Attributes {
    type V = AttributesView;

    open spec fn view(&self) -> AttributesView {
        AttributesView {
            flatten: self.flatten,
            text: self.text,
            attribute: self.attribute,
            prefix: option_text(self.prefix),
            rename: option_text(self.rename),
            enums: self.enums,
            root: self.root,
            lenient: self.lenient,
        }
    }
}

impl AttributesView {
    /// The rule with nothing set.
    pub open spec fn plain() -> AttributesView {
        AttributesView {
            flatten: false,
            text: false,
            attribute: false,
            prefix: None,
            rename: None,
            enums: false,
            root: false,
            lenient: false,
        }
    }
}

/// The first `n` characters of `s` without the double quotes among them.
pub open spec fn without_quotes(s: Seq<char>, n: int) -> Seq<char>
    decreases n,
{
    if n <= 0 || n > s.len() {
        Seq::empty()
    } else if s[n - 1] == '"' {
        without_quotes(s, n - 1)
    } else {
        without_quotes(s, n - 1).push(s[n - 1])
    }
}

/// The value behind a word: where an `=` and a literal follow at index
/// `at`, the literal without its quotes.
pub open spec fn token_value(tokens: Seq<Token>, at: int) -> Option<Seq<char>> {
    if 0 <= at && at + 1 < tokens.len() {
        match (tokens[at], tokens[at + 1]) {
            (Token::Punct(sign), Token::Literal(value)) => if sign == '=' {
                Some(without_quotes(value@, value@.len() as int))
            } else {
                None
            },
            _ => None,
        }
    } else {
        None
    }
}

/// The index behind the word at index `at` and the two tokens of its value,
/// or the end of the tokens where fewer follow.
pub open spec fn behind_value(tokens: Seq<Token>, at: int) -> int {
    if at + 3 <= tokens.len() {
        at + 3
    } else {
        tokens.len() as int
    }
}

/// The rule after the tokens from index `from` on are read. A word sets its
/// flag; `prefix` and `rename` take the two tokens behind them as their
/// value, whatever these are; any other token is passed over.
pub open spec fn parse_tokens(tokens: Seq<Token>, from: int, rule: AttributesView) -> AttributesView
    decreases tokens.len() - from,
{
    if from < 0 || from >= tokens.len() {
        rule
    } else {
        match tokens[from] {
            Token::Ident(word) => if word@ == "attribute"@ {
                parse_tokens(tokens, from + 1, AttributesView { attribute: true, ..rule })
            } else if word@ == "text"@ {
                parse_tokens(tokens, from + 1, AttributesView { text: true, ..rule })
            } else if word@ == "flatten"@ {
                parse_tokens(tokens, from + 1, AttributesView { flatten: true, ..rule })
            } else if word@ == "enum"@ {
                parse_tokens(tokens, from + 1, AttributesView { enums: true, ..rule })
            } else if word@ == "root"@ {
                parse_tokens(tokens, from + 1, AttributesView { root: true, ..rule })
            } else if word@ == "lenient"@ {
                parse_tokens(tokens, from + 1, AttributesView { lenient: true, ..rule })
            } else if word@ == "prefix"@ {
                parse_tokens(tokens, behind_value(tokens, from), AttributesView { prefix: token_value(tokens, from + 1), ..rule })
            } else if word@ == "rename"@ {
                parse_tokens(tokens, behind_value(tokens, from), AttributesView { rename: token_value(tokens, from + 1), ..rule })
            } else {
                parse_tokens(tokens, from + 1, rule)
            },
            _ => parse_tokens(tokens, from + 1, rule),
        }
    }
}

/// The rule after the annotations from index `from` on are read: those
/// named `easy_xml` that begin with a group in parentheses.
pub open spec fn parse_annotations(annotations: Seq<Annotation>, from: int, rule: AttributesView) -> AttributesView
    decreases annotations.len() - from,
{
    if from < 0 || from >= annotations.len() {
        rule
    } else {
        let read = match annotations[from].path {
            Some(path) => if path@ == "easy_xml"@ && annotations[from].tokens@.len() > 0 {
                match annotations[from].tokens@[0] {
                    Token::Group(Delimiter::Parenthesis, inner) => parse_tokens(inner@, 0, rule),
                    _ => rule,
                }
            } else {
                rule
            },
            None => rule,
        };
        parse_annotations(annotations, from + 1, read)
    }
}

/// `s` without its double quotes.
pub fn unquote(s: &str) -> (r: String)
    ensures
        r@ == without_quotes(s@, s@.len() as int),
{
    let n = s.unicode_len();
    let mut r = String::new();
    let mut start: usize = 0;
    let mut i: usize = 0;
    assert(r@ + s@.subrange(0, 0) =~= without_quotes(s@, 0));
    while i < n
        invariant
            n == s@.len(),
            start <= i <= n,
            r@ + s@.subrange(start as int, i as int) == without_quotes(s@, i as int),
        decreases n - i,
    {
        if s.get_char(i) == '"' {
            r.append(s.substring_char(start, i));
            start = i + 1;
            assert(r@ + s@.subrange(start as int, start as int) =~= without_quotes(s@, i + 1));
        } else {
            assert(r@ + s@.subrange(start as int, i + 1) =~= (r@ + s@.subrange(start as int, i as int)).push(s@[i as int]));
        }
        i += 1;
    }
    r.append(s.substring_char(start, n));
    r
}

/// The value behind a word.
fn get_value(tokens: &Vec<Token>, at: usize) -> (r: Option<String>)
    ensures
        option_text(r) == token_value(tokens@, at as int),
{
    if at < tokens.len() && at + 1 < tokens.len() {
        match (&tokens[at], &tokens[at + 1]) {
            (Token::Punct(sign), Token::Literal(value)) => if *sign == '=' {
                Some(unquote(value.as_str()))
            } else {
                None
            },
            _ => None,
        }
    } else {
        None
    }
}

/// Reads the tokens of one annotation into the rule.
fn read_tokens(tokens: &Vec<Token>, rule: &mut Attributes)
    ensures
        final(rule)@ == parse_tokens(tokens@, 0, old(rule)@),
{
    let n = tokens.len();
    let mut i: usize = 0;
    while i < n
        invariant
            n == tokens.len(),
            i <= n,
            parse_tokens(tokens@, i as int, rule@) == parse_tokens(tokens@, 0, old(rule)@),
        decreases n - i,
    {
        let mut step: usize = 1;
        match &tokens[i] {
            Token::Ident(word) => {
                if is_word(word, "attribute") {
                    rule.attribute = true;
                } else if is_word(word, "text") {
                    rule.text = true;
                } else if is_word(word, "flatten") {
                    rule.flatten = true;
                } else if is_word(word, "enum") {
                    rule.enums = true;
                } else if is_word(word, "root") {
                    rule.root = true;
                } else if is_word(word, "lenient") {
                    rule.lenient = true;
                } else if is_word(word, "prefix") {
                    rule.prefix = get_value(tokens, i + 1);
                    step = 3;
                } else if is_word(word, "rename") {
                    rule.rename = get_value(tokens, i + 1);
                    step = 3;
                }
            },
            _ => {},
        }
        if n - i < step {
            i = n;
        } else {
            i = i + step;
        }
    }
}

impl Attributes {
    /// The rule that the annotations of an item write down.
    pub fn new(attrs: &Vec<Annotation>) -> (rule: Attributes)
        ensures
            rule@ == parse_annotations(attrs@, 0, AttributesView::plain()),
    {
        let mut rule = Attributes::plain();
        let n = attrs.len();
        let mut i: usize = 0;
        while i < n
            invariant
                n == attrs.len(),
                i <= n,
                parse_annotations(attrs@, i as int, rule@) == parse_annotations(attrs@, 0, AttributesView::plain()),
            decreases n - i,
        {
            match &attrs[i].path {
                Some(path) => {
                    if is_word(path, "easy_xml") && attrs[i].tokens.len() > 0 {
                        match &attrs[i].tokens[0] {
                            Token::Group(Delimiter::Parenthesis, inner) => read_tokens(inner, &mut rule),
                            _ => {},
                        }
                    }
                },
                None => {},
            }
            i += 1;
        }
        rule
    }
}

} // verus!
