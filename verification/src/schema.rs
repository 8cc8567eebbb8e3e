//! The schema descriptor: for every bindable type, its fields and the rule
//! that binds each of them to a part of an element.

use vstd::prelude::*;
use vstd::string::StringExecFns;
use crate::scalar::signed_decimal;
use crate::scalar::signed_to_string;

verus! {

/// Why a field's declaration was rejected.
#[derive(Clone, Copy, Debug, PartialEq, Eq, Structural)]
pub enum InvalidShape {
    /// `Vec` occurs more than once in the nesting chain.
    NestedRepeated,
    /// `Option` occurs more than once in the nesting chain.
    NestedOptional,
    /// `Option` occurs, but not as the outermost wrapper.
    OptionalNotOutermost,
    /// `Vec` occurs, but not as the outermost wrapper.
    RepeatedNotOutermost,
    /// A repeated field is bound to the text content.
    RepeatedText,
    /// More than one of text, attribute and flatten is set.
    BindingConflict,
    /// A field without an identifier is matched by name and has no rename.
    UnnamedWithoutRename,
    /// A field's payload type is not in the table.
    UnknownType,
    /// A field that is bound to the text or flattened has a payload type
    /// that does not precede its own type in the table.
    PayloadNotEarlier,
    /// A variant without fields lists fields.
    UnitWithFields,
}

/// How many values a field holds.
#[derive(Clone, Copy, Debug, PartialEq, Eq, Structural)]
pub enum Shape {
    /// Exactly one.
    Required,
    /// None or one.
    Optional,
    /// Any number, in order.
    Repeated,
}

/// A declared type as a chain of wrappers: the identifier of its first path
/// segment, the segments after it, and the first generic argument of the
/// first segment.
#[derive(Debug)]
pub struct TypeWapper {
    pub ident: String,
    pub path: Vec<String>,
    pub argument: Option<Box<TypeWapper>>,
}

/// Whether `s` reads `word`.
pub fn is_word(s: &String, word: &str) -> (r: bool)
    ensures
        r == (s@ == word@),
{
    let w = String::from_str(word);
    *s == w
}

/// The number of entries among the first `n` of `idents` that read `name`.
pub open spec fn count_ident(idents: Seq<Seq<char>>, name: Seq<char>, n: int) -> nat
    decreases n,
{
    if n <= 0 || n > idents.len() {
        0
    } else {
        count_ident(idents, name, n - 1) + if idents[n - 1] == name {
            1nat
        } else {
            0nat
        }
    }
}

/// `first`, then each of `rest` behind a `::`.
pub open spec fn join_path(first: Seq<char>, rest: Seq<Seq<char>>, n: int) -> Seq<char>
    decreases n,
{
    if n <= 0 || n > rest.len() {
        first
    } else {
        join_path(first, rest, n - 1) + seq![':', ':'] + rest[n - 1]
    }
}

/// The characters of each string.
pub open spec fn texts(v: Seq<String>) -> Seq<Seq<char>> {
    v.map_values(|s: String| s@)
}

impl TypeWapper {
    /// The identifiers along the chain, outermost first.
    pub open spec fn idents(self) -> Seq<Seq<char>>
        decreases self,
    {
        match self.argument {
            Some(inner) => seq![self.ident@] + inner.idents(),
            None => seq![self.ident@],
        }
    }

    /// How many levels of the chain are named `subtype`.
    pub open spec fn spec_subtype_count(self, subtype: Seq<char>) -> nat {
        count_ident(self.idents(), subtype, self.idents().len() as int)
    }

    /// Whether the chain holds a `Vec`.
    pub open spec fn spec_has_vec(self) -> bool {
        self.spec_subtype_count("Vec"@) > 0
    }

    /// Whether the chain holds an `Option`.
    pub open spec fn spec_has_option(self) -> bool {
        self.spec_subtype_count("Option"@) > 0
    }

    /// The first violation of the nesting rules, if there is one.
    pub open spec fn spec_type_check(self) -> Result<(), InvalidShape> {
        let vec = self.spec_subtype_count("Vec"@);
        let option = self.spec_subtype_count("Option"@);
        if vec >= 2 {
            Err(InvalidShape::NestedRepeated)
        } else if option >= 2 {
            Err(InvalidShape::NestedOptional)
        } else if option == 1 && self.ident@ != "Option"@ {
            Err(InvalidShape::OptionalNotOutermost)
        } else if vec == 1 && self.ident@ != "Vec"@ {
            Err(InvalidShape::RepeatedNotOutermost)
        } else {
            Ok(())
        }
    }

    /// The cardinality that the chain stands for.
    pub open spec fn spec_shape(self) -> Shape {
        if self.spec_has_vec() {
            Shape::Repeated
        } else if self.spec_has_option() {
            Shape::Optional
        } else {
            Shape::Required
        }
    }

    /// The path segments, joined by `::`.
    pub open spec fn spec_full_path(self) -> Seq<char> {
        join_path(self.ident@, texts(self.path@), self.path@.len() as int)
    }

    /// The type of the values that a field of this declared type holds:
    /// the first generic argument where the chain holds a `Vec` or an
    /// `Option` and there is such an argument, else the type itself.
    pub open spec fn spec_payload(self) -> TypeWapper {
        if (self.spec_has_vec() || self.spec_has_option()) && self.argument is Some {
            *self.argument->Some_0
        } else {
            self
        }
    }

    /// A declared type from its parts.
    pub fn new(ident: String, path: Vec<String>, argument: Option<TypeWapper>) -> (ty: TypeWapper)
        ensures
            ty.ident == ident,
            ty.path == path,
            match argument {
                Some(inner) => ty.argument == Some(Box::new(inner)),
                None => ty.argument is None,
            },
    {
        match argument {
            Some(inner) => TypeWapper { ident, path, argument: Some(Box::new(inner)) },
            None => TypeWapper { ident, path, argument: None },
        }
    }

    /// The identifier of the first path segment.
    pub fn get_ident(&self) -> (ident: String)
        ensures
            ident@ == self.ident@,
    {
        self.ident.clone()
    }

    /// The path segments, joined by `::`.
    pub fn full_path(&self) -> (full: String)
        ensures
            full@ == self.spec_full_path(),
    {
        let mut full = self.ident.clone();
        let n = self.path.len();
        let mut i: usize = 0;
        while i < n
            invariant
                n == self.path.len(),
                i <= n,
                full@ == join_path(self.ident@, texts(self.path@), i as int),
            decreases n - i,
        {
            proof {
                reveal_strlit("::");
                assert("::"@ =~= seq![':', ':']);
            }
            full.append("::");
            full.append(self.path[i].as_str());
            i += 1;
        }
        full
    }

    /// The type of the values that a field of this declared type holds.
    pub fn payload(&self) -> (inner: &TypeWapper)
        ensures
            *inner == self.spec_payload(),
    {
        if self.has_vec() || self.has_option() {
            match &self.argument {
                Some(inner) => &**inner,
                None => self,
            }
        } else {
            self
        }
    }

    /// The path of the type of the values that a field of this declared
    /// type holds: the name under which the payload type is looked up.
    pub fn payload_path(&self) -> (full: String)
        ensures
            full@ == self.spec_payload().spec_full_path(),
    {
        self.payload().full_path()
    }

    /// The first generic argument of the first segment.
    pub fn next_type(&self) -> (next: Option<&TypeWapper>)
        ensures
            match self.argument {
                Some(inner) => next == Some(&*inner),
                None => next is None,
            },
    {
        match &self.argument {
            Some(inner) => Some(&**inner),
            None => None,
        }
    }

    /// The identifiers along the chain, outermost first.
    pub fn type_for_each(&self) -> (idents: Vec<String>)
        ensures
            texts(idents@) == self.idents(),
    {
        let mut idents: Vec<String> = Vec::new();
        let mut cur: &TypeWapper = self;
        loop
            invariant_except_break
                texts(idents@) + cur.idents() == self.idents(),
            ensures
                texts(idents@) == self.idents(),
            decreases cur,
        {
            let ghost before = texts(idents@);
            idents.push(cur.ident.clone());
            assert(texts(idents@) =~= before + seq![cur.ident@]);
            match &cur.argument {
                Some(inner) => {
                    assert(texts(idents@) + inner.idents() =~= before + cur.idents());
                    cur = &**inner;
                },
                None => {
                    assert(texts(idents@) =~= before + cur.idents());
                    break ;
                },
            }
        }
        idents
    }

    /// How many levels of the chain are named `subtype`.
    pub fn subtype_count(&self, subtype: &str) -> (count: usize)
        ensures
            count == self.spec_subtype_count(subtype@),
    {
        let idents = self.type_for_each();
        let n = idents.len();
        let mut count: usize = 0;
        let mut i: usize = 0;
        while i < n
            invariant
                n == idents.len(),
                i <= n,
                count <= i,
                count == count_ident(texts(idents@), subtype@, i as int),
            decreases n - i,
        {
            if is_word(&idents[i], subtype) {
                count += 1;
            }
            i += 1;
        }
        count
    }

    /// Whether some level of the chain is named `subtype`.
    pub fn has_subtype(&self, subtype: &str) -> (r: bool)
        ensures
            r == (self.spec_subtype_count(subtype@) > 0),
    {
        self.subtype_count(subtype) > 0
    }

    /// Whether the chain holds a `Vec`.
    pub fn has_vec(&self) -> (r: bool)
        ensures
            r == self.spec_has_vec(),
    {
        self.has_subtype("Vec")
    }

    /// Whether the chain holds an `Option`.
    pub fn has_option(&self) -> (r: bool)
        ensures
            r == self.spec_has_option(),
    {
        self.has_subtype("Option")
    }

    /// Checks the nesting rules: `Vec` and `Option` occur at most once each,
    /// and only as the outermost wrapper.
    pub fn type_check(&self) -> (r: Result<(), InvalidShape>)
        ensures
            r == self.spec_type_check(),
    {
        let vec = self.subtype_count("Vec");
        let option = self.subtype_count("Option");
        if vec >= 2 {
            Err(InvalidShape::NestedRepeated)
        } else if option >= 2 {
            Err(InvalidShape::NestedOptional)
        } else if option == 1 && !is_word(&self.ident, "Option") {
            Err(InvalidShape::OptionalNotOutermost)
        } else if vec == 1 && !is_word(&self.ident, "Vec") {
            Err(InvalidShape::RepeatedNotOutermost)
        } else {
            Ok(())
        }
    }

    /// The cardinality that the chain stands for.
    pub fn shape(&self) -> (shape: Shape)
        ensures
            shape == self.spec_shape(),
    {
        if self.has_vec() {
            Shape::Repeated
        } else if self.has_option() {
            Shape::Optional
        } else {
            Shape::Required
        }
    }
}

/// The binding rule of a field, a variant or a type.
#[derive(Debug)]
pub struct Attributes {
    /// The payload is read from, and written into, the enclosing element.
    pub flatten: bool,
    /// The field is bound to the text content.
    pub text: bool,
    /// The field is bound to an attribute.
    pub attribute: bool,
    /// The prefix that a matching name must carry, and that a written name gets.
    pub prefix: Option<String>,
    /// The name to match and to write, in place of the identifier.
    pub rename: Option<String>,
    /// The rename is a list of alternative names, separated by `|`.
    pub enums: bool,
    /// The type names the element it is written into.
    pub root: bool,
    /// An optional field becomes empty where its text does not convert.
    pub lenient: bool,
}

impl Attributes {
    /// The rule with nothing set.
    pub open spec fn spec_plain(self) -> bool {
        &&& !self.flatten
        &&& !self.text
        &&& !self.attribute
        &&& self.prefix is None
        &&& self.rename is None
        &&& !self.enums
        &&& !self.root
        &&& !self.lenient
    }

    /// Bound to a child element: none of text, attribute and flatten is set.
    pub open spec fn spec_is_child(self) -> bool {
        !self.attribute && !self.text && !self.flatten
    }

    /// How many of text, attribute and flatten are set.
    pub open spec fn spec_binding_count(self) -> nat {
        (if self.text { 1nat } else { 0nat }) + (if self.attribute { 1nat } else { 0nat }) + (if self.flatten { 1nat } else { 0nat })
    }

    /// The rule with nothing set.
    pub fn plain() -> (attrs: Attributes)
        ensures
            attrs.spec_plain(),
    {
        Attributes {
            flatten: false,
            text: false,
            attribute: false,
            prefix: None,
            rename: None,
            enums: false,
            root: false,
            lenient: false,
        }
    }

    /// Whether the rule binds to a child element.
    pub fn is_child(&self) -> (r: bool)
        ensures
            r == self.spec_is_child(),
    {
        !self.attribute && !self.text && !self.flatten
    }

    /// The one part of an element that the rule binds to, where at most one
    /// of text, attribute and flatten is set.
    pub open spec fn spec_kind(self) -> Result<BindingKind, InvalidShape> {
        if self.spec_binding_count() > 1 {
            Err(InvalidShape::BindingConflict)
        } else if self.attribute {
            Ok(BindingKind::Attribute)
        } else if self.text {
            Ok(BindingKind::Text)
        } else if self.flatten {
            Ok(BindingKind::Flatten)
        } else {
            Ok(BindingKind::Child)
        }
    }

    /// The one part of an element that the rule binds to; a rule that sets
    /// more than one of text, attribute and flatten is refused.
    pub fn kind(&self) -> (r: Result<BindingKind, InvalidShape>)
        ensures
            r == self.spec_kind(),
            r matches Ok(kind) ==> kind.spec_selects(*self),
    {
        if self.attribute {
            if self.text || self.flatten {
                Err(InvalidShape::BindingConflict)
            } else {
                Ok(BindingKind::Attribute)
            }
        } else if self.text {
            if self.flatten {
                Err(InvalidShape::BindingConflict)
            } else {
                Ok(BindingKind::Text)
            }
        } else if self.flatten {
            Ok(BindingKind::Flatten)
        } else {
            Ok(BindingKind::Child)
        }
    }
}

/// Which part of an element a field is bound to.
#[derive(Clone, Copy, Debug, PartialEq, Eq, Structural)]
pub enum BindingKind {
    /// An attribute.
    Attribute,
    /// The text content.
    Text,
    /// A child element.
    Child,
    /// The enclosing element itself.
    Flatten,
}

impl BindingKind {
    /// Whether a rule binds to this part.
    pub open spec fn spec_selects(self, attrs: Attributes) -> bool {
        match self {
            BindingKind::Attribute => attrs.attribute,
            BindingKind::Text => attrs.text,
            BindingKind::Child => attrs.spec_is_child(),
            BindingKind::Flatten => attrs.flatten,
        }
    }

    /// Whether a rule binds to this part.
    pub fn selects(self, attrs: &Attributes) -> (r: bool)
        ensures
            r == self.spec_selects(*attrs),
    {
        match self {
            BindingKind::Attribute => attrs.attribute,
            BindingKind::Text => attrs.text,
            BindingKind::Child => attrs.is_child(),
            BindingKind::Flatten => attrs.flatten,
        }
    }
}

/// One field of a struct or of an enum variant.
#[derive(Debug)]
pub struct Field {
    /// The field's identifier; none for a field of a tuple variant.
    pub ident: Option<String>,
    /// The declared type.
    pub ty: TypeWapper,
    /// The binding rule.
    pub attrs: Attributes,
    /// Whether the field belongs to a struct.
    pub is_struct: bool,
    /// The position of a field without identifier, counted from 1; else -1.
    pub index: i32,
    /// The payload type, as an index into the schema's table.
    pub target: usize,
}

impl Field {
    /// The cardinality of the field.
    pub open spec fn spec_shape(self) -> Shape {
        self.ty.spec_shape()
    }

    /// The first rule that the field's declaration breaks, if any.
    pub open spec fn spec_check(self) -> Result<(), InvalidShape> {
        match self.ty.spec_type_check() {
            Err(e) => Err(e),
            Ok(()) => if self.ty.spec_has_vec() && self.attrs.text {
                Err(InvalidShape::RepeatedText)
            } else if self.attrs.spec_binding_count() > 1 {
                Err(InvalidShape::BindingConflict)
            } else {
                Ok(())
            },
        }
    }

    /// The local name under which the field is written: the rename, else the
    /// identifier, else nothing.
    pub open spec fn spec_local_name(self) -> Seq<char> {
        match self.attrs.rename {
            Some(rename) => rename@,
            None => match self.ident {
                Some(ident) => ident@,
                None => Seq::empty(),
            },
        }
    }

    /// The name by which the field is reported: its identifier, or `f_` and
    /// its position where it has none.
    pub open spec fn spec_field_name(self) -> Seq<char> {
        match self.ident {
            Some(ident) => ident@,
            None => "f_"@ + signed_decimal(self.index as int),
        }
    }

    /// The name of the slot that collects the field's values: `f_` and the
    /// identifier, or `f_` and the position where there is no identifier.
    pub open spec fn spec_var_name(self) -> Seq<char> {
        match self.ident {
            Some(ident) => "f_"@ + ident@,
            None => "f_"@ + signed_decimal(self.index as int),
        }
    }

    /// A field of a struct.
    pub fn from_struct(ident: Option<String>, ty: TypeWapper, attrs: Attributes, target: usize) -> (field: Field)
        ensures
            field == (Field { ident, ty, attrs, is_struct: true, index: -1i32, target }),
    {
        Field { ident, ty, attrs, is_struct: true, index: -1, target }
    }

    /// A field of a variant with named fields.
    pub fn from_named(ident: Option<String>, ty: TypeWapper, attrs: Attributes, target: usize) -> (field: Field)
        ensures
            field == (Field { ident, ty, attrs, is_struct: false, index: -1i32, target }),
    {
        Field { ident, ty, attrs, is_struct: false, index: -1, target }
    }

    /// A field of a tuple variant, at position `index`.
    pub fn from_unnamed(ty: TypeWapper, attrs: Attributes, index: i32, target: usize) -> (field: Field)
        ensures
            field == (Field { ident: None, ty, attrs, is_struct: false, index, target }),
    {
        Field { ident: None, ty, attrs, is_struct: false, index, target }
    }

    /// Checks the declared type's nesting, that a repeated field is not bound
    /// to the text, and that at most one of text, attribute and flatten is set.
    pub fn check(&self) -> (r: Result<(), InvalidShape>)
        ensures
            r == self.spec_check(),
    {
        match self.ty.type_check() {
            Err(e) => Err(e),
            Ok(()) => {
                let mut count: u8 = 0;
                if self.attrs.text {
                    count += 1;
                }
                if self.attrs.attribute {
                    count += 1;
                }
                if self.attrs.flatten {
                    count += 1;
                }
                if self.ty.has_vec() && self.attrs.text {
                    Err(InvalidShape::RepeatedText)
                } else if count > 1 {
                    Err(InvalidShape::BindingConflict)
                } else {
                    Ok(())
                }
            },
        }
    }

    /// The cardinality of the field.
    pub fn shape(&self) -> (shape: Shape)
        ensures
            shape == self.spec_shape(),
    {
        self.ty.shape()
    }

    /// The name of the slot that collects the field's values.
    pub fn var_name(&self) -> (name: String)
        ensures
            name@ == self.spec_var_name(),
    {
        let mut name = String::from_str("f_");
        match &self.ident {
            Some(ident) => name.append(ident.as_str()),
            None => name.append(signed_to_string(self.index as i128).as_str()),
        }
        name
    }

    /// The name by which the field is reported.
    pub fn field_name(&self) -> (name: String)
        ensures
            name@ == self.spec_field_name(),
    {
        match &self.ident {
            Some(ident) => ident.clone(),
            None => {
                let mut name = String::from_str("f_");
                name.append(signed_to_string(self.index as i128).as_str());
                name
            },
        }
    }

    /// The local name under which the field is written.
    pub fn local_name(&self) -> (name: String)
        ensures
            name@ == self.spec_local_name(),
    {
        match &self.attrs.rename {
            Some(rename) => rename.clone(),
            None => match &self.ident {
                Some(ident) => ident.clone(),
                None => String::new(),
            },
        }
    }
}

/// The integer types that a field can hold.
#[derive(Clone, Copy, Debug, PartialEq, Eq, Structural)]
pub enum NumberKind {
    U8,
    U16,
    U32,
    U64,
    U128,
    Usize,
    I8,
    I16,
    I32,
    I64,
    I128,
    Isize,
}

/// How a variant of an enum holds its fields.
#[derive(Clone, Copy, Debug, PartialEq, Eq, Structural)]
pub enum VariantKind {
    Unit,
    Unnamed,
    Named,
}

/// A struct: its name, its rule and its fields in declared order.
#[derive(Debug)]
pub struct StructDescriptor {
    pub ident: String,
    pub attrs: Attributes,
    pub fields: Vec<Field>,
}

/// A variant of an enum.
#[derive(Debug)]
pub struct VariantDescriptor {
    pub ident: String,
    pub attrs: Attributes,
    pub kind: VariantKind,
    pub fields: Vec<Field>,
}

/// An enum: its name and its variants in declared order.
#[derive(Debug)]
pub struct EnumDescriptor {
    pub ident: String,
    pub variants: Vec<VariantDescriptor>,
}

/// What the engine knows of one bindable type.
#[derive(Debug)]
pub enum TypeDescriptor {
    /// A string.
    Text,
    /// An integer.
    Number(NumberKind),
    Struct(StructDescriptor),
    Enum(EnumDescriptor),
}

/// What a field in the type at index `owner`, of a table of `len` types,
/// breaks first, if anything.
pub open spec fn field_violation(field: Field, owner: int, len: int) -> Option<InvalidShape> {
    match field.spec_check() {
        Err(e) => Some(e),
        Ok(()) => if field.ident is None && field.attrs.rename is None && !field.attrs.text && !field.attrs.flatten {
            Some(InvalidShape::UnnamedWithoutRename)
        } else if field.target >= len {
            Some(InvalidShape::UnknownType)
        } else if (field.attrs.text || field.attrs.flatten) && field.target >= owner {
            Some(InvalidShape::PayloadNotEarlier)
        } else {
            None
        },
    }
}

/// The first violation among the first `k` fields.
pub open spec fn fields_violation(fields: Seq<Field>, owner: int, len: int, k: int) -> Option<InvalidShape>
    decreases k,
{
    if k <= 0 || k > fields.len() {
        None
    } else {
        match fields_violation(fields, owner, len, k - 1) {
            Some(e) => Some(e),
            None => field_violation(fields[k - 1], owner, len),
        }
    }
}

/// The first violation in a variant: a variant without fields must list
/// none; the fields of any other are held to the rules for fields.
pub open spec fn variant_violation(variant: VariantDescriptor, owner: int, len: int) -> Option<InvalidShape> {
    if variant.kind == VariantKind::Unit && variant.fields@.len() > 0 {
        Some(InvalidShape::UnitWithFields)
    } else {
        fields_violation(variant.fields@, owner, len, variant.fields@.len() as int)
    }
}

/// The first violation among the first `k` variants.
pub open spec fn variants_violation(variants: Seq<VariantDescriptor>, owner: int, len: int, k: int) -> Option<InvalidShape>
    decreases k,
{
    if k <= 0 || k > variants.len() {
        None
    } else {
        match variants_violation(variants, owner, len, k - 1) {
            Some(e) => Some(e),
            None => variant_violation(variants[k - 1], owner, len),
        }
    }
}

/// The first violation in the type at index `owner`.
pub open spec fn type_violation(ty: TypeDescriptor, owner: int, len: int) -> Option<InvalidShape> {
    match ty {
        TypeDescriptor::Text => None,
        TypeDescriptor::Number(_) => None,
        TypeDescriptor::Struct(s) => fields_violation(s.fields@, owner, len, s.fields@.len() as int),
        TypeDescriptor::Enum(e) => variants_violation(e.variants@, owner, len, e.variants@.len() as int),
    }
}

/// The first violation among the first `k` types of the table.
pub open spec fn types_violation(types: Seq<TypeDescriptor>, k: int) -> Option<InvalidShape>
    decreases k,
{
    if k <= 0 || k > types.len() {
        None
    } else {
        match types_violation(types, k - 1) {
            Some(e) => Some(e),
            None => type_violation(types[k - 1], k - 1, types.len() as int),
        }
    }
}

/// Every field of every type keeps the rules.
pub open spec fn types_wf(types: Seq<TypeDescriptor>) -> bool {
    types_violation(types, types.len() as int) is None
}

/// The first violation among the fields, in their order.
fn check_fields(fields: &Vec<Field>, owner: usize, len: usize) -> (r: Option<InvalidShape>)
    ensures
        r == fields_violation(fields@, owner as int, len as int, fields@.len() as int),
{
    let n = fields.len();
    let mut i: usize = 0;
    while i < n
        invariant
            n == fields.len(),
            i <= n,
            fields_violation(fields@, owner as int, len as int, i as int) is None,
        decreases n - i,
    {
        let field = &fields[i];
        let found = match field.check() {
            Err(e) => Some(e),
            Ok(()) => if field.ident.is_none() && field.attrs.rename.is_none() && !field.attrs.text && !field.attrs.flatten {
                Some(InvalidShape::UnnamedWithoutRename)
            } else if field.target >= len {
                Some(InvalidShape::UnknownType)
            } else if (field.attrs.text || field.attrs.flatten) && field.target >= owner {
                Some(InvalidShape::PayloadNotEarlier)
            } else {
                None
            },
        };
        assert(found == field_violation(fields@[i as int], owner as int, len as int));
        if found.is_some() {
            proof {
                lemma_violation_stays(fields@, owner as int, len as int, i as int + 1, n as int);
            }
            return found;
        }
        i += 1;
    }
    None
}

/// A violation among the first `k` fields is the first among any more.
pub proof fn lemma_violation_stays(fields: Seq<Field>, owner: int, len: int, k: int, n: int)
    requires
        0 <= k <= n <= fields.len(),
        fields_violation(fields, owner, len, k) is Some,
    ensures
        fields_violation(fields, owner, len, n) == fields_violation(fields, owner, len, k),
    decreases n - k,
{
    if k < n {
        lemma_violation_stays(fields, owner, len, k, n - 1);
    }
}

/// A violation among the first `k` variants is the first among any more.
pub proof fn lemma_variant_violation_stays(variants: Seq<VariantDescriptor>, owner: int, len: int, k: int, n: int)
    requires
        0 <= k <= n <= variants.len(),
        variants_violation(variants, owner, len, k) is Some,
    ensures
        variants_violation(variants, owner, len, n) == variants_violation(variants, owner, len, k),
    decreases n - k,
{
    if k < n {
        lemma_variant_violation_stays(variants, owner, len, k, n - 1);
    }
}

/// A violation among the first `k` types is the first among any more.
pub proof fn lemma_type_violation_stays(types: Seq<TypeDescriptor>, k: int, n: int)
    requires
        0 <= k <= n <= types.len(),
        types_violation(types, k) is Some,
    ensures
        types_violation(types, n) == types_violation(types, k),
    decreases n - k,
{
    if k < n {
        lemma_type_violation_stays(types, k, n - 1);
    }
}

/// The first violation among the fields of the variants, in their order.
fn check_variants(variants: &Vec<VariantDescriptor>, owner: usize, len: usize) -> (r: Option<InvalidShape>)
    ensures
        r == variants_violation(variants@, owner as int, len as int, variants@.len() as int),
{
    let n = variants.len();
    let mut i: usize = 0;
    while i < n
        invariant
            n == variants.len(),
            i <= n,
            variants_violation(variants@, owner as int, len as int, i as int) is None,
        decreases n - i,
    {
        let unit = match variants[i].kind {
            VariantKind::Unit => true,
            _ => false,
        };
        let found = if unit && variants[i].fields.len() > 0 {
            Some(InvalidShape::UnitWithFields)
        } else {
            check_fields(&variants[i].fields, owner, len)
        };
        assert(found == variant_violation(variants@[i as int], owner as int, len as int));
        if found.is_some() {
            proof {
                lemma_variant_violation_stays(variants@, owner as int, len as int, i as int + 1, n as int);
            }
            return found;
        }
        i += 1;
    }
    None
}

/// The first violation in the table, in the order of its types.
fn check_types(types: &Vec<TypeDescriptor>) -> (r: Option<InvalidShape>)
    ensures
        r == types_violation(types@, types@.len() as int),
{
    let n = types.len();
    let mut i: usize = 0;
    while i < n
        invariant
            n == types.len(),
            i <= n,
            types_violation(types@, i as int) is None,
        decreases n - i,
    {
        let found = match &types[i] {
            TypeDescriptor::Text => None,
            TypeDescriptor::Number(_) => None,
            TypeDescriptor::Struct(s) => check_fields(&s.fields, i, n),
            TypeDescriptor::Enum(e) => check_variants(&e.variants, i, n),
        };
        if found.is_some() {
            proof {
                lemma_type_violation_stays(types@, i as int + 1, n as int);
            }
            return found;
        }
        i += 1;
    }
    None
}

/// The table of bindable types. A field names its payload type by its index
/// in the table. Every table that exists has passed the checks.
#[derive(Debug)]
pub struct SchemaDescriptor {
    pub(crate) types: Vec<TypeDescriptor>,
}

impl SchemaDescriptor {
    /// No field of the table breaks a rule.
    #[verifier::type_invariant]
    pub closed spec fn inv(&self) -> bool {
        types_wf(self.types@)
    }

    /// The types of the table, in order.
    pub closed spec fn types(&self) -> Seq<TypeDescriptor> {
        self.types@
    }

    /// No field of the table breaks a rule.
    pub open spec fn wf(&self) -> bool {
        types_wf(self.types())
    }

    /// Builds the table, or reports the first rule that a field breaks, in
    /// the order of the types and of their fields.
    pub fn new(types: Vec<TypeDescriptor>) -> (r: Result<SchemaDescriptor, InvalidShape>)
        ensures
            match r {
                Ok(schema) => types_wf(types@) && schema.types() == types@ && schema.wf(),
                Err(e) => types_violation(types@, types@.len() as int) == Some(e),
            },
    {
        match check_types(&types) {
            Some(e) => Err(e),
            None => Ok(SchemaDescriptor { types }),
        }
    }

    /// The number of types.
    pub fn len(&self) -> (n: usize)
        ensures
            n == self.types().len(),
    {
        self.types.len()
    }

    /// The type at index `i`.
    pub fn get(&self, i: usize) -> (ty: &TypeDescriptor)
        requires
            i < self.types().len(),
        ensures
            *ty == self.types()[i as int],
            self.wf(),
    {
        proof {
            use_type_invariant(self);
        }
        &self.types[i]
    }
}

} // verus!
