//! The name matcher: whether a qualified name fits a binding rule.

use vstd::prelude::*;
use vstd::string::StrSliceExecFns;
use vstd::string::StringExecFns;
use crate::schema::Attributes;
use crate::schema::Field;
use crate::tree::NameView;
use crate::tree::XmlName;

verus! {

/// `rule[from..to]` is one of the names that the `|` signs of `rule` separate.
pub open spec fn is_alternative(rule: Seq<char>, from: int, to: int) -> bool {
    &&& 0 <= from <= to <= rule.len()
    &&& from == 0 || rule[from - 1] == '|'
    &&& to == rule.len() || rule[to] == '|'
    &&& forall|k: int| from <= k < to ==> rule[k] != '|'
}

/// `name` is one of the names that the `|` signs of `rule` separate.
pub open spec fn alternative_matches(rule: Seq<char>, name: Seq<char>) -> bool {
    exists|from: int, to: int| #[trigger] is_alternative(rule, from, to) && rule.subrange(from, to) == name
}

/// Whether `name` fits the rule `attrs` of an item called `ident`.
///
/// The local name must equal the rename, or one of its alternatives where
/// the rule lists alternatives, or the identifier where there is no rename.
/// Where the rule asks for a prefix, the name must carry exactly that one.
pub open spec fn name_matches(ident: Option<Seq<char>>, attrs: Attributes, name: NameView) -> bool {
    &&& match attrs.rename {
        Some(rename) => if attrs.enums {
            alternative_matches(rename@, name.local_name)
        } else {
            rename@ == name.local_name
        },
        None => ident == Some(name.local_name),
    }
    &&& match attrs.prefix {
        Some(prefix) => name.prefix == Some(prefix@),
        None => true,
    }
}

/// Whether `local` is one of the names that the `|` signs of `rule` separate.
pub fn matches_alternative(rule: &str, local: &String) -> (r: bool)
    ensures
        r == alternative_matches(rule@, local@),
{
    let n = rule.unicode_len();
    let mut start: usize = 0;
    let mut i: usize = 0;
    while i < n
        invariant
            n == rule@.len(),
            start <= i <= n,
            start == 0 || rule@[start - 1] == '|',
            forall|k: int| start <= k < i ==> rule@[k] != '|',
            forall|from: int, to: int| #[trigger]
                is_alternative(rule@, from, to) && to < start ==> rule@.subrange(from, to) != local@,
        decreases n - i,
    {
        if rule.get_char(i) == '|' {
            assert(is_alternative(rule@, start as int, i as int));
            let piece = String::from_str(rule.substring_char(start, i));
            if piece == *local {
                return true;
            }
            assert forall|from: int, to: int| #[trigger]
                is_alternative(rule@, from, to) && to < i + 1 implies rule@.subrange(from, to) != local@ by {
                if to >= start {
                    assert(to == i);
                    assert(from == start);
                }
            }
            start = i + 1;
        }
        i += 1;
    }
    assert(is_alternative(rule@, start as int, n as int));
    let piece = String::from_str(rule.substring_char(start, n));
    if piece == *local {
        return true;
    }
    assert forall|from: int, to: int| #[trigger] is_alternative(rule@, from, to) implies rule@.subrange(
        from,
        to,
    ) != local@ by {
        if to >= start {
            assert(to == n);
            assert(from == start);
        }
    }
    false
}

/// Whether `name` fits the rule `attrs` of an item called `val_name`.
pub fn owned_name_match(val_name: &str, attrs: &Attributes, name: &XmlName) -> (r: bool)
    ensures
        r == name_matches(Some(val_name@), *attrs, name@),
{
    let local = match &attrs.rename {
        Some(rename) => if attrs.enums {
            matches_alternative(rename.as_str(), &name.local_name)
        } else {
            *rename == name.local_name
        },
        None => String::from_str(val_name) == name.local_name,
    };
    local && prefix_match(attrs, name)
}

/// Whether `name` carries the prefix that `attrs` asks for, if it asks for one.
pub fn prefix_match(attrs: &Attributes, name: &XmlName) -> (r: bool)
    ensures
        r == match attrs.prefix {
            Some(prefix) => name@.prefix == Some(prefix@),
            None => true,
        },
{
    match &attrs.prefix {
        Some(prefix) => match &name.prefix {
            Some(actual) => *actual == *prefix,
            None => false,
        },
        None => true,
    }
}

impl Field {
    /// The identifier as the matcher sees it.
    pub open spec fn spec_ident(self) -> Option<Seq<char>> {
        match self.ident {
            Some(ident) => Some(ident@),
            None => None,
        }
    }

    /// Whether `name` fits the field's rule.
    pub open spec fn spec_matches(self, name: NameView) -> bool {
        name_matches(self.spec_ident(), self.attrs, name)
    }

    /// Whether `name` fits the field's rule. A field without identifier and
    /// without rename fits no name.
    pub fn de_owned_name_match(&self, name: &XmlName) -> (r: bool)
        ensures
            r == self.spec_matches(name@),
    {
        match &self.ident {
            Some(ident) => owned_name_match(ident.as_str(), &self.attrs, name),
            None => {
                let local = match &self.attrs.rename {
                    Some(rename) => if self.attrs.enums {
                        matches_alternative(rename.as_str(), &name.local_name)
                    } else {
                        *rename == name.local_name
                    },
                    None => false,
                };
                local && prefix_match(&self.attrs, name)
            },
        }
    }
}

} // verus!
