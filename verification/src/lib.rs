//! Binding of typed records to and from a generic XML element tree.
//!
//! A schema descriptor lists, for every bindable type, the fields and the
//! rule by which each field is drawn from an element: an attribute, the text
//! content, a child element, or the enclosing element itself. The engine in
//! [`de`] walks a tree and fills a record; the engine in [`se`] walks a record
//! and builds a tree. Text becomes a tree, and a tree becomes text, through
//! the `xml` crate: [`reader`] and [`writer`] hold what is taken on trust of
//! it. [`laws`] states what holds of every schema, record and tree.

pub mod tree;
pub mod schema;
pub mod annotation;
pub mod matcher;
pub mod value;
pub mod scalar;
pub mod scalar_lemmas;
pub mod reader;
pub mod writer;
pub mod de;
pub mod de_lemmas;
pub mod se;
pub mod se_lemmas;
pub mod roundtrip;
pub mod laws;
