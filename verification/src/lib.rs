//! A small, non-validating scanner for friendly XML text.
//!
//! [`ElementIterator`] walks a document and hands out its tags, text runs
//! and comments; [`TagAttributeIterator`] walks the attribute text of one
//! tag and hands out its key/value pairs. Both work on slices of the text
//! they were given and copy nothing. Where a scanner cannot make sense of
//! the text it stops, and stays stopped.
//!
//! Every function states what it returns over the characters of its
//! arguments: see [`elements::next_element`] and
//! [`attributes::next_attribute`] for what one step of each scanner is.
pub mod attribute_laws;
pub mod attributes;
pub mod element_laws;
pub mod elements;
pub mod encoding;
pub mod escape;
pub mod split;
pub mod text;
pub mod whitespace;

pub use attributes::{AttributeView, TagAttribute, TagAttributeIterator};
pub use elements::{
    skip_comments, skip_empty_text_elements, trim_xml_declaration, ElementIterator, ElementView,
    XmlElement,
};
pub use escape::{revert_xml_encoding, try_revert_xml_encoding};
pub use split::{break_on_first_char, break_on_first_str};
