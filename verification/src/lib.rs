//! A sink that materialises HTML tree-construction instructions as nodes of
//! an `sxd_document` DOM, with machine-checked contracts for every operation.

pub mod error;
pub mod name;
pub mod model;
pub mod lemmas;
pub mod content;
pub mod sxd;
pub mod handle;
pub mod util;
pub mod sink;

pub use error::Error;
pub use handle::{Handle, NodeOrText};
pub use model::{Arena, ChildOfElement, ChildOfRoot, ParentOfChild};
pub use name::{qualname_as_qname, qualname_from_qname, Attribute, QName, QualName};
pub use sink::{new_package, DocHtmlSink, QuirksMode, Unsupported};
pub use util::{
    child_of_element_remove_from_parent, node_or_text_into_child_of_element, node_or_text_into_child_of_root,
    parent_of_child_append_node_or_text,
};
