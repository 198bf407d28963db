//! A catalog of hierarchical domain names: documents are validated and merged
//! into one labeled tree, which is then flattened into dotted paths and
//! compacted into a nested mapping.

pub mod compact;
pub mod document;
pub mod error;
pub mod flatten;
pub mod loader;
pub mod nested;
pub mod output;
pub mod parser;
pub mod text;
pub mod tree;

pub use crate::compact::{compact_children, CompactEntry, CompactTree, LEAF_MARKER};
pub use crate::document::{DocEntry, DocValue};
pub use crate::error::{DataHandlingError, ParsingError};
pub use crate::flatten::flatten_domain_tree_item_with_prefix;
pub use crate::loader::{is_yaml_file, read_documents};
pub use crate::nested::NestedSimilar;
pub use crate::output::{paths_to_json, paths_to_yaml, OutputError};
pub use crate::parser::{merge_and_validate_docs, parse_domain_item, parse_domain_list};
pub use crate::tree::{DomainTreeItem, DomainTreeRoot};
