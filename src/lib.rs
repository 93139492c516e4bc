//! Flattening selected clusters out of a register-description document: the
//! document's tree, the names and offsets of its elements, the plan of each
//! edit, and the engines that splice the edits into the text.
use vstd::prelude::*;

pub mod replace;
pub mod select;
pub mod svd;

pub use select::{parse_lines, select_clusters};
pub use replace::{apply_replaces, apply_replaces_lines, check_batch, BatchError, ReplaceRange};
pub use svd::{
    create_jenga_op_for_cluster, get_address_offset, get_children_by_tag, get_descendants_by_tag,
    get_name, get_svd_parent_chain, interpret_svd_num, Node, SvdError, Tag, Tree,
};

verus! {

} // verus!
