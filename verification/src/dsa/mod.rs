pub mod persistent_list;
pub mod skip_list;
pub mod union_find;

pub use persistent_list::{PersistentList, VersionHistory};
pub use union_find::{should_group, ClipGroupManager, UnionFind};
