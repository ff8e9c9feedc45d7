//! The clip record shared by the history, grouping and search code.
use vstd::prelude::*;

verus! {

/// One captured clipboard entry as stored in the history database.
#[derive(Clone, Debug)]
pub struct Clip {
    pub id: i64,
    pub content: String,
    pub content_type: String,
    pub created_at: String,
    pub source_app: Option<String>,
    pub pinned: bool,
    pub deleted_at: Option<String>,
    pub was_compressed: bool,
    pub original_size: i64,
    pub compressed_size: i64,
    pub category: Option<String>,
    pub sender_name: Option<String>,
    pub sender_peer_id: Option<String>,
}

} // verus!
