//! Incremental mirror of a remote, hierarchically organized content portal.
//!
//! The tree of remote items is kept as a local arena of typed nodes. Each
//! sync pass diffs a freshly fetched listing against a node's previous
//! children, preserves the identity of unchanged nodes, bumps versions of
//! changed files, and reports which children to download, recurse into, or
//! resolve. Transport, authentication and persistence are collaborators of
//! the host; the decisions they act on are made and verified here.

pub mod api;
pub mod download;
pub mod listing;
pub mod node;
pub mod paths;
pub mod scan;
pub mod session;
pub mod sync;
pub mod tree;
pub mod watcher;

pub use api::File;
pub use api::Note;
pub use node::get_il_node_type;
pub use node::IlNode;
pub use node::IlNodeType;
pub use node::ItemRecord;
pub use node::SyncInfo;
pub use paths::sanitize_title;
pub use scan::extract_version;
pub use session::Credentials;
pub use session::Session;
pub use session::SyncError;
pub use session::SyncStatus;
pub use sync::apply_listing;
pub use sync::apply_root_listing;
pub use sync::sync_node;
pub use sync::sync_root_node;
pub use tree::get_node;
pub use tree::set_ids;
pub use tree::Tree;
pub use watcher::add_to_file_watcher;
pub use watcher::FileSelect;
pub use watcher::FileWatcher;
