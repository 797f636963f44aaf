//! The state and layout core of a terminal proxy dashboard: a tree of proxy groups that is
//! converted from a backend snapshot, merged in place with fresh snapshots without losing
//! the navigation cursors, and laid out as rows of styled cells for a bounded viewport.

mod convert;
mod laws;
mod layout;
mod model;
mod tree;

pub use convert::{name_lt, ConvertError};
pub use laws::{
    lemma_merge_appends_new, lemma_merge_clamps_cursor, lemma_merge_idempotent,
    lemma_merge_keeps_cursor, lemma_merge_preserves_wf, lemma_merge_retains, lemma_merge_tree_wf,
};
pub use layout::{
    get_delay_style, Cell, Indicator, Latency, NameStyle, ProxyGroupFocusStatus, ProxyTreeWidget,
    INDICATOR_WIDTH,
};
pub use model::{History, Level, Log, Proxies, Proxy, ProxyType};
pub use tree::{GroupView, ItemView, ProxyGroup, ProxyItem, ProxyTree, TreeView};
