//! Page-level storage: checksums, caches, the pager's bookkeeping, table
//! layout and lock-state decisions.

pub mod checksum;
pub mod btree;
pub mod pager;
pub mod table;
pub mod lock;
pub mod cache;
