//! A paged key-value storage core: bit-packed page metadata, slotted pages
//! that keep their records in key order, mini-pages that double in size up to
//! the disk page size, and a circular arena that hands out page memory and
//! reclaims it in arrival order. Also a string map with JSON snapshots and the
//! record framing of an append-only log.

pub mod buffer_pool;
pub mod db;
pub mod error;
pub mod keys;
pub mod layout;
pub mod mini_page;
pub mod slotted_page;
pub mod storage;
