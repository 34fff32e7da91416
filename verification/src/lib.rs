//! A small InnoDB-style storage core: fixed-size pages with a FIL header,
//! an LRU replacement list and buffer-pool bookkeeping, and the B+Tree node
//! (keys, leaf/internal nodes and their byte encoding, and the search,
//! range-scan and insert operations over index pages).

pub mod page;
pub mod buffer;
pub mod btree;
