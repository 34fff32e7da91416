# mini_innodb

A small InnoDB-style storage engine core, written in Verus.

`src/` is the verified library:

- `page/` — 16 KiB pages with a big-endian FIL header and trailer
  (`codec` holds the big-endian encoding, `page` the header fields, the
  CRC-32 checksum and the user data area), page ids and page types.
- `buffer/` — the LRU list (a doubly linked list kept in a map, viewed as
  the sequence of frame ids from most to least recently used) and the
  buffer-pool bookkeeping: page table, frames with pin counts and dirty
  flags, free list, and the choice of the frame to reuse.
- `btree/` — keys (byte strings in lexicographic order), leaf and internal
  nodes, their byte format, the node decisions (descending to a child,
  when and how nodes split, range filtering), and the search, range-scan
  and insert operations as step machines (`ops`): each step takes what
  happened to a page and answers with the next page action. `store`
  models the index pages as a map from page number to node and proves what
  the operations compute over it: a search finds the value the tree holds,
  a range scan over a well-formed tree returns exactly the pairs between
  its bounds in key order, and an insertion into a well-formed tree
  (`shape`: leaves at one depth, keys in their children's ranges, leaves
  linked both ways in key order, at most four entries per node) leaves a
  well-formed tree holding the new pair and every other value unchanged,
  through leaf and internal splits and root growth.
  An operation answers `Corrupt` (and stops) where a page holds the wrong
  kind of node for the step, and where a leaf it searches or inserts into,
  or an internal node that gains an entry, holds its keys out of order.
  Such a page was not written by the tree: a binary search or partition
  point over keys out of order has no defined result, so the operation
  does not go on with one. The application reports it as a panic.

`app/` holds what needs the file system and threads: the tablespace file,
the lock-protected buffer pool with its page guards, and the B+Tree that
performs the operations' page actions through the buffer pool.

`tests/` exercises the library on concrete values.
