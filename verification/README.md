# libnucleus

A tiny SQLite-compatible storage engine, written and verified in Verus: an in-memory B+ tree, the
page store that holds its nodes, and a parser for the header of a SQLite database file.

## Layout

- `src/bptree/`: the tree. `entries.rs` says what the operations mean on the sorted sequence of a
  tree's entries; `mod.rs` (lookup), `insert.rs`, `delete.rs`, `rebalance.rs` and `iter.rs` hold the
  code, and `error.rs` the errors; `shape/` describes the structure of a well-formed tree and how
  each step changes it; `laws.rs` states what holds of the tree as a whole.
- `src/pager/`: the page store, and the database header.
- `src/order.rs`, `src/range.rs`, `src/text.rs`: the key order, ranges of keys, numbers as text.
- `app/`: the programs `nucleusdb`, which prints the header of a database file, and `nucleus`.
- `tests/`: the library at work on concrete values.

## Reading the contracts

A key type is *lawful* (`order::lawful`) if its comparison operators agree on one total order and a
clone of a key has the rank of the key. The tree asks for nothing more: a key that is deleted makes
room by moving keys between nodes, and one of these moves clones a key. So `delete` promises the
entries that remain up to such clones (`entries::recloned`); where a clone of a key is the key, this
is equality (`laws::law_exact_clones`).

A tree is *aligned* (`BPlusTree::aligned`) if every separator has the rank of the first key of the
leaf to its right, at whatever level it stands (`laws::law_separator_follows`, `laws::law_mirrored`).
A new tree is, and an insert keeps it so. A delete that changes the first key of a leaf repairs the
separator in the parent of the leaf. Where the leaf is the first child, the separator stands further
up and is left as a bound (`BPlusTree::uncovers`); every other delete keeps the tree aligned.

What `insert` and `delete` do to the pages is said by `BPlusTree::grew` and `BPlusTree::shrank`;
`laws.rs` draws from them which pages stay as they were, and when the tree gets taller.

A lookup, an insert or a delete whose way down meets an unknown page or an internal node with too
few children (`BPlusTree::misled`) ends with that error and leaves the tree as it is; a scan ends at
the first page that is unknown or no leaf.

A tree of height `h` needs at most `h + 1` new pages for an insert (`laws::law_pages_needed`), and
`insert` asks that this many page numbers are left.

Beyond Verus and vstd, nothing is trusted but the declarations of `Bound`, `RangeFrom`, `RangeTo`,
`RangeToInclusive` and `RangeFull`, and what the standard library documents of the accessors of
`RangeInclusive` (all in `src/range.rs`).
