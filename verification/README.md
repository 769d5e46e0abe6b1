# fuel_database

A key-value database of byte keys and values in columns, with the
contract-state operations that a virtual machine runs on it, written in Verus
and proved against its contracts.

- `src/bytes.rs`: lexicographic order of byte strings and their big-endian value.
- `src/keyspace.rs`: arithmetic on 32-byte storage keys (through `primitive-types`).
- `src/codec.rs`: the stored form of values (through `bincode`, in the serde
  forms of fuel-types' 32-byte values and fuel-tx's contract code).
- `src/column.rs`, `src/error.rs`, `src/multikey.rs`: columns, errors, two-part keys.
- `src/store.rs`: the in-memory store, its iteration, and the store traits.
- `src/database.rs`, `src/transaction.rs`: the database and its transactions.
- `src/tables.rs`: 32-byte values, contract code, salts, roots and state,
  stored in their columns of any store.
- `src/vm_database.rs`: the block view of a database and the contract-state
  range reads, writes and removals.
- `app/`: serde-typed access, error and column types with outside derives, and
  conversions from fuel-core's header and storage types.
