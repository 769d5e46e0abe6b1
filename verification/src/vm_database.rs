//! The view of a database that a virtual machine runs against while it
//! executes the transactions of a block: the block's height, time and
//! coinbase, and the contract-state range operations.
use vstd::prelude::*;
use crate::bytes::{
    be_value, bytes_eq, bytes_lt, key_space, lemma_be_bytes_value, lemma_be_value_bound, lemma_be_value_bytes,
    lemma_lex_common_prefix, lemma_lex_is_numeric, lex_le, lex_lt,
};
use crate::codec::{byte_string_encoding, bytes32_decoding, bytes32_encoding, decode_bytes32};
use crate::column::{Column, IterDirection};
use crate::tables::{
    bytes32_read, code_undecodable, contract_info_encoding, get_bytes32, info_undecodable, init_contract_state,
    init_failed_at, init_meets_undecodable, insert_bytes32, remove_bytes32, state_initialized,
    storage_contract_insert, storage_contract_root_insert,
};
use crate::error::{Error, KvStoreError, OtherError};
use crate::keyspace::{key_add, key_after};
use crate::multikey::MultiKey;
use crate::store::{delete_refused, get_refused, is_iteration, lookup, opt_bytes, pairs_view, put_refused, KeyValueStore};

verus! {

/// The header fields of a block that the virtual machine reads.
#[derive(Copy, Clone, Debug, PartialEq, Eq, Structural)]
pub struct ConsensusHeader {
    /// The block's height.
    pub height: u32,
    /// The block's time, in TAI64 seconds.
    pub time: u64,
}

/// Access to the blocks that a database holds.
pub trait FuelBlockTrait {
    /// The time, in TAI64 seconds, of the block at `height`.
    fn block_time(&self, height: u32) -> Result<u64, Error>;

    /// The id of the block at `height`, if the database holds that block.
    fn get_block_id(&self, height: u32) -> Result<Option<[u8; 32]>, Error>;
}

/// `tai64::Tai64::now()`, the current time in TAI64 seconds. It reads the
/// system clock, so nothing is stated of its value.
#[verifier::external_body]
fn tai64_now() -> u64 {
    tai64::Tai64::now().0
}

/// `t` is a time that a reading of the system clock (`tai64_now`) gave.
pub closed spec fn clock_reading(t: u64) -> bool {
    call_ensures(tai64_now, (), t)
}

/// A database together with the block that is being executed on it.
#[derive(Debug)]
pub struct VmDatabase<D> {
    current_block_height: u32,
    current_timestamp: u64,
    coinbase: [u8; 32],
    database: D,
}

impl<D> VmDatabase<D> {
    /// The height of the block being executed.
    pub closed spec fn spec_block_height(&self) -> u32 {
        self.current_block_height
    }

    /// The time of the block being executed.
    pub closed spec fn spec_timestamp(&self) -> u64 {
        self.current_timestamp
    }

    /// The coinbase contract of the block being executed.
    pub closed spec fn spec_coinbase(&self) -> Seq<u8> {
        self.coinbase@
    }

    /// The underlying database.
    pub closed spec fn spec_database(&self) -> D {
        self.database
    }

    /// Two values agree on the block being executed.
    pub open spec fn same_block(&self, other: &Self) -> bool {
        &&& self.spec_block_height() == other.spec_block_height()
        &&& self.spec_timestamp() == other.spec_timestamp()
        &&& self.spec_coinbase() == other.spec_coinbase()
    }

    /// A view of `database` for executing the block of `header`.
    pub fn new(database: D, header: &ConsensusHeader, coinbase: [u8; 32]) -> (r: Self)
        ensures
            r.spec_block_height() == header.height,
            r.spec_timestamp() == header.time,
            r.spec_coinbase() == coinbase@,
            r.spec_database() == database,
    {
        VmDatabase {
            current_block_height: header.height,
            current_timestamp: header.time,
            coinbase,
            database,
        }
    }

    /// The underlying database, to change.
    pub fn database_mut(&mut self) -> (r: &mut D)
        ensures
            *r == old(self).spec_database(),
            final(self).spec_database() == *final(r),
            final(self).same_block(old(self)),
    {
        &mut self.database
    }

    /// The underlying database, given back when the block is done.
    pub fn into_database(self) -> (r: D)
        ensures
            r == self.spec_database(),
    {
        self.database
    }

    /// The height of the block being executed.
    pub fn block_height(&self) -> (r: Result<u32, Error>)
        ensures
            r matches Ok(h) && h == self.spec_block_height(),
    {
        Ok(self.current_block_height)
    }

    /// The coinbase contract of the block being executed.
    pub fn coinbase(&self) -> (r: Result<[u8; 32], Error>)
        ensures
            r matches Ok(c) && c@ == self.spec_coinbase(),
    {
        Ok(self.coinbase)
    }
}

/// The block hash that a lookup of the block id gives: the id when the block
/// is found, a not-found error when it is not, and the lookup's own error.
pub open spec fn block_hash_from_lookup(found: Result<Option<[u8; 32]>, Error>, r: Result<[u8; 32], Error>) -> bool {
    match found {
        Ok(Some(id)) => r matches Ok(h) && h == id,
        Ok(None) => r matches Err(Error::DatabaseError(e)) && *e matches KvStoreError::NotFound(name, _) && name@ == "BlockId"@,
        Err(e) => r == Err::<[u8; 32], Error>(e),
    }
}

/// The block hash is the stored block id itself, byte for byte; a missing
/// block is a not-found error for `BlockId`, and the lookup's own error is
/// passed on.
pub proof fn lemma_block_hash_from_lookup(found: Result<Option<[u8; 32]>, Error>, r: Result<[u8; 32], Error>)
    requires
        block_hash_from_lookup(found, r),
    ensures
        found matches Ok(Some(id)) ==> r == Ok::<[u8; 32], Error>(id) && forall|i: int| 0 <= i < 32 ==> r->Ok_0[i] == id[i],
        found matches Ok(None) ==> r matches Err(Error::DatabaseError(e)) && *e matches KvStoreError::NotFound(name, _)
            && name@ == "BlockId"@,
        found matches Err(e) ==> r == Err::<[u8; 32], Error>(e),
{
}

/// Turns the lookup of a block id into the block hash.
pub fn block_hash_of(found: Result<Option<[u8; 32]>, Error>) -> (r: Result<[u8; 32], Error>)
    ensures
        block_hash_from_lookup(found, r),
{
    match found {
        Ok(Some(id)) => Ok(id),
        Ok(None) => Err(Error::DatabaseError(Box::new(KvStoreError::NotFound("BlockId", "VmDatabase::block_hash")))),
        Err(e) => Err(e),
    }
}

impl<D: FuelBlockTrait> VmDatabase<D> {
    /// The time of the block at `height`: an error above the current block,
    /// the current block's time at it, and the stored block's time below it.
    pub fn timestamp(&self, height: u32) -> (r: Result<u64, Error>)
        ensures
            height > self.spec_block_height() ==> r matches Err(Error::Other(OtherError::BlockHeightTooHigh)),
            height == self.spec_block_height() ==> (r matches Ok(t) && t == self.spec_timestamp()),
            height < self.spec_block_height() ==> call_ensures(D::block_time, (&self.spec_database(), height), r),
    {
        if height > self.current_block_height {
            Err(Error::Other(OtherError::BlockHeightTooHigh))
        } else if height == self.current_block_height {
            Ok(self.current_timestamp)
        } else {
            self.database.block_time(height)
        }
    }

    /// The hash of the block at `height`: zero for the genesis block and for
    /// heights at or above the current block, else the stored block id.
    pub fn block_hash(&self, height: u32) -> (r: Result<[u8; 32], Error>)
        ensures
            height >= self.spec_block_height() || height == 0 ==> (r matches Ok(h) && h@ == Seq::new(32, |i: int| 0u8)),
            height < self.spec_block_height() && height != 0 ==> exists|found: Result<Option<[u8; 32]>, Error>|
                call_ensures(D::get_block_id, (&self.spec_database(), height), found) && block_hash_from_lookup(found, r),
    {
        if height >= self.current_block_height || height == 0 {
            let zero = [0u8; 32];
            assert(zero@ =~= Seq::new(32, |i: int| 0u8));
            Ok(zero)
        } else {
            let found = self.database.get_block_id(height);
            block_hash_of(found)
        }
    }
}

impl<D> VmDatabase<D> {
    /// The view that a default view of `database` is, read at time `now`:
    /// height zero, a zero coinbase, and `now` as the block's time.
    pub fn at_time(database: D, now: u64) -> (r: Self)
        ensures
            r.spec_block_height() == 0,
            r.spec_timestamp() == now,
            r.spec_coinbase() == Seq::new(32, |i: int| 0u8),
            r.spec_database() == database,
    {
        let coinbase = [0u8; 32];
        assert(coinbase@ =~= Seq::new(32, |i: int| 0u8));
        VmDatabase { current_block_height: 0, current_timestamp: now, coinbase, database }
    }
}

impl<D: Default> Default for VmDatabase<D> {
    /// A view of `D`'s default database at height zero with a zero coinbase,
    /// stamped with the current time.
    fn default() -> (r: Self)
        ensures
            r.spec_block_height() == 0,
            r.spec_coinbase() == Seq::new(32, |i: int| 0u8),
            call_ensures(D::default, (), r.spec_database()),
            clock_reading(r.spec_timestamp()),
    {
        let database = D::default();
        Self::at_time(database, tai64_now())
    }
}

impl<D: Default> VmDatabase<D> {
    /// A default view (height zero, zero coinbase, the current time) of `database`.
    pub fn default_from_database(database: D) -> (r: Self)
        ensures
            r.spec_block_height() == 0,
            r.spec_coinbase() == Seq::new(32, |i: int| 0u8),
            r.spec_database() == database,
            clock_reading(r.spec_timestamp()),
    {
        Self::at_time(database, tai64_now())
    }
}

/// The key under which slot `i` places after `start` of contract `cid` is stored.
pub open spec fn slot_key(cid: Seq<u8>, start: Seq<u8>, i: int) -> Seq<u8> {
    cid + key_after(start, i)
}

/// Whether the value stored under `k` in the contract-state column does not
/// decode as a 32-byte value.
pub open spec fn undecodable_at(m: Map<(Column, Seq<u8>), Seq<u8>>, k: Seq<u8>) -> bool {
    m.contains_key((Column::ContractsState, k)) && bytes32_decoding(m[(Column::ContractsState, k)]) is None
}

/// Slot `i` is the first of the `n` slots from `start` whose stored value does
/// not decode.
pub open spec fn first_undecodable(
    m: Map<(Column, Seq<u8>), Seq<u8>>,
    cid: Seq<u8>,
    start: Seq<u8>,
    n: int,
    i: int,
) -> bool {
    &&& 0 <= i < n
    &&& undecodable_at(m, slot_key(cid, start, i))
    &&& forall|j: int| 0 <= j < i ==> !#[trigger] undecodable_at(m, slot_key(cid, start, j))
}

/// Whether some slot among the `n` from `start` holds no value.
pub open spec fn some_slot_unset(m: Map<(Column, Seq<u8>), Seq<u8>>, cid: Seq<u8>, start: Seq<u8>, n: int) -> bool {
    exists|j: int| 0 <= j < n && !m.contains_key((Column::ContractsState, #[trigger] slot_key(cid, start, j)))
}

/// The contents after writing `values[0..n]` into the slots from `start`.
pub open spec fn slots_written(
    m: Map<(Column, Seq<u8>), Seq<u8>>,
    cid: Seq<u8>,
    start: Seq<u8>,
    values: Seq<[u8; 32]>,
    n: int,
) -> Map<(Column, Seq<u8>), Seq<u8>>
    decreases n,
{
    if n <= 0 {
        m
    } else {
        slots_written(m, cid, start, values, n - 1).insert((Column::ContractsState, slot_key(cid, start, n - 1)), bytes32_encoding(values[n - 1]@))
    }
}

/// The contents after removing the first `n` slots from `start`.
pub open spec fn slots_removed(
    m: Map<(Column, Seq<u8>), Seq<u8>>,
    cid: Seq<u8>,
    start: Seq<u8>,
    n: int,
) -> Map<(Column, Seq<u8>), Seq<u8>>
    decreases n,
{
    if n <= 0 {
        m
    } else {
        slots_removed(m, cid, start, n - 1).remove((Column::ContractsState, slot_key(cid, start, n - 1)))
    }
}

/// The bytes of a slot key after the contract id, and their number.
pub proof fn lemma_slot_key(cid: Seq<u8>, start: Seq<u8>, i: int)
    requires
        cid.len() == 32,
        start.len() == 32,
        0 <= i,
        be_value(start) + i < key_space(),
    ensures
        slot_key(cid, start, i).len() == 64,
        slot_key(cid, start, i).subrange(0, 32) == cid,
        slot_key(cid, start, i).subrange(32, 64) == key_after(start, i),
        be_value(key_after(start, i)) == be_value(start) + i,
{
    lemma_be_bytes_value((be_value(start) + i) as nat, 32);
    assert(slot_key(cid, start, i).subrange(0, 32) =~= cid);
    assert(slot_key(cid, start, i).subrange(32, 64) =~= key_after(start, i));
}

/// Distinct slots have distinct keys.
pub proof fn lemma_slot_keys_distinct(cid: Seq<u8>, start: Seq<u8>, i: int, j: int)
    requires
        cid.len() == 32,
        start.len() == 32,
        0 <= i,
        0 <= j,
        i != j,
        be_value(start) + i < key_space(),
        be_value(start) + j < key_space(),
    ensures
        slot_key(cid, start, i) != slot_key(cid, start, j),
{
    lemma_slot_key(cid, start, i);
    lemma_slot_key(cid, start, j);
}

/// Writing the first `n` slots leaves the later slots as they were.
pub proof fn lemma_slots_written_frame(
    m: Map<(Column, Seq<u8>), Seq<u8>>,
    cid: Seq<u8>,
    start: Seq<u8>,
    values: Seq<[u8; 32]>,
    n: int,
    i: int,
)
    requires
        cid.len() == 32,
        start.len() == 32,
        0 <= n <= i,
        be_value(start) + i < key_space(),
    ensures
        lookup(slots_written(m, cid, start, values, n), Column::ContractsState, slot_key(cid, start, i))
            == lookup(m, Column::ContractsState, slot_key(cid, start, i)),
    decreases n,
{
    if n > 0 {
        lemma_slots_written_frame(m, cid, start, values, n - 1, i);
        lemma_slot_keys_distinct(cid, start, n - 1, i);
    }
}

/// Removing the first `n` slots leaves the later slots as they were.
pub proof fn lemma_slots_removed_frame(
    m: Map<(Column, Seq<u8>), Seq<u8>>,
    cid: Seq<u8>,
    start: Seq<u8>,
    n: int,
    i: int,
)
    requires
        cid.len() == 32,
        start.len() == 32,
        0 <= n <= i,
        be_value(start) + i < key_space(),
    ensures
        lookup(slots_removed(m, cid, start, n), Column::ContractsState, slot_key(cid, start, i))
            == lookup(m, Column::ContractsState, slot_key(cid, start, i)),
    decreases n,
{
    if n > 0 {
        lemma_slots_removed_frame(m, cid, start, n - 1, i);
        lemma_slot_keys_distinct(cid, start, n - 1, i);
    }
}

/// The slot number of a 64-byte state key: the number that its last 32 bytes
/// denote, read big-endian.
pub open spec fn slot_number(k: Seq<u8>) -> nat {
    be_value(k.subrange(32, 64))
}

/// `k` is a stored state key of contract `cid` at or after slot `sv`.
pub open spec fn in_scan(m: Map<(Column, Seq<u8>), Seq<u8>>, cid: Seq<u8>, sv: nat, k: Seq<u8>) -> bool {
    &&& m.contains_key((Column::ContractsState, k))
    &&& cid.is_prefix_of(k)
    &&& k.len() == 64
    &&& slot_number(k) >= sv
}

/// `k` is a stored state key of contract `cid` that a walk from slot key
/// `start` meets and that is not 64 bytes long, so that it names no slot.
pub open spec fn malformed_state_key(m: Map<(Column, Seq<u8>), Seq<u8>>, cid: Seq<u8>, start: Seq<u8>, k: Seq<u8>) -> bool {
    &&& m.contains_key((Column::ContractsState, k))
    &&& cid.is_prefix_of(k)
    &&& lex_le(cid + start, k)
    &&& k.len() != 64
}

/// Whether a read of `range` slots of contract `cid` from slot key `start`,
/// over state keys that all name slots, meets a value that it looks at and
/// that does not decode.
pub open spec fn range_read_fails(m: Map<(Column, Seq<u8>), Seq<u8>>, cid: Seq<u8>, start: Seq<u8>, range: nat) -> bool {
    exists|k: Seq<u8>| #[trigger] scan_visits(m, cid, be_value(start), range, k) && undecodable_at(m, k)
}

/// What a read of `range` slots of contract `cid` from slot key `start`
/// gives on contents `m` whose state keys from the start on all name slots:
/// `Error::Codec` when it meets a value that does not decode; else an error
/// when the range runs past the last key; else the value of each slot, or
/// `None` for a slot that holds none.
pub open spec fn slot_range_result(
    m: Map<(Column, Seq<u8>), Seq<u8>>,
    cid: Seq<u8>,
    start: Seq<u8>,
    range: nat,
    r: Result<Vec<Option<[u8; 32]>>, Error>,
) -> bool {
    let sv = be_value(start);
    &&& range_read_fails(m, cid, start, range) ==> (r matches Err(Error::Codec))
    &&& !range_read_fails(m, cid, start, range) && range > 0 && sv + range >= key_space() ==> (r matches Err(
        Error::Other(OtherError::KeyspaceExceeded),
    ))
    &&& !range_read_fails(m, cid, start, range) && (range == 0 || sv + range < key_space()) ==> {
        &&& r matches Ok(v)
        &&& v@.len() == range
        &&& forall|i: int| 0 <= i < range ==> #[trigger] opt_array_view(v@[i]) == slot_value(m, slot_key(cid, start, i))
    }
}

/// The slots read so far, `acc`, from slot number `sv` on, carried on up to
/// slot number `a`, which holds `v`: `None` for each slot before `a`, then
/// `v`, as far as the `range` slots reach. Fails when a slot given is the
/// last key, since the read steps past every slot it gives.
pub open spec fn slots_through(
    sv: nat,
    range: nat,
    acc: Seq<Option<Seq<u8>>>,
    a: nat,
    v: Seq<u8>,
) -> Result<Seq<Option<Seq<u8>>>, Error>
    decreases range - acc.len(),
{
    if acc.len() < range && sv + acc.len() <= a {
        let next = acc.push(if sv + acc.len() == a { Some(v) } else { None });
        if sv + next.len() >= key_space() {
            Err(Error::Other(OtherError::KeyspaceExceeded))
        } else {
            slots_through(sv, range, next, a, v)
        }
    } else {
        Ok(acc)
    }
}

/// The slots read so far, `acc`, from slot number `sv` on, filled up with
/// `None` to `range` slots; fails as `slots_through` does.
pub open spec fn slots_to_end(sv: nat, range: nat, acc: Seq<Option<Seq<u8>>>) -> Result<Seq<Option<Seq<u8>>>, Error>
    decreases range - acc.len(),
{
    if acc.len() < range {
        let next = acc.push(None);
        if sv + next.len() >= key_space() {
            Err(Error::Other(OtherError::KeyspaceExceeded))
        } else {
            slots_to_end(sv, range, next)
        }
    } else {
        Ok(acc)
    }
}

/// The number that the bytes of state key `k` after the contract id denote.
pub open spec fn key_number(k: Seq<u8>) -> nat {
    be_value(k.subrange(32, k.len() as int))
}

/// A read of `range` slots from slot number `sv` that has read `acc` and
/// walks on from entry `idx` of `e`, the contract's stored state from the
/// start key on in key order: while slots remain, each entry's value is
/// decoded (`Error::Codec` when it does not decode, or when its key is longer
/// than 64 bytes) and the slots are carried on up to its key's number; an
/// entry whose number lies before the next slot gives nothing. When the
/// entries run out the remaining slots are `None`.
pub open spec fn range_walk(
    e: Seq<(Seq<u8>, Seq<u8>)>,
    sv: nat,
    range: nat,
    idx: nat,
    acc: Seq<Option<Seq<u8>>>,
) -> Result<Seq<Option<Seq<u8>>>, Error>
    decreases e.len() - idx,
{
    if acc.len() >= range {
        Ok(acc)
    } else if idx >= e.len() {
        slots_to_end(sv, range, acc)
    } else if bytes32_decoding(e[idx as int].1) is None || e[idx as int].0.len() > 64 {
        Err(Error::Codec)
    } else {
        match slots_through(sv, range, acc, key_number(e[idx as int].0), bytes32_decoding(e[idx as int].1).unwrap()) {
            Ok(next) => range_walk(e, sv, range, idx + 1, next),
            Err(err) => Err(err),
        }
    }
}

/// Whether `r` is what the walk outcome `o` stands for.
pub open spec fn walk_gives(o: Result<Seq<Option<Seq<u8>>>, Error>, r: Result<Vec<Option<[u8; 32]>>, Error>) -> bool {
    match o {
        Ok(s) => r matches Ok(v) && v@.len() == s.len() && forall|i: int| 0 <= i < s.len() ==> #[trigger] opt_array_view(v@[i]) == s[i],
        Err(err) => r == Err::<Vec<Option<[u8; 32]>>, Error>(err),
    }
}

/// What a read of `range` slots of contract `cid` from slot key `start`
/// gives on contents `m`: the outcome of the walk over the contract's stored
/// state from the start key on.
pub open spec fn range_read_result(
    m: Map<(Column, Seq<u8>), Seq<u8>>,
    cid: Seq<u8>,
    start: Seq<u8>,
    range: nat,
    r: Result<Vec<Option<[u8; 32]>>, Error>,
) -> bool {
    exists|e: Seq<(Seq<u8>, Seq<u8>)>|
        #[trigger] is_iteration(m, Column::ContractsState, Some(cid), Some(cid + start), IterDirection::Forward, e)
            && walk_gives(range_walk(e, be_value(start), range, 0, Seq::empty()), r)
}

/// Carrying the slots on never fails but on the last key: from `acc`, with
/// no slot past the last key, it gives at most `range` slots, none past the
/// last key, or fails with `KeyspaceExceeded` where the range runs past it.
proof fn lemma_slots_through_outcome(sv: nat, range: nat, acc: Seq<Option<Seq<u8>>>, a: nat, v: Seq<u8>)
    requires
        acc.len() <= range,
        sv + acc.len() < key_space(),
    ensures
        match slots_through(sv, range, acc, a, v) {
            Ok(next) => acc.len() <= next.len() <= range && sv + next.len() < key_space(),
            Err(err) => err == Error::Other(OtherError::KeyspaceExceeded) && sv + range >= key_space(),
        },
    decreases range - acc.len(),
{
    if acc.len() < range && sv + acc.len() <= a {
        let next = acc.push(if sv + acc.len() == a { Some(v) } else { None });
        if sv + next.len() < key_space() {
            lemma_slots_through_outcome(sv, range, next, a, v);
        }
    }
}

/// Filling the slots up to `range` gives `range` slots, none past the last
/// key, or fails with `KeyspaceExceeded` where the range runs past it.
proof fn lemma_slots_to_end_outcome(sv: nat, range: nat, acc: Seq<Option<Seq<u8>>>)
    requires
        acc.len() <= range,
        sv + acc.len() < key_space(),
    ensures
        match slots_to_end(sv, range, acc) {
            Ok(next) => next.len() == range && sv + range < key_space(),
            Err(err) => err == Error::Other(OtherError::KeyspaceExceeded) && sv + range >= key_space(),
        },
    decreases range - acc.len(),
{
    if acc.len() < range {
        let next = acc.push(None);
        if sv + next.len() < key_space() {
            lemma_slots_to_end_outcome(sv, range, next);
        }
    }
}

/// A range read whose walk meets only entries that decode and whose keys
/// are at most 64 bytes long fails exactly when the range runs past the last
/// key, and otherwise gives `range` slots.
pub proof fn lemma_range_walk_fails_only_past_last_key(e: Seq<(Seq<u8>, Seq<u8>)>, sv: nat, range: nat)
    requires
        sv < key_space(),
        forall|j: int| 0 <= j < e.len() ==> #[trigger] bytes32_decoding(e[j].1) is Some && e[j].0.len() <= 64,
    ensures
        match range_walk(e, sv, range, 0, Seq::empty()) {
            Ok(s) => s.len() == range && (range == 0 || sv + range < key_space()),
            Err(err) => err == Error::Other(OtherError::KeyspaceExceeded) && range > 0 && sv + range >= key_space(),
        },
{
    lemma_range_walk_outcome(e, sv, range, 0, Seq::empty());
}

/// The walk from entry `idx`, having given `acc`, as
/// `lemma_range_walk_fails_only_past_last_key` says of the whole walk.
proof fn lemma_range_walk_outcome(e: Seq<(Seq<u8>, Seq<u8>)>, sv: nat, range: nat, idx: nat, acc: Seq<Option<Seq<u8>>>)
    requires
        acc.len() <= range,
        sv + acc.len() < key_space(),
        forall|j: int| 0 <= j < e.len() ==> #[trigger] bytes32_decoding(e[j].1) is Some && e[j].0.len() <= 64,
    ensures
        match range_walk(e, sv, range, idx, acc) {
            Ok(s) => s.len() == range && (range == 0 || sv + range < key_space()),
            Err(err) => err == Error::Other(OtherError::KeyspaceExceeded) && range > 0 && sv + range >= key_space(),
        },
    decreases e.len() - idx,
{
    if acc.len() >= range {
    } else if idx >= e.len() {
        lemma_slots_to_end_outcome(sv, range, acc);
    } else {
        let j = idx as int;
        assert(bytes32_decoding(e[j].1) is Some && e[j].0.len() <= 64);
        let a = key_number(e[j].0);
        let v = bytes32_decoding(e[j].1).unwrap();
        lemma_slots_through_outcome(sv, range, acc, a, v);
        match slots_through(sv, range, acc, a, v) {
            Ok(next) => {
                lemma_range_walk_outcome(e, sv, range, idx + 1, next);
            },
            Err(err) => {},
        }
    }
}

/// What a range read's result says, slot by slot.
pub open spec fn read_outcome(r: Result<Vec<Option<[u8; 32]>>, Error>) -> Result<Seq<Option<Seq<u8>>>, Error> {
    match r {
        Ok(v) => Ok(results_view(v@)),
        Err(e) => Err(e),
    }
}

/// A result that a walk outcome stands for says that outcome.
proof fn lemma_walk_gives_outcome(o: Result<Seq<Option<Seq<u8>>>, Error>, r: Result<Vec<Option<[u8; 32]>>, Error>)
    requires
        walk_gives(o, r),
    ensures
        read_outcome(r) == o,
{
    if let Ok(s) = o {
        let v = r->Ok_0;
        assert(results_view(v@) =~= s);
    }
}

/// The bytes of each of `v`'s optional 32-byte values.
pub open spec fn results_view(v: Seq<Option<[u8; 32]>>) -> Seq<Option<Seq<u8>>> {
    Seq::new(v.len(), |i: int| opt_array_view(v[i]))
}

/// Every stored state key of contract `cid` is 64 bytes long: the contract id
/// and a 32-byte slot key.
pub open spec fn state_keys_well_formed(m: Map<(Column, Seq<u8>), Seq<u8>>, cid: Seq<u8>) -> bool {
    forall|k: Seq<u8>| m.contains_key((Column::ContractsState, k)) && cid.is_prefix_of(k) ==> #[trigger] k.len() == 64
}

/// Whether a read of `range` slots from slot `sv` of contract `cid` looks at
/// the value stored under `k`: `k` is a state key of the contract at or after
/// the start, and every such key before it lies before the range's last slot.
pub open spec fn scan_visits(m: Map<(Column, Seq<u8>), Seq<u8>>, cid: Seq<u8>, sv: nat, range: nat, k: Seq<u8>) -> bool {
    &&& range > 0
    &&& in_scan(m, cid, sv, k)
    &&& forall|k2: Seq<u8>|
        #[trigger] in_scan(m, cid, sv, k2) && slot_number(k2) < slot_number(k) ==> slot_number(k2) + 1 < sv + range
}

/// The decoded value stored under state key `k`, if any.
pub open spec fn slot_value(m: Map<(Column, Seq<u8>), Seq<u8>>, k: Seq<u8>) -> Option<Seq<u8>> {
    match lookup(m, Column::ContractsState, k) {
        Some(b) => bytes32_decoding(b),
        None => None,
    }
}

/// The bytes of an optional 32-byte value.
pub open spec fn opt_array_view(o: Option<[u8; 32]>) -> Option<Seq<u8>> {
    match o {
        Some(a) => Some(a@),
        None => None,
    }
}

/// The scanned entries `e` are the state keys of `cid` from slot `sv` on,
/// each with its stored value, in increasing slot order.
spec fn scan_facts(m: Map<(Column, Seq<u8>), Seq<u8>>, cid: Seq<u8>, sv: nat, e: Seq<(Seq<u8>, Seq<u8>)>) -> bool {
    &&& forall|j: int|
        0 <= j < e.len() ==> {
            &&& in_scan(m, cid, sv, #[trigger] e[j].0)
            &&& e[j].0.len() == 64
            &&& e[j].0 == cid + e[j].0.subrange(32, 64)
            &&& m[(Column::ContractsState, e[j].0)] == e[j].1
        }
    &&& forall|i: int, j: int| 0 <= i < j < e.len() ==> slot_number(#[trigger] e[i].0) < slot_number(#[trigger] e[j].0)
    &&& forall|k: Seq<u8>| #[trigger] in_scan(m, cid, sv, k) ==> exists|j: int| 0 <= j < e.len() && e[j].0 == k
}

/// A 64-byte key with the 32-byte prefix `cid` is `cid` followed by its slot key.
proof fn lemma_split_state_key(cid: Seq<u8>, k: Seq<u8>)
    requires
        cid.len() == 32,
        k.len() == 64,
        cid.is_prefix_of(k),
    ensures
        k == cid + k.subrange(32, 64),
{
    assert(k =~= cid + k.subrange(32, 64));
}

/// How two state keys of one contract compare: by slot number.
proof fn lemma_state_key_order(cid: Seq<u8>, x: Seq<u8>, y: Seq<u8>)
    requires
        x.len() == 32,
        y.len() == 32,
    ensures
        lex_lt(cid + x, cid + y) <==> be_value(x) < be_value(y),
        lex_le(cid + x, cid + y) <==> be_value(x) <= be_value(y),
{
    lemma_lex_common_prefix(cid, x, y);
    lemma_lex_is_numeric(x, y);
    if cid + x == cid + y {
        assert(x =~= (cid + x).subrange(cid.len() as int, (cid + x).len() as int));
        assert(y =~= (cid + y).subrange(cid.len() as int, (cid + y).len() as int));
    }
}

/// A state key of contract `cid` at slot `sv + i` is the key of slot `i` from `start`.
proof fn lemma_slot_key_of(cid: Seq<u8>, start: Seq<u8>, i: int, k: Seq<u8>)
    requires
        cid.len() == 32,
        start.len() == 32,
        0 <= i,
        be_value(start) + i < key_space(),
        k.len() == 64,
        k == cid + k.subrange(32, 64),
    ensures
        slot_number(k) == be_value(start) + i <==> k == slot_key(cid, start, i),
{
    lemma_slot_key(cid, start, i);
    lemma_be_value_bytes(k.subrange(32, 64));
    if k == slot_key(cid, start, i) {
        assert(k.subrange(32, 64) == key_after(start, i));
    }
}

/// What a forward scan of the contract-state column with prefix `cid` from
/// `cid + start` yields, in terms of slot numbers.
proof fn lemma_scan_facts(
    m: Map<(Column, Seq<u8>), Seq<u8>>,
    cid: Seq<u8>,
    start: Seq<u8>,
    e: Seq<(Seq<u8>, Seq<u8>)>,
)
    requires
        cid.len() == 32,
        start.len() == 32,
        !exists|k: Seq<u8>| #[trigger] malformed_state_key(m, cid, start, k),
        is_iteration(m, Column::ContractsState, Some(cid), Some(cid + start), IterDirection::Forward, e),
    ensures
        scan_facts(m, cid, be_value(start), e),
{
    let sv = be_value(start);
    let cs = cid + start;
    assert(cs.subrange(32, 64) =~= start);
    assert forall|j: int| 0 <= j < e.len() implies {
        &&& in_scan(m, cid, sv, #[trigger] e[j].0)
        &&& e[j].0.len() == 64
        &&& e[j].0 == cid + e[j].0.subrange(32, 64)
        &&& m[(Column::ContractsState, e[j].0)] == e[j].1
    } by {
        let k = e[j].0;
        assert(m.contains_key((Column::ContractsState, k)));
        assert(crate::store::selected(k, Some(cid), Some(cs), IterDirection::Forward));
        assert(!malformed_state_key(m, cid, start, k));
        assert(k.len() == 64);
        lemma_split_state_key(cid, k);
        lemma_state_key_order(cid, start, k.subrange(32, 64));
    }
    assert forall|i: int, j: int| 0 <= i < j < e.len() implies slot_number(#[trigger] e[i].0) < slot_number(#[trigger] e[j].0) by {
        assert(crate::store::in_direction(e[i].0, e[j].0, IterDirection::Forward));
        lemma_state_key_order(cid, e[i].0.subrange(32, 64), e[j].0.subrange(32, 64));
    }
    assert forall|k: Seq<u8>| #[trigger] in_scan(m, cid, sv, k) implies exists|j: int| 0 <= j < e.len() && e[j].0 == k by {
        lemma_split_state_key(cid, k);
        lemma_state_key_order(cid, start, k.subrange(32, 64));
        assert(crate::store::selected(k, Some(cid), Some(cs), IterDirection::Forward));
    }
}

/// A read of the slots that a range insert wrote gives back the values written.
pub proof fn lemma_read_after_insert_range(
    m: Map<(Column, Seq<u8>), Seq<u8>>,
    cid: Seq<u8>,
    start: Seq<u8>,
    values: Seq<[u8; 32]>,
    i: int,
)
    requires
        cid.len() == 32,
        start.len() == 32,
        be_value(start) + values.len() < key_space(),
        0 <= i < values.len(),
    ensures
        slot_value(slots_written(m, cid, start, values, values.len() as int), slot_key(cid, start, i)) == Some(values[i]@),
        !undecodable_at(slots_written(m, cid, start, values, values.len() as int), slot_key(cid, start, i)),
{
    lemma_slots_written_last(m, cid, start, values, values.len() as int, i);
    crate::codec::lemma_bytes32_roundtrip(values[i]@);
}

/// Once `n` slots are written, slot `i < n` holds `values[i]`.
proof fn lemma_slots_written_last(
    m: Map<(Column, Seq<u8>), Seq<u8>>,
    cid: Seq<u8>,
    start: Seq<u8>,
    values: Seq<[u8; 32]>,
    n: int,
    i: int,
)
    requires
        cid.len() == 32,
        start.len() == 32,
        be_value(start) + n < key_space(),
        0 <= i < n,
    ensures
        slots_written(m, cid, start, values, n).contains_key((Column::ContractsState, slot_key(cid, start, i))),
        slots_written(m, cid, start, values, n)[(Column::ContractsState, slot_key(cid, start, i))] == bytes32_encoding(values[i]@),
    decreases n,
{
    if i < n - 1 {
        lemma_slots_written_last(m, cid, start, values, n - 1, i);
        lemma_slot_keys_distinct(cid, start, n - 1, i);
    }
}

/// After a range removal none of the removed slots holds a value.
pub proof fn lemma_read_after_remove_range(m: Map<(Column, Seq<u8>), Seq<u8>>, cid: Seq<u8>, start: Seq<u8>, n: int, i: int)
    requires
        cid.len() == 32,
        start.len() == 32,
        be_value(start) + n <= key_space(),
        0 <= i < n,
    ensures
        slot_value(slots_removed(m, cid, start, n), slot_key(cid, start, i)) is None,
        !undecodable_at(slots_removed(m, cid, start, n), slot_key(cid, start, i)),
    decreases n,
{
    if i < n - 1 {
        lemma_read_after_remove_range(m, cid, start, n - 1, i);
        lemma_slot_keys_distinct(cid, start, n - 1, i);
    }
}

/// A range read after a range insert of the same slots gives back the values
/// written, where every state key of the contract was well formed and every
/// stored state value decoded: they still are, the read does not fail to
/// decode, and each slot holds the value written to it.
pub proof fn lemma_range_read_after_range_insert(
    m: Map<(Column, Seq<u8>), Seq<u8>>,
    cid: Seq<u8>,
    start: Seq<u8>,
    values: Seq<[u8; 32]>,
)
    requires
        cid.len() == 32,
        start.len() == 32,
        be_value(start) + values.len() < key_space(),
        state_keys_well_formed(m, cid),
        forall|k: Seq<u8>| !#[trigger] undecodable_at(m, k),
    ensures
        ({
            let w = slots_written(m, cid, start, values, values.len() as int);
            &&& state_keys_well_formed(w, cid)
            &&& forall|k: Seq<u8>| !#[trigger] malformed_state_key(w, cid, start, k)
            &&& !range_read_fails(w, cid, start, values.len())
            &&& forall|i: int| 0 <= i < values.len() ==> #[trigger] slot_value(w, slot_key(cid, start, i)) == Some(values[i]@)
            &&& forall|r: Result<Vec<Option<[u8; 32]>>, Error>|
                #[trigger] slot_range_result(w, cid, start, values.len(), r) <==> (r matches Ok(v) && v@.len() == values.len()
                    && forall|i: int| 0 <= i < values.len() ==> #[trigger] opt_array_view(v@[i]) == Some(values[i]@))
        }),
{
    let n = values.len() as int;
    lemma_range_ops_keep_values_decodable(m, cid, start, values, n);
    lemma_range_ops_keep_keys_well_formed(m, cid, cid, start, values, n);
    let w = slots_written(m, cid, start, values, n);
    assert forall|k: Seq<u8>| !#[trigger] malformed_state_key(w, cid, start, k) by {
        if malformed_state_key(w, cid, start, k) {
            assert(k.len() == 64);
        }
    }
    assert forall|i: int| 0 <= i < values.len() implies #[trigger] slot_value(slots_written(m, cid, start, values, n), slot_key(cid, start, i)) == Some(values[i]@) by {
        lemma_read_after_insert_range(m, cid, start, values, i);
    }
}

/// Range writes and removals keep every stored state value decodable when
/// every one was.
pub proof fn lemma_range_ops_keep_values_decodable(
    m: Map<(Column, Seq<u8>), Seq<u8>>,
    cid: Seq<u8>,
    start: Seq<u8>,
    values: Seq<[u8; 32]>,
    n: int,
)
    requires
        forall|k: Seq<u8>| !#[trigger] undecodable_at(m, k),
    ensures
        forall|k: Seq<u8>| !#[trigger] undecodable_at(slots_written(m, cid, start, values, n), k),
        forall|k: Seq<u8>| !#[trigger] undecodable_at(slots_removed(m, cid, start, n), k),
    decreases n,
{
    if n > 0 {
        lemma_range_ops_keep_values_decodable(m, cid, start, values, n - 1);
        crate::codec::lemma_bytes32_roundtrip(values[n - 1]@);
        let w = slots_written(m, cid, start, values, n - 1);
        let r = slots_removed(m, cid, start, n - 1);
        assert forall|k: Seq<u8>| !#[trigger] undecodable_at(slots_written(m, cid, start, values, n), k) by {
            assert(!undecodable_at(w, k));
        }
        assert forall|k: Seq<u8>| !#[trigger] undecodable_at(slots_removed(m, cid, start, n), k) by {
            assert(!undecodable_at(r, k));
        }
    }
}

/// Range writes and removals keep every state key of a contract 64 bytes
/// long, so that a range read may follow them.
pub proof fn lemma_range_ops_keep_keys_well_formed(
    m: Map<(Column, Seq<u8>), Seq<u8>>,
    cid: Seq<u8>,
    other: Seq<u8>,
    start: Seq<u8>,
    values: Seq<[u8; 32]>,
    n: int,
)
    requires
        cid.len() == 32,
        other.len() == 32,
        start.len() == 32,
        be_value(start) + n <= key_space(),
        state_keys_well_formed(m, cid),
    ensures
        state_keys_well_formed(slots_written(m, other, start, values, n), cid),
        state_keys_well_formed(slots_removed(m, other, start, n), cid),
    decreases n,
{
    if n > 0 {
        lemma_range_ops_keep_keys_well_formed(m, cid, other, start, values, n - 1);
        lemma_slot_key(other, start, n - 1);
    }
}

/// Writing the first `n` slots leaves every other key as it was.
proof fn lemma_slots_written_other(
    m: Map<(Column, Seq<u8>), Seq<u8>>,
    cid: Seq<u8>,
    start: Seq<u8>,
    values: Seq<[u8; 32]>,
    n: int,
    key: (Column, Seq<u8>),
)
    requires
        forall|j: int| 0 <= j < n ==> key != (Column::ContractsState, #[trigger] slot_key(cid, start, j)),
    ensures
        slots_written(m, cid, start, values, n).contains_key(key) == m.contains_key(key),
        m.contains_key(key) ==> slots_written(m, cid, start, values, n)[key] == m[key],
    decreases n,
{
    if n > 0 {
        lemma_slots_written_other(m, cid, start, values, n - 1, key);
        assert(key != (Column::ContractsState, slot_key(cid, start, n - 1)));
    }
}

/// Removing the first `n` slots leaves every other key as it was.
proof fn lemma_slots_removed_other(
    m: Map<(Column, Seq<u8>), Seq<u8>>,
    cid: Seq<u8>,
    start: Seq<u8>,
    n: int,
    key: (Column, Seq<u8>),
)
    requires
        forall|j: int| 0 <= j < n ==> key != (Column::ContractsState, #[trigger] slot_key(cid, start, j)),
    ensures
        slots_removed(m, cid, start, n).contains_key(key) == m.contains_key(key),
        m.contains_key(key) ==> slots_removed(m, cid, start, n)[key] == m[key],
    decreases n,
{
    if n > 0 {
        lemma_slots_removed_other(m, cid, start, n - 1, key);
        assert(key != (Column::ContractsState, slot_key(cid, start, n - 1)));
    }
}

/// Once the first `n` slots are removed, slot `i < n` holds nothing.
proof fn lemma_slots_removed_gone(m: Map<(Column, Seq<u8>), Seq<u8>>, cid: Seq<u8>, start: Seq<u8>, n: int, i: int)
    requires
        0 <= i < n,
    ensures
        !slots_removed(m, cid, start, n).contains_key((Column::ContractsState, slot_key(cid, start, i))),
    decreases n,
{
    if i < n - 1 {
        lemma_slots_removed_gone(m, cid, start, n - 1, i);
    }
}

/// A range insert made again on what a range insert of the same values left
/// finds every slot set and every old value decodable, so that it answers
/// `Some(())`, and it leaves the contents as they were.
pub proof fn lemma_insert_range_idempotent(
    m: Map<(Column, Seq<u8>), Seq<u8>>,
    cid: Seq<u8>,
    start: Seq<u8>,
    values: Seq<[u8; 32]>,
)
    requires
        cid.len() == 32,
        start.len() == 32,
        be_value(start) + values.len() < key_space(),
    ensures
        ({
            let n = values.len() as int;
            let w = slots_written(m, cid, start, values, n);
            &&& !some_slot_unset(w, cid, start, n)
            &&& forall|j: int| 0 <= j < n ==> !#[trigger] undecodable_at(w, slot_key(cid, start, j))
            &&& slots_written(w, cid, start, values, n) == w
        }),
{
    let n = values.len() as int;
    let w = slots_written(m, cid, start, values, n);
    assert forall|j: int| 0 <= j < n implies w.contains_key((Column::ContractsState, #[trigger] slot_key(cid, start, j)))
        && w[(Column::ContractsState, slot_key(cid, start, j))] == bytes32_encoding(values[j]@) && !undecodable_at(w, slot_key(cid, start, j)) by {
        lemma_read_after_insert_range(m, cid, start, values, j);
        lemma_slots_written_last(m, cid, start, values, n, j);
    }
    lemma_rewrite_same(w, cid, start, values, n);
}

/// Writing again values that the first `k` slots already hold changes nothing.
proof fn lemma_rewrite_same(w: Map<(Column, Seq<u8>), Seq<u8>>, cid: Seq<u8>, start: Seq<u8>, values: Seq<[u8; 32]>, k: int)
    requires
        cid.len() == 32,
        start.len() == 32,
        0 <= k <= values.len(),
        be_value(start) + values.len() < key_space(),
        w == slots_written(w, cid, start, values, 0),
        forall|j: int| 0 <= j < k ==> w.contains_key((Column::ContractsState, #[trigger] slot_key(cid, start, j))) && w[(
            Column::ContractsState,
            slot_key(cid, start, j),
        )] == bytes32_encoding(values[j]@),
    ensures
        slots_written(w, cid, start, values, k) == w,
    decreases k,
{
    if k > 0 {
        lemma_rewrite_same(w, cid, start, values, k - 1);
        let key = (Column::ContractsState, slot_key(cid, start, k - 1));
        assert(w.insert(key, bytes32_encoding(values[k - 1]@)) =~= w);
    }
}

/// Removing a range just inserted into slots that held nothing finds every
/// slot set and every value decodable, so that it answers `Some(())`, and
/// gives back the contents from before the insert.
pub proof fn lemma_remove_range_undoes_insert_range(
    m: Map<(Column, Seq<u8>), Seq<u8>>,
    cid: Seq<u8>,
    start: Seq<u8>,
    values: Seq<[u8; 32]>,
)
    requires
        cid.len() == 32,
        start.len() == 32,
        be_value(start) + values.len() < key_space(),
        forall|j: int| 0 <= j < values.len() ==> !m.contains_key((Column::ContractsState, #[trigger] slot_key(cid, start, j))),
    ensures
        ({
            let n = values.len() as int;
            let w = slots_written(m, cid, start, values, n);
            &&& !some_slot_unset(w, cid, start, n)
            &&& forall|j: int| 0 <= j < n ==> !#[trigger] undecodable_at(w, slot_key(cid, start, j))
            &&& slots_removed(w, cid, start, n) == m
        }),
{
    let n = values.len() as int;
    let w = slots_written(m, cid, start, values, n);
    let r = slots_removed(w, cid, start, n);
    lemma_insert_range_idempotent(m, cid, start, values);
    assert forall|key: (Column, Seq<u8>)|
        #![trigger r.contains_key(key)]
        #![trigger m.contains_key(key)]
        r.contains_key(key) == m.contains_key(key) && (m.contains_key(key) ==> r[key] == m[key]) by {
        if exists|j: int| 0 <= j < n && key == (Column::ContractsState, #[trigger] slot_key(cid, start, j)) {
            let j = choose|j: int| 0 <= j < n && key == (Column::ContractsState, #[trigger] slot_key(cid, start, j));
            lemma_slots_removed_gone(w, cid, start, n, j);
        } else {
            lemma_slots_written_other(m, cid, start, values, n, key);
            lemma_slots_removed_other(w, cid, start, n, key);
        }
    }
    assert(r =~= m);
}

/// `m1` and `m2` hold the same state entries for contract `cid`.
pub open spec fn same_contract_state(m1: Map<(Column, Seq<u8>), Seq<u8>>, m2: Map<(Column, Seq<u8>), Seq<u8>>, cid: Seq<u8>) -> bool {
    forall|k: Seq<u8>|
        #![trigger m1.contains_key((Column::ContractsState, k))]
        #![trigger m2.contains_key((Column::ContractsState, k))]
        cid.is_prefix_of(k) ==> {
            &&& m1.contains_key((Column::ContractsState, k)) == m2.contains_key((Column::ContractsState, k))
            &&& m1.contains_key((Column::ContractsState, k)) ==> m1[(Column::ContractsState, k)] == m2[(Column::ContractsState, k)]
        }
}

/// A range read of contract `cid` depends on that contract's state entries
/// alone: on contents that hold the same entries for it, it gives the same
/// answer, slot by slot.
pub proof fn lemma_range_read_local(
    m1: Map<(Column, Seq<u8>), Seq<u8>>,
    m2: Map<(Column, Seq<u8>), Seq<u8>>,
    cid: Seq<u8>,
    start: Seq<u8>,
    range: nat,
)
    requires
        same_contract_state(m1, m2, cid),
    ensures
        forall|r: Result<Vec<Option<[u8; 32]>>, Error>|
            #[trigger] range_read_result(m1, cid, start, range, r) == range_read_result(m2, cid, start, range, r),
        forall|r: Result<Vec<Option<[u8; 32]>>, Error>|
            #[trigger] slot_range_result(m1, cid, start, range, r) == slot_range_result(m2, cid, start, range, r),
        forall|k: Seq<u8>| #[trigger] malformed_state_key(m1, cid, start, k) == malformed_state_key(m2, cid, start, k),
        forall|r1: Result<Vec<Option<[u8; 32]>>, Error>, r2: Result<Vec<Option<[u8; 32]>>, Error>|
            #[trigger] range_read_result(m1, cid, start, range, r1) && #[trigger] range_read_result(m2, cid, start, range, r2)
                ==> read_outcome(r1) == read_outcome(r2),
{
    let sv = be_value(start);
    let cs = Some(cid + start);
    assert forall|e: Seq<(Seq<u8>, Seq<u8>)>|
        #![trigger is_iteration(m1, Column::ContractsState, Some(cid), cs, IterDirection::Forward, e)]
        #![trigger is_iteration(m2, Column::ContractsState, Some(cid), cs, IterDirection::Forward, e)]
        is_iteration(m1, Column::ContractsState, Some(cid), cs, IterDirection::Forward, e)
            == is_iteration(m2, Column::ContractsState, Some(cid), cs, IterDirection::Forward, e) by {
        assert forall|k: Seq<u8>| #[trigger] crate::store::selected(k, Some(cid), cs, IterDirection::Forward) implies
            m1.contains_key((Column::ContractsState, k)) == m2.contains_key((Column::ContractsState, k))
            && (m1.contains_key((Column::ContractsState, k)) ==> m1[(Column::ContractsState, k)] == m2[(Column::ContractsState, k)]) by {
            assert(cid.is_prefix_of(k));
            assert(m1.contains_key((Column::ContractsState, k)) == m2.contains_key((Column::ContractsState, k)));
        }
    }
    assert forall|k: Seq<u8>|
        #![trigger in_scan(m1, cid, sv, k)]
        #![trigger in_scan(m2, cid, sv, k)]
        in_scan(m1, cid, sv, k) == in_scan(m2, cid, sv, k) by {
        if cid.is_prefix_of(k) {
            assert(m1.contains_key((Column::ContractsState, k)) == m2.contains_key((Column::ContractsState, k)));
        }
    }
    assert forall|k: Seq<u8>|
        #![trigger malformed_state_key(m1, cid, start, k)]
        #![trigger malformed_state_key(m2, cid, start, k)]
        malformed_state_key(m1, cid, start, k) == malformed_state_key(m2, cid, start, k) by {
        if cid.is_prefix_of(k) {
            assert(m1.contains_key((Column::ContractsState, k)) == m2.contains_key((Column::ContractsState, k)));
        }
    }
    assert forall|k: Seq<u8>|
        #![trigger scan_visits(m1, cid, sv, range, k)]
        #![trigger scan_visits(m2, cid, sv, range, k)]
        scan_visits(m1, cid, sv, range, k) == scan_visits(m2, cid, sv, range, k)
            && (scan_visits(m1, cid, sv, range, k) ==> undecodable_at(m1, k) == undecodable_at(m2, k)) by {
        assert(in_scan(m1, cid, sv, k) == in_scan(m2, cid, sv, k));
        if in_scan(m1, cid, sv, k) {
            assert(m1.contains_key((Column::ContractsState, k)) == m2.contains_key((Column::ContractsState, k)));
        }
    }
    assert(range_read_fails(m1, cid, start, range) == range_read_fails(m2, cid, start, range));
    assert forall|r1: Result<Vec<Option<[u8; 32]>>, Error>, r2: Result<Vec<Option<[u8; 32]>>, Error>|
        #[trigger] range_read_result(m1, cid, start, range, r1) && #[trigger] range_read_result(m2, cid, start, range, r2)
            implies read_outcome(r1) == read_outcome(r2) by {
        let e1 = choose|e: Seq<(Seq<u8>, Seq<u8>)>|
            #[trigger] is_iteration(m1, Column::ContractsState, Some(cid), cs, IterDirection::Forward, e)
                && walk_gives(range_walk(e, sv, range, 0, Seq::empty()), r1);
        let e2 = choose|e: Seq<(Seq<u8>, Seq<u8>)>|
            #[trigger] is_iteration(m2, Column::ContractsState, Some(cid), cs, IterDirection::Forward, e)
                && walk_gives(range_walk(e, sv, range, 0, Seq::empty()), r2);
        assert(is_iteration(m2, Column::ContractsState, Some(cid), cs, IterDirection::Forward, e1));
        crate::store::lemma_iteration_unique(m2, Column::ContractsState, Some(cid), cs, IterDirection::Forward, e1, e2);
        lemma_walk_gives_outcome(range_walk(e1, sv, range, 0, Seq::empty()), r1);
        lemma_walk_gives_outcome(range_walk(e1, sv, range, 0, Seq::empty()), r2);
    }
    assert forall|i: int| #[trigger] slot_value(m1, slot_key(cid, start, i)) == slot_value(m2, slot_key(cid, start, i)) by {
        let k = slot_key(cid, start, i);
        assert(k.subrange(0, cid.len() as int) =~= cid);
        assert(cid.is_prefix_of(k));
        assert(m1.contains_key((Column::ContractsState, k)) == m2.contains_key((Column::ContractsState, k)));
    }
}

/// A range insert of `values` from slot key `start` of contract `cid` on
/// contents `m` ended at slot `k` with error `e`, leaving `after`: every slot
/// before `k` held nothing or a value that decodes, and either slot `k` held
/// one that does not, after its write (`Error::Codec`), or the store refused
/// the write of slot `k`.
pub open spec fn insert_range_failed_at<D: KeyValueStore>(
    m: Map<(Column, Seq<u8>), Seq<u8>>,
    cid: Seq<u8>,
    start: Seq<u8>,
    values: Seq<[u8; 32]>,
    k: int,
    after: Map<(Column, Seq<u8>), Seq<u8>>,
    e: Error,
) -> bool {
    &&& forall|j: int| 0 <= j < k ==> !#[trigger] undecodable_at(m, slot_key(cid, start, j))
    &&& {
        ||| undecodable_at(m, slot_key(cid, start, k)) && after == slots_written(m, cid, start, values, k + 1)
            && e == Error::Codec
        ||| after == slots_written(m, cid, start, values, k) && put_refused::<D>(
            slots_written(m, cid, start, values, k),
            slot_key(cid, start, k),
            Column::ContractsState,
            bytes32_encoding(values[k]@),
            e,
        )
    }
}

/// A range removal from slot key `start` of contract `cid` on contents `m`
/// ended at slot `k` with error `e`, leaving `after`, as
/// `insert_range_failed_at` says of an insert.
pub open spec fn remove_range_failed_at<D: KeyValueStore>(
    m: Map<(Column, Seq<u8>), Seq<u8>>,
    cid: Seq<u8>,
    start: Seq<u8>,
    k: int,
    after: Map<(Column, Seq<u8>), Seq<u8>>,
    e: Error,
) -> bool {
    &&& forall|j: int| 0 <= j < k ==> !#[trigger] undecodable_at(m, slot_key(cid, start, j))
    &&& {
        ||| undecodable_at(m, slot_key(cid, start, k)) && after == slots_removed(m, cid, start, k + 1) && e == Error::Codec
        ||| after == slots_removed(m, cid, start, k) && delete_refused::<D>(
            slots_removed(m, cid, start, k),
            slot_key(cid, start, k),
            Column::ContractsState,
            e,
        )
    }
}

impl<D: KeyValueStore> VmDatabase<D> {
    /// The value of slot `key` of contract `contract_id`.
    pub fn merkle_contract_state(&self, contract_id: &[u8; 32], key: &[u8; 32]) -> (r: Result<Option<[u8; 32]>, Error>)
        requires
            self.spec_database().inv(),
        ensures
            bytes32_read(lookup(self.spec_database().contents(), Column::ContractsState, contract_id@ + key@), r)
                || (!self.spec_database().infallible() && (r matches Err(e) && get_refused(
                    &self.spec_database(),
                    contract_id@ + key@,
                    Column::ContractsState,
                    e,
                ))),
    {
        let k = MultiKey::new(&(contract_id.as_slice(), key.as_slice()));
        get_bytes32(&self.database, k.as_ref(), Column::ContractsState)
    }

    /// Deploys contract `id`: stores its code, then its salt and state root,
    /// then its initial state slots. Fails with `Error::Codec` at the first
    /// stored value that it replaces and that does not decode, after that
    /// write; a write that the store refuses ends it with the store's error,
    /// and no later write is made.
    pub fn deploy_contract_with_id(
        &mut self,
        salt: &[u8; 32],
        slots: &[([u8; 32], [u8; 32])],
        contract: &[u8],
        root: &[u8; 32],
        id: &[u8; 32],
    ) -> (r: Result<(), Error>)
        requires
            old(self).spec_database().inv(),
        ensures
            final(self).spec_database().inv(),
            final(self).spec_database().infallible() == old(self).spec_database().infallible(),
            final(self).same_block(old(self)),
            old(self).spec_database().infallible() ==> ({
                let m0 = old(self).spec_database().contents();
                let m1 = m0.insert((Column::ContractsRawCode, id@), byte_string_encoding(contract@));
                let m2 = m1.insert((Column::ContractsInfo, id@), contract_info_encoding(salt@, root@));
                let n = slots@.len() as int;
                let m = final(self).spec_database().contents();
                &&& code_undecodable(m0, id@) ==> (r matches Err(Error::Codec) && m == m1)
                &&& !code_undecodable(m0, id@) && info_undecodable(m0, id@) ==> (r matches Err(Error::Codec) && m == m2)
                &&& !code_undecodable(m0, id@) && !info_undecodable(m0, id@) ==> {
                    &&& (forall|i: int| 0 <= i < n ==> !#[trigger] init_meets_undecodable(m2, id@, slots@, i)) ==> {
                        &&& r is Ok
                        &&& m == state_initialized(m2, id@, slots@, n)
                    }
                    &&& forall|i: int|
                        0 <= i < n && init_meets_undecodable(m2, id@, slots@, i) && (forall|j: int|
                            0 <= j < i ==> !#[trigger] init_meets_undecodable(m2, id@, slots@, j)) ==> {
                            &&& r matches Err(Error::Codec)
                            &&& m == state_initialized(m2, id@, slots@, i + 1)
                        }
                }
            }),
            ({
                let m0 = old(self).spec_database().contents();
                let m1 = m0.insert((Column::ContractsRawCode, id@), byte_string_encoding(contract@));
                let m2 = m1.insert((Column::ContractsInfo, id@), contract_info_encoding(salt@, root@));
                let n = slots@.len() as int;
                let m = final(self).spec_database().contents();
                &&& r is Ok ==> {
                    &&& !code_undecodable(m0, id@)
                    &&& !info_undecodable(m0, id@)
                    &&& forall|i: int| 0 <= i < n ==> !#[trigger] init_meets_undecodable(m2, id@, slots@, i)
                    &&& m == state_initialized(m2, id@, slots@, n)
                }
                &&& (r matches Err(e) ==> {
                    ||| m == m0 && put_refused::<D>(m0, id@, Column::ContractsRawCode, byte_string_encoding(contract@), e)
                    ||| m == m1 && code_undecodable(m0, id@) && e == Error::Codec
                    ||| m == m1 && !code_undecodable(m0, id@) && put_refused::<D>(
                        m1,
                        id@,
                        Column::ContractsInfo,
                        contract_info_encoding(salt@, root@),
                        e,
                    )
                    ||| m == m2 && !code_undecodable(m0, id@) && info_undecodable(m0, id@) && e == Error::Codec
                    ||| !code_undecodable(m0, id@) && !info_undecodable(m0, id@) && exists|k: int|
                        0 <= k < n && #[trigger] init_failed_at::<D>(m2, id@, slots@, k, m, e)
                })
            }),
    {
        match storage_contract_insert(&mut self.database, id, contract) {
            Ok(_) => {},
            Err(e) => return Err(e),
        }
        match storage_contract_root_insert(&mut self.database, id, salt, root) {
            Ok(_) => {},
            Err(e) => return Err(e),
        }
        init_contract_state(&mut self.database, id, slots)
    }

    /// Writes `values` into the consecutive slots of contract `contract_id`
    /// from `start_key` on. Fails, writing nothing, when the last slot would
    /// lie past the key space; fails with `Error::Codec` at the first slot
    /// whose old value does not decode, after writing up to that slot.
    /// Otherwise gives `None` when some slot held no value, and `Some(())`
    /// when all did.
    pub fn merkle_contract_state_insert_range(
        &mut self,
        contract_id: &[u8; 32],
        start_key: &[u8; 32],
        values: &[[u8; 32]],
    ) -> (r: Result<Option<()>, Error>)
        requires
            old(self).spec_database().inv(),
        ensures
            final(self).spec_database().inv(),
            final(self).spec_database().infallible() == old(self).spec_database().infallible(),
            final(self).same_block(old(self)),
            be_value(start_key@) + values@.len() >= key_space() ==> {
                &&& r matches Err(Error::Other(OtherError::KeyspaceExceeded))
                &&& final(self).spec_database().contents() == old(self).spec_database().contents()
            },
            old(self).spec_database().infallible() && be_value(start_key@) + values@.len() < key_space() ==> {
                let m = old(self).spec_database().contents();
                let n = values@.len() as int;
                &&& (forall|j: int| 0 <= j < n ==> !#[trigger] undecodable_at(m, slot_key(contract_id@, start_key@, j))) ==> {
                    &&& final(self).spec_database().contents() == slots_written(m, contract_id@, start_key@, values@, n)
                    &&& r matches Ok(o)
                    &&& (o is None <==> some_slot_unset(m, contract_id@, start_key@, n))
                }
                &&& forall|i: int| first_undecodable(m, contract_id@, start_key@, n, i) ==> {
                    &&& final(self).spec_database().contents() == slots_written(m, contract_id@, start_key@, values@, i + 1)
                    &&& r matches Err(Error::Codec)
                }
            },
            r is Ok ==> ({
                let m = old(self).spec_database().contents();
                let n = values@.len() as int;
                &&& be_value(start_key@) + n < key_space()
                &&& forall|j: int| 0 <= j < n ==> !#[trigger] undecodable_at(m, slot_key(contract_id@, start_key@, j))
                &&& final(self).spec_database().contents() == slots_written(m, contract_id@, start_key@, values@, n)
                &&& r matches Ok(o) && (o is None <==> some_slot_unset(m, contract_id@, start_key@, n))
            }),
            r matches Err(e) ==> (be_value(start_key@) + values@.len() < key_space() ==> exists|k: int|
                0 <= k < values@.len() && #[trigger] insert_range_failed_at::<D>(
                    old(self).spec_database().contents(),
                    contract_id@,
                    start_key@,
                    values@,
                    k,
                    final(self).spec_database().contents(),
                    e,
                )),
    {
        let ghost m = self.database.contents();
        let ghost cid = contract_id@;
        let ghost st = start_key@;
        let ghost sv = be_value(start_key@);
        if key_add(start_key, values.len()).is_none() {
            assert(self.database.contents() == slots_written(m, cid, st, values@, 0));
            return Err(Error::Other(OtherError::KeyspaceExceeded));
        }
        let mut current: [u8; 32] = *start_key;
        proof {
            crate::bytes::lemma_be_value_bytes(st);
        }
        let mut found_unset = false;
        let mut i: usize = 0;
        while i < values.len()
            invariant
                cid == contract_id@,
                st == start_key@,
                sv == be_value(st),
                m == old(self).spec_database().contents(),
                self.spec_database().inv(),
                self.spec_database().infallible() == old(self).spec_database().infallible(),
                cid.len() == 32,
                st.len() == 32,
                sv + values@.len() < key_space(),
                0 <= i <= values@.len(),
                current@ == key_after(st, i as int),
                self.database.contents() == slots_written(m, cid, st, values@, i as int),
                self.same_block(old(self)),
                forall|j: int| 0 <= j < i ==> !#[trigger] undecodable_at(m, slot_key(cid, st, j)),
                found_unset == some_slot_unset(m, cid, st, i as int),
            decreases values@.len() - i,
        {
            proof {
                lemma_slot_key(cid, st, i as int);
                lemma_slots_written_frame(m, cid, st, values@, i as int, i as int);
            }
            let key = MultiKey::new(&(contract_id.as_slice(), current.as_slice()));
            let prev = insert_bytes32(&mut self.database, key.as_ref(), Column::ContractsState, &values[i]);
            match prev {
                Ok(p) => {
                    proof {
                        if p.is_none() {
                            assert(!m.contains_key((Column::ContractsState, slot_key(cid, st, i as int))));
                        }
                        if some_slot_unset(m, cid, st, i + 1) && !some_slot_unset(m, cid, st, i as int) {
                            let j = choose|j: int| 0 <= j < i + 1 && !m.contains_key((Column::ContractsState, #[trigger] slot_key(cid, st, j)));
                            assert(j == i);
                        }
                    }
                    found_unset = found_unset || p.is_none();
                },
                Err(e) => {
                    proof {
                        assert(insert_range_failed_at::<D>(
                            old(self).spec_database().contents(),
                            contract_id@,
                            start_key@,
                            values@,
                            i as int,
                            self.spec_database().contents(),
                            e,
                        ));
                        if old(self).spec_database().infallible() {
                            assert(undecodable_at(m, slot_key(cid, st, i as int)));
                            assert(self.database.contents() == slots_written(m, cid, st, values@, i + 1));
                            assert(e matches Error::Codec);
                            assert(first_undecodable(m, cid, st, values@.len() as int, i as int));
                            assert(!(forall|j: int| 0 <= j < values@.len() ==> !#[trigger] undecodable_at(m, slot_key(cid, st, j))));
                            assert forall|k: int| first_undecodable(m, cid, st, values@.len() as int, k) implies k == i by {
                                if k < i {
                                } else if k > i {
                                    assert(!undecodable_at(m, slot_key(cid, st, i as int)));
                                }
                            }
                        }
                    }
                    return Err(e);
                },
            }
            proof {
                lemma_be_value_bound(current@);
            }
            current = match key_add(&current, 1) {
                Some(k) => k,
                None => {
                    proof {
                        assert(false);
                    }
                    return Err(Error::Other(OtherError::KeyspaceExceeded));
                },
            };
            proof {
                lemma_be_bytes_value((sv + i + 1) as nat, 32);
            }
            i = i + 1;
        }
        proof {
            assert(forall|k: int| !first_undecodable(m, cid, st, values@.len() as int, k));
        }
        if found_unset {
            Ok(None)
        } else {
            Ok(Some(()))
        }
    }
    /// Removes `range` consecutive slots of contract `contract_id` from
    /// `start_key` on. The slots up to the last key are removed; when the
    /// range runs past the last key the removal stops there and fails. It
    /// fails with `Error::Codec` at the first slot whose old value does not
    /// decode, after removing up to that slot. Otherwise gives `None` when some
    /// slot held no value, and `Some(())` when all did.
    pub fn merkle_contract_state_remove_range(
        &mut self,
        contract_id: &[u8; 32],
        start_key: &[u8; 32],
        range: usize,
    ) -> (r: Result<Option<()>, Error>)
        requires
            old(self).spec_database().inv(),
        ensures
            final(self).spec_database().inv(),
            final(self).spec_database().infallible() == old(self).spec_database().infallible(),
            final(self).same_block(old(self)),
            old(self).spec_database().infallible() ==> ({
                let m = old(self).spec_database().contents();
                let sv = be_value(start_key@);
                let cnt = if sv + range < key_space() { range as int } else { key_space() - sv };
                &&& (forall|j: int| 0 <= j < cnt ==> !#[trigger] undecodable_at(m, slot_key(contract_id@, start_key@, j))) ==> {
                    &&& final(self).spec_database().contents() == slots_removed(m, contract_id@, start_key@, cnt)
                    &&& sv + range < key_space() ==> (r matches Ok(o) && (o is None <==> some_slot_unset(m, contract_id@, start_key@, cnt)))
                    &&& sv + range >= key_space() ==> r matches Err(Error::Other(OtherError::KeyspaceExceeded))
                }
                &&& forall|i: int| first_undecodable(m, contract_id@, start_key@, cnt, i) ==> {
                    &&& final(self).spec_database().contents() == slots_removed(m, contract_id@, start_key@, i + 1)
                    &&& r matches Err(Error::Codec)
                }
            }),
            r is Ok ==> ({
                let m = old(self).spec_database().contents();
                &&& be_value(start_key@) + range < key_space()
                &&& forall|j: int| 0 <= j < range ==> !#[trigger] undecodable_at(m, slot_key(contract_id@, start_key@, j))
                &&& final(self).spec_database().contents() == slots_removed(m, contract_id@, start_key@, range as int)
                &&& r matches Ok(o) && (o is None <==> some_slot_unset(m, contract_id@, start_key@, range as int))
            }),
            r matches Err(e) ==> ({
                let m = old(self).spec_database().contents();
                let sv = be_value(start_key@);
                let cnt = if sv + range < key_space() { range as int } else { key_space() - sv };
                ||| {
                    &&& sv + range >= key_space()
                    &&& e == Error::Other(OtherError::KeyspaceExceeded)
                    &&& final(self).spec_database().contents() == slots_removed(m, contract_id@, start_key@, cnt)
                    &&& forall|j: int| 0 <= j < cnt ==> !#[trigger] undecodable_at(m, slot_key(contract_id@, start_key@, j))
                }
                ||| exists|k: int|
                    0 <= k < cnt && #[trigger] remove_range_failed_at::<D>(
                        m,
                        contract_id@,
                        start_key@,
                        k,
                        final(self).spec_database().contents(),
                        e,
                    )
            }),
    {
        let ghost m = self.database.contents();
        let ghost cid = contract_id@;
        let ghost st = start_key@;
        let ghost sv = be_value(start_key@);
        let ghost cnt = if sv + range < key_space() { range as int } else { key_space() - sv };
        let mut current: [u8; 32] = *start_key;
        proof {
            crate::bytes::lemma_be_value_bytes(st);
            lemma_be_value_bound(st);
        }
        let mut found_unset = false;
        let mut i: usize = 0;
        while i < range
            invariant
                cid == contract_id@,
                st == start_key@,
                sv == be_value(st),
                m == old(self).spec_database().contents(),
                self.spec_database().inv(),
                self.spec_database().infallible() == old(self).spec_database().infallible(),
                cnt == (if sv + range < key_space() { range as int } else { key_space() - sv }),
                cid.len() == 32,
                st.len() == 32,
                0 <= i <= range,
                i <= cnt,
                sv + i < key_space(),
                current@ == key_after(st, i as int),
                self.database.contents() == slots_removed(m, cid, st, i as int),
                self.same_block(old(self)),
                forall|j: int| 0 <= j < i ==> !#[trigger] undecodable_at(m, slot_key(cid, st, j)),
                found_unset == some_slot_unset(m, cid, st, i as int),
            decreases range - i,
        {
            proof {
                lemma_slot_key(cid, st, i as int);
                lemma_slots_removed_frame(m, cid, st, i as int, i as int);
            }
            let key = MultiKey::new(&(contract_id.as_slice(), current.as_slice()));
            let prev = remove_bytes32(&mut self.database, key.as_ref(), Column::ContractsState);
            match prev {
                Ok(p) => {
                    proof {
                        if p.is_none() {
                            assert(!m.contains_key((Column::ContractsState, slot_key(cid, st, i as int))));
                        }
                        if some_slot_unset(m, cid, st, i + 1) && !some_slot_unset(m, cid, st, i as int) {
                            let j = choose|j: int| 0 <= j < i + 1 && !m.contains_key((Column::ContractsState, #[trigger] slot_key(cid, st, j)));
                            assert(j == i);
                        }
                    }
                    found_unset = found_unset || p.is_none();
                },
                Err(e) => {
                    proof {
                        assert(remove_range_failed_at::<D>(
                            old(self).spec_database().contents(),
                            contract_id@,
                            start_key@,
                            i as int,
                            self.spec_database().contents(),
                            e,
                        ));
                        if old(self).spec_database().infallible() {
                            assert(undecodable_at(m, slot_key(cid, st, i as int)));
                            assert(self.database.contents() == slots_removed(m, cid, st, i + 1));
                            assert(e matches Error::Codec);
                            assert(first_undecodable(m, cid, st, cnt, i as int));
                            assert(!(forall|j: int| 0 <= j < cnt ==> !#[trigger] undecodable_at(m, slot_key(cid, st, j))));
                            assert forall|k: int| first_undecodable(m, cid, st, cnt, k) implies k == i by {
                                if k < i {
                                } else if k > i {
                                    assert(!undecodable_at(m, slot_key(cid, st, i as int)));
                                }
                            }
                        }
                    }
                    return Err(e);
                },
            }
            current = match key_add(&current, 1) {
                Some(k) => k,
                None => {
                    proof {
                        assert(i + 1 == cnt);
                        assert(self.database.contents() == slots_removed(m, cid, st, i + 1));
                        assert(self.database.contents() == slots_removed(m, cid, st, cnt));
                        assert(forall|k: int| !first_undecodable(m, cid, st, cnt, k));
                    }
                    return Err(Error::Other(OtherError::KeyspaceExceeded));
                },
            };
            proof {
                lemma_be_bytes_value((sv + i + 1) as nat, 32);
            }
            i = i + 1;
        }
        proof {
            assert(i == cnt);
            assert(forall|k: int| !first_undecodable(m, cid, st, cnt, k));
        }
        if found_unset {
            Ok(None)
        } else {
            Ok(Some(()))
        }
    }
    /// Reads `range` consecutive slots of contract `contract_id` from
    /// `start_key` on, walking the contract's stored state in key order from
    /// the start key. Each stored entry the walk reaches is decoded and read
    /// as the slot whose number its key's bytes after the contract id denote;
    /// the slots before it that the walk has not given yet are `None`, and an
    /// entry whose number lies before the next slot gives nothing. Slots past
    /// the last entry are `None`. Fails with `Error::Codec` on an entry that
    /// does not decode or whose key is longer than 64 bytes, and when a slot
    /// given is the last key. Where every stored state key that the walk can
    /// meet is 64 bytes long, each slot's value is the one stored under its
    /// key (`slot_range_result`).
    pub fn merkle_contract_state_range(
        &self,
        contract_id: &[u8; 32],
        start_key: &[u8; 32],
        range: usize,
    ) -> (r: Result<Vec<Option<[u8; 32]>>, Error>)
        requires
            self.spec_database().inv(),
        ensures
            ({
                let m = self.spec_database().contents();
                &&& range_read_result(m, contract_id@, start_key@, range as nat, r)
                &&& (forall|k: Seq<u8>| !#[trigger] malformed_state_key(m, contract_id@, start_key@, k))
                    ==> slot_range_result(m, contract_id@, start_key@, range as nat, r)
            }) || (!self.spec_database().infallible() && (r matches Err(e) && exists|p: Option<Vec<u8>>, q: Option<Vec<u8>>|
                opt_bytes(p) == Some(contract_id@) && opt_bytes(q) == Some(contract_id@ + start_key@) && #[trigger] call_ensures(
                    D::iter_all,
                    (&self.spec_database(), Column::ContractsState, p, q, IterDirection::Forward),
                    Err::<Vec<(Vec<u8>, Vec<u8>)>, Error>(e),
                ))),
    {
        let ghost m = self.database.contents();
        let ghost cid = contract_id@;
        let ghost st = start_key@;
        let ghost sv = be_value(start_key@);
        let ghost rn = range as nat;
        let prefix = vstd::slice::slice_to_vec(contract_id.as_slice());
        let start = MultiKey::new(&(contract_id.as_slice(), start_key.as_slice())).into_vec();
        let entries = match self.database.iter_all(Column::ContractsState, Some(prefix), Some(start), IterDirection::Forward) {
            Ok(items) => items,
            Err(e) => return Err(e),
        };
        let ghost e = pairs_view(entries@);
        let ghost wf = forall|k: Seq<u8>| !#[trigger] malformed_state_key(m, cid, st, k);
        proof {
            if wf {
                lemma_scan_facts(m, cid, st, e);
            }
            lemma_be_value_bytes(st);
            lemma_be_value_bound(st);
        }
        let mut expected: [u8; 32] = *start_key;
        let mut results: Vec<Option<[u8; 32]>> = Vec::new();
        let mut idx: usize = 0;
        proof {
            assert(results_view(results@) =~= Seq::<Option<Seq<u8>>>::empty());
        }
        while results.len() < range && idx < entries.len()
            invariant
                m == self.spec_database().contents(),
                self.spec_database().inv(),
                cid == contract_id@,
                st == start_key@,
                sv == be_value(st),
                rn == range,
                cid.len() == 32,
                st.len() == 32,
                e == pairs_view(entries@),
                is_iteration(m, Column::ContractsState, Some(cid), Some(cid + st), IterDirection::Forward, e),
                wf == (forall|k: Seq<u8>| !#[trigger] malformed_state_key(m, cid, st, k)),
                wf ==> scan_facts(m, cid, sv, e),
                0 <= idx <= e.len(),
                results.len() <= range,
                sv + results.len() < key_space(),
                expected@ == key_after(st, results.len() as int),
                range_walk(e, sv, rn, 0, Seq::empty()) == range_walk(e, sv, rn, idx as nat, results_view(results@)),
                forall|j: int| 0 <= j < idx ==> bytes32_decoding(#[trigger] e[j].1) is Some,
                wf && results.len() < range ==> forall|j: int| 0 <= j < idx ==> #[trigger] slot_number(e[j].0) < sv + results.len(),
                wf && results.len() == range && range > 0 ==> idx > 0 && slot_number(e[idx - 1].0) + 1 >= sv + range,
                wf ==> forall|i: int| 0 <= i < results.len() ==> #[trigger] opt_array_view(results@[i]) == slot_value(m, slot_key(cid, st, i)),
            decreases e.len() - idx,
        {
            let entry = &entries[idx];
            assert(entry.0@ == e[idx as int].0 && entry.1@ == e[idx as int].1);
            proof {
                assert(crate::store::selected(e[idx as int].0, Some(cid), Some(cid + st), IterDirection::Forward));
            }
            let value = match decode_bytes32(entry.1.as_slice()) {
                Ok(v) => v,
                Err(err) => {
                    proof {
                        if wf {
                            let k = e[idx as int].0;
                            assert forall|k2: Seq<u8>| #[trigger] in_scan(m, cid, sv, k2) && slot_number(k2) < slot_number(k)
                                implies slot_number(k2) + 1 < sv + range by {
                                let j2 = choose|j: int| 0 <= j < e.len() && e[j].0 == k2;
                                if j2 >= idx {
                                    if j2 > idx {
                                        assert(slot_number(e[idx as int].0) < slot_number(e[j2].0));
                                    }
                                } else {
                                    assert(slot_number(e[j2].0) < sv + results.len());
                                }
                            }
                            assert(scan_visits(m, cid, sv, range as nat, k) && undecodable_at(m, k));
                        }
                    }
                    return Err(err);
                },
            };
            if entry.0.len() > 64 {
                return Err(Error::Codec);
            }
            let tail = vstd::slice::slice_subrange(entry.0.as_slice(), 32, entry.0.len());
            let actual = crate::keyspace::u256_from_big_endian(tail);
            let ghost a = key_number(e[idx as int].0);
            let ghost rl0 = results.len();
            let ghost acc0 = results_view(results@);
            proof {
                assert(tail@ == e[idx as int].0.subrange(32, e[idx as int].0.len() as int));
                lemma_be_value_bound(actual@);
                if wf {
                    crate::bytes::lemma_be_value_injective(actual@, e[idx as int].0.subrange(32, 64));
                }
            }
            while !bytes_lt(actual.as_slice(), expected.as_slice()) && results.len() < range
                invariant
                    m == self.spec_database().contents(),
                    self.spec_database().inv(),
                    cid == contract_id@,
                    st == start_key@,
                    sv == be_value(st),
                    rn == range,
                    cid.len() == 32,
                    st.len() == 32,
                    e == pairs_view(entries@),
                    is_iteration(m, Column::ContractsState, Some(cid), Some(cid + st), IterDirection::Forward, e),
                    wf == (forall|k: Seq<u8>| !#[trigger] malformed_state_key(m, cid, st, k)),
                    wf ==> scan_facts(m, cid, sv, e),
                    0 <= idx < e.len(),
                    be_value(actual@) == a,
                    a == key_number(e[idx as int].0),
                    wf ==> actual@ == e[idx as int].0.subrange(32, 64),
                    wf ==> a == slot_number(e[idx as int].0),
                    a < key_space(),
                    value@ == bytes32_decoding(e[idx as int].1).unwrap(),
                    bytes32_decoding(e[idx as int].1) is Some,
                    rl0 <= results.len() <= range,
                    rl0 < range,
                    acc0.len() == rl0,
                    range_walk(e, sv, rn, 0, Seq::empty()) == (match slots_through(sv, rn, acc0, a, value@) {
                        Ok(next) => range_walk(e, sv, rn, (idx + 1) as nat, next),
                        Err(err) => Err(err),
                    }),
                    slots_through(sv, rn, acc0, a, value@) == slots_through(sv, rn, results_view(results@), a, value@),
                    results.len() > rl0 ==> sv + results.len() <= a + 1,
                    forall|j: int| 0 <= j < idx ==> bytes32_decoding(#[trigger] e[j].1) is Some,
                    sv + results.len() < key_space(),
                    expected@ == key_after(st, results.len() as int),
                    wf ==> forall|j: int| 0 <= j < idx ==> #[trigger] slot_number(e[j].0) < sv + rl0,
                    wf ==> forall|i: int| 0 <= i < results.len() ==> #[trigger] opt_array_view(results@[i]) == slot_value(m, slot_key(cid, st, i)),
                decreases range - results.len(),
            {
                let ghost rl = results.len();
                let ghost cur = results_view(results@);
                proof {
                    lemma_slot_key(cid, st, rl as int);
                    lemma_lex_is_numeric(actual@, expected@);
                    assert(a >= sv + rl);
                    if wf {
                        lemma_slot_key_of(cid, st, rl as int, e[idx as int].0);
                    }
                }
                if bytes_eq(expected.as_slice(), actual.as_slice()) {
                    results.push(Some(value));
                    proof {
                        if wf {
                            assert(e[idx as int].0 == slot_key(cid, st, rl as int));
                            assert(opt_array_view(results@[rl as int]) == slot_value(m, slot_key(cid, st, rl as int)));
                        }
                    }
                } else {
                    results.push(None);
                    proof {
                        if wf {
                            let k = slot_key(cid, st, rl as int);
                            if m.contains_key((Column::ContractsState, k)) {
                                assert(k.subrange(0, 32) =~= cid);
                                assert(in_scan(m, cid, sv, k));
                                let j2 = choose|j: int| 0 <= j < e.len() && e[j].0 == k;
                                assert(slot_number(e[j2].0) == sv + rl);
                                if j2 < idx {
                                    assert(slot_number(e[j2].0) < sv + rl0);
                                } else if j2 > idx {
                                    assert(slot_number(e[idx as int].0) < slot_number(e[j2].0));
                                }
                            }
                            assert(opt_array_view(results@[rl as int]) == slot_value(m, slot_key(cid, st, rl as int)));
                        }
                    }
                }
                proof {
                    assert(results_view(results@) =~= cur.push(if sv + cur.len() == a { Some(value@) } else { None }));
                }
                expected = match key_add(&expected, 1) {
                    Some(k) => k,
                    None => {
                        proof {
                            if wf {
                                assert forall|k: Seq<u8>| #[trigger] scan_visits(m, cid, sv, range as nat, k) implies !undecodable_at(m, k) by {
                                    let j2 = choose|j: int| 0 <= j < e.len() && e[j].0 == k;
                                    if j2 > idx {
                                        assert(slot_number(e[idx as int].0) < slot_number(e[j2].0));
                                        lemma_be_value_bound(e[j2].0.subrange(32, 64));
                                    } else if j2 < idx {
                                        assert(bytes32_decoding(e[j2].1) is Some);
                                    }
                                }
                            }
                        }
                        return Err(Error::Other(OtherError::KeyspaceExceeded));
                    },
                };
                proof {
                    lemma_be_bytes_value((sv + rl + 1) as nat, 32);
                    lemma_be_value_bytes(expected@);
                }
            }
            proof {
                lemma_slot_key(cid, st, results.len() as int);
                lemma_lex_is_numeric(actual@, expected@);
                assert(slots_through(sv, rn, results_view(results@), a, value@) == Ok::<Seq<Option<Seq<u8>>>, Error>(
                    results_view(results@),
                ));
            }
            idx = idx + 1;
        }
        proof {
            if wf {
                assert forall|k: Seq<u8>| #[trigger] scan_visits(m, cid, sv, range as nat, k) implies !undecodable_at(m, k) by {
                    let j2 = choose|j: int| 0 <= j < e.len() && e[j].0 == k;
                    if j2 >= idx {
                        assert(results.len() == range);
                        assert(slot_number(e[idx - 1].0) < slot_number(e[j2].0));
                        assert(in_scan(m, cid, sv, e[idx - 1].0));
                    }
                }
            }
        }
        while results.len() < range
            invariant
                m == self.spec_database().contents(),
                self.spec_database().inv(),
                cid == contract_id@,
                st == start_key@,
                sv == be_value(st),
                rn == range,
                cid.len() == 32,
                st.len() == 32,
                e == pairs_view(entries@),
                is_iteration(m, Column::ContractsState, Some(cid), Some(cid + st), IterDirection::Forward, e),
                wf == (forall|k: Seq<u8>| !#[trigger] malformed_state_key(m, cid, st, k)),
                wf ==> scan_facts(m, cid, sv, e),
                results.len() <= range,
                sv + results.len() < key_space(),
                expected@ == key_after(st, results.len() as int),
                range_walk(e, sv, rn, 0, Seq::empty()) == slots_to_end(sv, rn, results_view(results@)),
                wf && results.len() < range ==> forall|j: int| 0 <= j < e.len() ==> #[trigger] slot_number(e[j].0) < sv + results.len(),
                wf ==> forall|k: Seq<u8>| #[trigger] scan_visits(m, cid, sv, range as nat, k) ==> !undecodable_at(m, k),
                wf ==> forall|i: int| 0 <= i < results.len() ==> #[trigger] opt_array_view(results@[i]) == slot_value(m, slot_key(cid, st, i)),
            decreases range - results.len(),
        {
            let ghost rl = results.len();
            let ghost cur = results_view(results@);
            results.push(None);
            proof {
                lemma_slot_key(cid, st, rl as int);
                if wf {
                    let k = slot_key(cid, st, rl as int);
                    if m.contains_key((Column::ContractsState, k)) {
                        assert(k.subrange(0, 32) =~= cid);
                        assert(in_scan(m, cid, sv, k));
                        let j2 = choose|j: int| 0 <= j < e.len() && e[j].0 == k;
                        assert(slot_number(e[j2].0) < sv + rl);
                    }
                    assert(opt_array_view(results@[rl as int]) == slot_value(m, slot_key(cid, st, rl as int)));
                }
                assert(results_view(results@) =~= cur.push(None));
            }
            expected = match key_add(&expected, 1) {
                Some(k) => k,
                None => {
                    return Err(Error::Other(OtherError::KeyspaceExceeded));
                },
            };
            proof {
                lemma_be_bytes_value((sv + rl + 1) as nat, 32);
            }
        }
        proof {
            assert(slots_to_end(sv, rn, results_view(results@)) == Ok::<Seq<Option<Seq<u8>>>, Error>(results_view(results@)));
        }
        Ok(results)
    }
}

} // verus!
