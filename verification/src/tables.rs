//! The tables of the database: 32-byte values, contract code, and contract
//! salts, roots and state, stored in their columns of any key-value store in
//! their stored form.
use vstd::prelude::*;
use crate::codec::{
    byte_string_decoding, byte_string_encoding, bytes32_decoding, bytes32_encoding, decode_byte_string, decode_bytes32, decode_pair,
    encode_byte_string, encode_bytes32, encode_pair, pair_decoding, pair_encoding,
};
use crate::column::Column;
use crate::error::Error;
use crate::multikey::MultiKey;
use crate::store::{delete_refused, get_refused, lookup, put_refused, KeyValueStore};

verus! {

/// What reading a 32-byte value gives when `stored` is what the store held:
/// nothing when it held nothing, the decoded value, or `Error::Codec` when it
/// held something too short.
pub open spec fn bytes32_read(stored: Option<Seq<u8>>, r: Result<Option<[u8; 32]>, Error>) -> bool {
    match stored {
        None => r matches Ok(None),
        Some(b) => match bytes32_decoding(b) {
            Some(v) => r matches Ok(Some(a)) && a@ == v,
            None => r matches Err(Error::Codec),
        },
    }
}

/// What reading a stored byte string gives, as `bytes32_read` does for 32-byte values.
pub open spec fn byte_string_read(stored: Option<Seq<u8>>, r: Result<Option<Vec<u8>>, Error>) -> bool {
    match stored {
        None => r matches Ok(None),
        Some(b) => match byte_string_decoding(b) {
            Some(v) => r matches Ok(Some(a)) && a@ == v,
            None => r matches Err(Error::Codec),
        },
    }
}

/// The stored form of a contract's salt and state root: the pair's stored form.
pub open spec fn contract_info_encoding(salt: Seq<u8>, root: Seq<u8>) -> Seq<u8> {
    pair_encoding(salt, root)
}

/// What reading a stored salt and root gives.
pub open spec fn contract_info_read(stored: Option<Seq<u8>>, r: Result<Option<([u8; 32], [u8; 32])>, Error>) -> bool {
    match stored {
        None => r matches Ok(None),
        Some(b) => match pair_decoding(b) {
            Some(p) => r matches Ok(Some(a)) && a.0@ == p.0 && a.1@ == p.1,
            None => r matches Err(Error::Codec),
        },
    }
}

/// The code stored for contract `id` does not decode.
pub open spec fn code_undecodable(m: Map<(Column, Seq<u8>), Seq<u8>>, id: Seq<u8>) -> bool {
    m.contains_key((Column::ContractsRawCode, id)) && byte_string_decoding(m[(Column::ContractsRawCode, id)]) is None
}

/// The salt and root stored for contract `id` do not decode.
pub open spec fn info_undecodable(m: Map<(Column, Seq<u8>), Seq<u8>>, id: Seq<u8>) -> bool {
    m.contains_key((Column::ContractsInfo, id)) && pair_decoding(m[(Column::ContractsInfo, id)]) is None
}

/// The contents after storing the first `n` of `slots` as the state of contract `id`, in order.
pub open spec fn state_initialized(
    m: Map<(Column, Seq<u8>), Seq<u8>>,
    id: Seq<u8>,
    slots: Seq<([u8; 32], [u8; 32])>,
    n: int,
) -> Map<(Column, Seq<u8>), Seq<u8>>
    decreases n,
{
    if n <= 0 {
        m
    } else {
        state_initialized(m, id, slots, n - 1).insert((Column::ContractsState, id + slots[n - 1].0@), bytes32_encoding(slots[n - 1].1@))
    }
}

/// Storing slot `i` meets an old value that does not decode.
pub open spec fn init_meets_undecodable(
    m: Map<(Column, Seq<u8>), Seq<u8>>,
    id: Seq<u8>,
    slots: Seq<([u8; 32], [u8; 32])>,
    i: int,
) -> bool {
    let before = state_initialized(m, id, slots, i);
    let k = id + slots[i].0@;
    before.contains_key((Column::ContractsState, k)) && bytes32_decoding(before[(Column::ContractsState, k)]) is None
}

/// Storing `slots` as the state of contract `id` on contents `m` ended at
/// slot `k` with error `e`, leaving `after`: every slot before `k` met an old
/// value that decodes, and either slot `k` met one that does not, after its
/// write (`Error::Codec`), or the store refused the write of slot `k`.
pub open spec fn init_failed_at<D: KeyValueStore>(
    m: Map<(Column, Seq<u8>), Seq<u8>>,
    id: Seq<u8>,
    slots: Seq<([u8; 32], [u8; 32])>,
    k: int,
    after: Map<(Column, Seq<u8>), Seq<u8>>,
    e: Error,
) -> bool {
    &&& forall|j: int| 0 <= j < k ==> !#[trigger] init_meets_undecodable(m, id, slots, j)
    &&& {
        ||| init_meets_undecodable(m, id, slots, k) && after == state_initialized(m, id, slots, k + 1) && e == Error::Codec
        ||| after == state_initialized(m, id, slots, k) && put_refused::<D>(
            state_initialized(m, id, slots, k),
            id + slots[k].0@,
            Column::ContractsState,
            bytes32_encoding(slots[k].1@),
            e,
        )
    }
}

/// A 32-byte value written is read back as written.
pub proof fn lemma_bytes32_read_after_write(m: Map<(Column, Seq<u8>), Seq<u8>>, c: Column, k: Seq<u8>, v: [u8; 32])
    ensures
        forall|r: Result<Option<[u8; 32]>, Error>| bytes32_read(lookup(m.insert((c, k), bytes32_encoding(v@)), c, k), r)
            <==> (r matches Ok(Some(a)) && a@ == v@),
{
    crate::codec::lemma_bytes32_roundtrip(v@);
}

/// Storing the state of contract `id` stores every slot: after the first
/// `n` of `slots`, the key `id ++ k` of each slot `i < n` that no later slot
/// before `n` repeats holds the stored form of its value, which decodes to
/// that value; every other key holds what it held before.
pub proof fn lemma_state_initialized_stores_each_slot(
    m: Map<(Column, Seq<u8>), Seq<u8>>,
    id: Seq<u8>,
    slots: Seq<([u8; 32], [u8; 32])>,
    n: int,
)
    requires
        0 <= n <= slots.len(),
    ensures
        forall|i: int|
            0 <= i < n && (forall|j: int| i < j < n ==> slots[j].0 != slots[i].0) ==> {
                let w = state_initialized(m, id, slots, n);
                let k = (Column::ContractsState, id + #[trigger] slots[i].0@);
                &&& w.contains_key(k)
                &&& w[k] == bytes32_encoding(slots[i].1@)
                &&& bytes32_decoding(w[k]) == Some(slots[i].1@)
            },
        forall|key: (Column, Seq<u8>)|
            (forall|j: int| 0 <= j < n ==> key != (Column::ContractsState, id + #[trigger] slots[j].0@)) ==> (
            #[trigger] state_initialized(m, id, slots, n).contains_key(key) == m.contains_key(key) && (m.contains_key(key)
                ==> state_initialized(m, id, slots, n)[key] == m[key])),
    decreases n,
{
    if n > 0 {
        lemma_state_initialized_stores_each_slot(m, id, slots, n - 1);
        assert forall|i: int|
            0 <= i < n && (forall|j: int| i < j < n ==> slots[j].0 != slots[i].0) implies {
                let w = state_initialized(m, id, slots, n);
                let k = (Column::ContractsState, id + #[trigger] slots[i].0@);
                &&& w.contains_key(k)
                &&& w[k] == bytes32_encoding(slots[i].1@)
                &&& bytes32_decoding(w[k]) == Some(slots[i].1@)
            } by {
            crate::codec::lemma_bytes32_roundtrip(slots[i].1@);
            if i < n - 1 {
                assert(slots[n - 1].0 != slots[i].0);
                if id + slots[n - 1].0@ == id + slots[i].0@ {
                    assert(slots[n - 1].0@ =~= (id + slots[n - 1].0@).subrange(id.len() as int, id.len() as int + 32));
                    assert(slots[i].0@ =~= (id + slots[i].0@).subrange(id.len() as int, id.len() as int + 32));
                    assert(slots[n - 1].0 == slots[i].0);
                }
            }
        }
        assert forall|key: (Column, Seq<u8>)|
            (forall|j: int| 0 <= j < n ==> key != (Column::ContractsState, id + #[trigger] slots[j].0@)) implies (
            #[trigger] state_initialized(m, id, slots, n).contains_key(key) == m.contains_key(key) && (m.contains_key(key)
                ==> state_initialized(m, id, slots, n)[key] == m[key])) by {
            assert(key != (Column::ContractsState, id + slots[n - 1].0@));
            assert(forall|j: int| 0 <= j < n - 1 ==> key != (Column::ContractsState, id + #[trigger] slots[j].0@));
        }
    }
}

/// The stored form of a contract's salt and root decodes, as the pair
/// `(Salt, Bytes32)` that the column holds, to the salt first and the root
/// second; and reading a stored pair gives its first element as the salt
/// and its second as the root.
pub proof fn lemma_contract_info_order(salt: [u8; 32], root: [u8; 32])
    ensures
        pair_decoding(contract_info_encoding(salt@, root@)) == Some((salt@, root@)),
        forall|b: Seq<u8>, r: Result<Option<([u8; 32], [u8; 32])>, Error>|
            #[trigger] contract_info_read(Some(b), r) && pair_decoding(b) is Some ==> (r matches Ok(Some(a))
                && pair_decoding(b) == Some((a.0@, a.1@))),
{
    crate::codec::lemma_pair_roundtrip(salt@, root@);
}

/// Stores the 32-byte `value` under `key` in `column`; gives back the value
/// replaced, decoded. The write happens even when the old value does not decode.
pub fn insert_bytes32<D: KeyValueStore>(db: &mut D, key: &[u8], column: Column, value: &[u8; 32]) -> (r: Result<Option<[u8; 32]>, Error>)
    requires
        old(db).inv(),
    ensures
        final(db).inv(),
        final(db).infallible() == old(db).infallible(),
        final(db).contents() == old(db).contents().insert((column, key@), bytes32_encoding(value@)) && bytes32_read(lookup(old(db).contents(), column, key@), r)
            || (!old(db).infallible() && final(db).contents() == old(db).contents()
                && (r matches Err(e) && put_refused::<D>(old(db).contents(), key@, column, bytes32_encoding(value@), e))),
{
    let bytes = match encode_bytes32(value) {
        Ok(b) => b,
        Err(e) => return Err(e),
    };
    let prev = match db.put(key, column, bytes) {
        Ok(p) => p,
        Err(e) => return Err(e),
    };
    match prev {
        Some(p) => match decode_bytes32(p.as_slice()) {
            Ok(v) => Ok(Some(v)),
            Err(e) => Err(e),
        },
        None => Ok(None),
    }
}

/// Removes `key` from `column`; gives back the value removed, decoded. The
/// removal happens even when the old value does not decode.
pub fn remove_bytes32<D: KeyValueStore>(db: &mut D, key: &[u8], column: Column) -> (r: Result<Option<[u8; 32]>, Error>)
    requires
        old(db).inv(),
    ensures
        final(db).inv(),
        final(db).infallible() == old(db).infallible(),
        final(db).contents() == old(db).contents().remove((column, key@)) && bytes32_read(lookup(old(db).contents(), column, key@), r)
            || (!old(db).infallible() && final(db).contents() == old(db).contents()
                && (r matches Err(e) && delete_refused::<D>(old(db).contents(), key@, column, e))),
{
    let prev = match db.delete(key, column) {
        Ok(p) => p,
        Err(e) => return Err(e),
    };
    match prev {
        Some(p) => match decode_bytes32(p.as_slice()) {
            Ok(v) => Ok(Some(v)),
            Err(e) => Err(e),
        },
        None => Ok(None),
    }
}

/// The 32-byte value under `key` in `column`, decoded.
pub fn get_bytes32<D: KeyValueStore>(db: &D, key: &[u8], column: Column) -> (r: Result<Option<[u8; 32]>, Error>)
    requires
        db.inv(),
    ensures
        bytes32_read(lookup(db.contents(), column, key@), r) || (!db.infallible() && (r matches Err(e) && get_refused(db, key@, column, e))),
{
    let stored = match db.get(key, column) {
        Ok(p) => p,
        Err(e) => return Err(e),
    };
    match stored {
        Some(p) => match decode_bytes32(p.as_slice()) {
            Ok(v) => Ok(Some(v)),
            Err(e) => Err(e),
        },
        None => Ok(None),
    }
}

/// Stores the code of contract `id`; gives back the code it replaces.
pub fn storage_contract_insert<D: KeyValueStore>(db: &mut D, id: &[u8; 32], code: &[u8]) -> (r: Result<Option<Vec<u8>>, Error>)
    requires
        old(db).inv(),
    ensures
        final(db).inv(),
        final(db).infallible() == old(db).infallible(),
        final(db).contents() == old(db).contents().insert((Column::ContractsRawCode, id@), byte_string_encoding(code@))
            && byte_string_read(lookup(old(db).contents(), Column::ContractsRawCode, id@), r)
            || (!old(db).infallible() && final(db).contents() == old(db).contents()
                && (r matches Err(e) && put_refused::<D>(old(db).contents(), id@, Column::ContractsRawCode, byte_string_encoding(code@), e))),
{
    let bytes = match encode_byte_string(code) {
        Ok(b) => b,
        Err(e) => return Err(e),
    };
    let prev = match db.put(id.as_slice(), Column::ContractsRawCode, bytes) {
        Ok(p) => p,
        Err(e) => return Err(e),
    };
    match prev {
        Some(p) => match decode_byte_string(p.as_slice()) {
            Ok(v) => Ok(Some(v)),
            Err(e) => Err(e),
        },
        None => Ok(None),
    }
}

/// Stores the salt and state root of contract `id`; gives back the pair it replaces.
pub fn storage_contract_root_insert<D: KeyValueStore>(db: &mut D, id: &[u8; 32], salt: &[u8; 32], root: &[u8; 32]) -> (r: Result<
    Option<([u8; 32], [u8; 32])>,
    Error,
>)
    requires
        old(db).inv(),
    ensures
        final(db).inv(),
        final(db).infallible() == old(db).infallible(),
        final(db).contents() == old(db).contents().insert((Column::ContractsInfo, id@), contract_info_encoding(salt@, root@))
            && contract_info_read(lookup(old(db).contents(), Column::ContractsInfo, id@), r)
            || (!old(db).infallible() && final(db).contents() == old(db).contents()
                && (r matches Err(e) && put_refused::<D>(old(db).contents(), id@, Column::ContractsInfo, contract_info_encoding(salt@, root@), e))),
{
    let bytes = match encode_pair(salt, root) {
        Ok(b) => b,
        Err(e) => return Err(e),
    };
    let prev = match db.put(id.as_slice(), Column::ContractsInfo, bytes) {
        Ok(p) => p,
        Err(e) => return Err(e),
    };
    match prev {
        Some(p) => match decode_pair(p.as_slice()) {
            Ok(v) => Ok(Some(v)),
            Err(e) => Err(e),
        },
        None => Ok(None),
    }
}

/// Stores `slots` (key, value) as the state of contract `id`, one after the
/// other. Fails with `Error::Codec` at the first slot whose old value does
/// not decode, after storing up to that slot.
pub fn init_contract_state<D: KeyValueStore>(db: &mut D, id: &[u8; 32], slots: &[([u8; 32], [u8; 32])]) -> (r: Result<(), Error>)
    requires
        old(db).inv(),
    ensures
        final(db).inv(),
        final(db).infallible() == old(db).infallible(),
        old(db).infallible() ==> ({
            let m = old(db).contents();
            let n = slots@.len() as int;
            &&& (forall|i: int| 0 <= i < n ==> !#[trigger] init_meets_undecodable(m, id@, slots@, i)) ==> {
                &&& r is Ok
                &&& final(db).contents() == state_initialized(m, id@, slots@, n)
            }
            &&& forall|i: int|
                0 <= i < n && init_meets_undecodable(m, id@, slots@, i) && (forall|j: int|
                    0 <= j < i ==> !#[trigger] init_meets_undecodable(m, id@, slots@, j)) ==> {
                    &&& r matches Err(Error::Codec)
                    &&& final(db).contents() == state_initialized(m, id@, slots@, i + 1)
                }
        }),
        r is Ok ==> {
            &&& final(db).contents() == state_initialized(old(db).contents(), id@, slots@, slots@.len() as int)
            &&& forall|i: int| 0 <= i < slots@.len() ==> !#[trigger] init_meets_undecodable(old(db).contents(), id@, slots@, i)
        },
        r matches Err(e) ==> exists|k: int|
            0 <= k < slots@.len() && #[trigger] init_failed_at::<D>(old(db).contents(), id@, slots@, k, final(db).contents(), e),
{
    let ghost m = db.contents();
    let mut i: usize = 0;
    while i < slots.len()
        invariant
            m == old(db).contents(),
            db.inv(),
            db.infallible() == old(db).infallible(),
            0 <= i <= slots.len(),
            db.contents() == state_initialized(m, id@, slots@, i as int),
            forall|j: int| 0 <= j < i ==> !#[trigger] init_meets_undecodable(m, id@, slots@, j),
        decreases slots.len() - i,
    {
        let key = MultiKey::new(&(id.as_slice(), slots[i].0.as_slice()));
        match insert_bytes32(db, key.as_ref(), Column::ContractsState, &slots[i].1) {
            Ok(_) => {
                assert(db.contents() == state_initialized(m, id@, slots@, i + 1));
            },
            Err(e) => {
                proof {
                    assert(init_failed_at::<D>(m, id@, slots@, i as int, db.contents(), e));
                    if old(db).infallible() {
                        assert(init_meets_undecodable(m, id@, slots@, i as int));
                        assert forall|k: int| 0 <= k < slots@.len() && init_meets_undecodable(m, id@, slots@, k) && (forall|j: int|
                            0 <= j < k ==> !#[trigger] init_meets_undecodable(m, id@, slots@, j)) implies k == i by {
                            if k > i {
                                assert(!init_meets_undecodable(m, id@, slots@, i as int));
                            }
                        }
                    }
                }
                return Err(e);
            },
        }
        i = i + 1;
    }
    Ok(())
}


} // verus!

