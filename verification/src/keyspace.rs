//! Arithmetic on 32-byte big-endian storage keys, done with 256-bit integers.
use vstd::prelude::*;
use primitive_types::U256;
use crate::bytes::{be_bytes, be_value, key_space, lemma_be_value_bytes};

verus! {

/// `U256::checked_add` on the big-endian reading of `key` and `n`, written back
/// big-endian: `None` exactly when the sum does not fit in 256 bits.
#[verifier::external_body]
fn u256_checked_add(key: &[u8; 32], n: usize) -> (r: Option<[u8; 32]>)
    ensures
        be_value(key@) + n < key_space() ==> r.is_some() && be_value(r.unwrap()@) == be_value(key@) + n,
        be_value(key@) + n >= key_space() ==> r.is_none(),
{
    match U256::from_big_endian(key).checked_add(U256::from(n)) {
        Some(v) => {
            let mut b = [0u8; 32];
            v.to_big_endian(&mut b);
            Some(b)
        },
        None => None,
    }
}

/// `U256::from_big_endian` on `bytes`, written back as 32 big-endian bytes:
/// the number that `bytes` denote, read big-endian. It panics on more than
/// 32 bytes, which `requires` rules out.
#[verifier::external_body]
pub(crate) fn u256_from_big_endian(bytes: &[u8]) -> (r: [u8; 32])
    requires
        bytes@.len() <= 32,
    ensures
        be_value(r@) == be_value(bytes@),
{
    let mut b = [0u8; 32];
    U256::from_big_endian(bytes).to_big_endian(&mut b);
    b
}

/// The 32-byte key `n` places after `key`.
pub open spec fn key_after(key: Seq<u8>, n: int) -> Seq<u8> {
    be_bytes((be_value(key) + n) as nat, 32)
}

/// The key `n` places after `key`, or `None` when it is past the last key.
pub fn key_add(key: &[u8; 32], n: usize) -> (r: Option<[u8; 32]>)
    ensures
        be_value(key@) + n < key_space() ==> r.is_some() && r.unwrap()@ == key_after(key@, n as int),
        be_value(key@) + n >= key_space() ==> r.is_none(),
{
    let r = u256_checked_add(key, n);
    proof {
        if let Some(b) = r {
            lemma_be_value_bytes(b@);
            assert(b@ == key_after(key@, n as int));
        }
    }
    r
}

} // verus!
