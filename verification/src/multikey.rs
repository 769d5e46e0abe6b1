//! Keys made of two parts, written one after the other.
use vstd::prelude::*;

verus! {

/// A key that is the concatenation of two keys.
#[derive(Debug)]
pub struct MultiKey {
    inner: Vec<u8>,
}

impl View for MultiKey {
    type V = Seq<u8>;

    closed spec fn view(&self) -> Seq<u8> {
        self.inner@
    }
}

impl MultiKey {
    /// The key made of `key.0` followed by `key.1`.
    pub fn new(key: &(&[u8], &[u8])) -> (r: Self)
        ensures
            r@ == key.0@ + key.1@,
    {
        let mut inner = vstd::slice::slice_to_vec(key.0);
        let second = key.1;
        let mut i: usize = 0;
        while i < second.len()
            invariant
                i <= second.len(),
                inner@ == key.0@ + second@.subrange(0, i as int),
            decreases second.len() - i,
        {
            inner.push(second[i]);
            assert(second@.subrange(0, i + 1) =~= second@.subrange(0, i as int).push(second@[i as int]));
            i = i + 1;
        }
        assert(second@.subrange(0, i as int) =~= second@);
        MultiKey { inner }
    }

    /// The key's bytes.
    pub fn as_ref(&self) -> (r: &[u8])
        ensures
            r@ == self@,
    {
        self.inner.as_slice()
    }

    /// The key's bytes, as a vector.
    pub fn into_vec(self) -> (r: Vec<u8>)
        ensures
            r@ == self@,
    {
        self.inner
    }
}

} // verus!
