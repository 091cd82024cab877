//! A read cursor over an in-memory byte buffer.
//!
//! Every decode operation advances a `Cursor` through a caller-owned buffer.
//! Peeking methods take `&self`, so bytes inspected by a peek that is not
//! followed by a consuming read stay available, byte for byte.

use vstd::prelude::*;

use crate::bytes::{be_val, lemma_be_val_bound, lemma_be_val_subrange_step, lemma_pow256_increases,
    lemma_pow256_u64, pow256};
use crate::errors::DecodeError;

verus! {

/// A position within a byte buffer handed to each read.
pub struct Cursor {
    pub pos: usize,
}

impl Cursor {
    /// A cursor at the start of a buffer.
    pub fn new() -> (c: Cursor)
        ensures
            c.pos == 0,
    {
        Cursor { pos: 0 }
    }

    /// Reads the next `n` bytes (at most 8) as one big-endian number.
    pub fn read_be(&mut self, data: &Vec<u8>, n: usize) -> (r: Result<u64, DecodeError>)
        requires
            old(self).pos <= data@.len(),
            n <= 8,
        ensures
            match r {
                Ok(x) => {
                    &&& old(self).pos + n <= data@.len()
                    &&& final(self).pos == old(self).pos + n
                    &&& x == be_val(data@.subrange(old(self).pos as int, old(self).pos + n))
                    &&& x < pow256(n as nat)
                },
                Err(e) => {
                    &&& e == DecodeError::Truncated
                    &&& old(self).pos + n > data@.len()
                    &&& final(self).pos == old(self).pos
                },
            },
    {
        if n > data.len() - self.pos {
            return Err(DecodeError::Truncated);
        }
        let start = self.pos;
        let mut v: u64 = 0;
        let mut i: usize = 0;
        while i < n
            invariant
                start + n <= data@.len(),
                data@.len() <= usize::MAX,
                i <= n <= 8,
                v == be_val(data@.subrange(start as int, start as int + i)),
                v < pow256(i as nat),
            decreases n - i,
        {
            let b = data[start + i];
            proof {
                lemma_be_val_subrange_step(data@, start as int, i as int);
                lemma_be_val_bound(data@.subrange(start as int, start as int + i + 1));
                lemma_pow256_increases((i + 1) as nat, 8);
                lemma_pow256_u64();
            }
            v = v * 256 + (b as u64);
            i = i + 1;
        }
        proof {
            lemma_be_val_bound(data@.subrange(start as int, start as int + n));
        }
        self.pos = start + n;
        Ok(v)
    }

    /// Reads the next `n` bytes as an owned byte string.
    pub fn read_bytes(&mut self, data: &Vec<u8>, n: usize) -> (r: Result<Vec<u8>, DecodeError>)
        requires
            old(self).pos <= data@.len(),
        ensures
            match r {
                Ok(b) => {
                    &&& old(self).pos + n <= data@.len()
                    &&& final(self).pos == old(self).pos + n
                    &&& b@ == data@.subrange(old(self).pos as int, old(self).pos + n)
                },
                Err(e) => {
                    &&& e == DecodeError::Truncated
                    &&& old(self).pos + n > data@.len()
                    &&& final(self).pos == old(self).pos
                },
            },
    {
        if n > data.len() - self.pos {
            return Err(DecodeError::Truncated);
        }
        let start = self.pos;
        let mut b: Vec<u8> = Vec::new();
        let mut i: usize = 0;
        while i < n
            invariant
                start + n <= data@.len(),
                data@.len() <= usize::MAX,
                i <= n,
                b@ == data@.subrange(start as int, start as int + i),
            decreases n - i,
        {
            b.push(data[start + i]);
            i = i + 1;
            assert(b@ =~= data@.subrange(start as int, start as int + i));
        }
        self.pos = start + n;
        Ok(b)
    }
}

} // verus!
