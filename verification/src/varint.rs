//! A compact variable-length encoding of unsigned 64-bit integers.
//!
//! TLV streams favour small extension types and payload lengths, so both are
//! written as varints: one byte below 0xfd; otherwise a marker byte (0xfd,
//! 0xfe or 0xff) followed by the value in 2, 4 or 8 big-endian bytes.  A
//! decoder rejects a value written wider than necessary as `Malformed`, so
//! every value has exactly one accepted encoding.

use vstd::prelude::*;

use crate::bytes::{be_bytes, be_val, lemma_be_bytes_len, lemma_be_val_of_be_bytes,
    lemma_pow256_u64, write_be};
use crate::cursor::Cursor;
use crate::errors::DecodeError;

verus! {

/// How many bytes the varint encoding of `x` occupies.
pub open spec fn varint_len(x: u64) -> int {
    if x < 0xfd {
        1
    } else if x < 0x1_0000 {
        3
    } else if x < 0x1_0000_0000 {
        5
    } else {
        9
    }
}

/// The varint encoding of `x`.
pub open spec fn varint_enc(x: u64) -> Seq<u8> {
    if x < 0xfd {
        seq![x as u8]
    } else if x < 0x1_0000 {
        seq![0xfdu8] + be_bytes(x as nat, 2)
    } else if x < 0x1_0000_0000 {
        seq![0xfeu8] + be_bytes(x as nat, 4)
    } else {
        seq![0xffu8] + be_bytes(x as nat, 8)
    }
}

/// Parses a varint at `pos`: the value and the position just after it, or
/// `Truncated` when the buffer ends first, or `Malformed` when the value is
/// written wider than necessary.
pub open spec fn varint_dec(data: Seq<u8>, pos: int) -> Result<(u64, int), DecodeError>
    recommends
        0 <= pos,
{
    if pos + 1 > data.len() {
        Err(DecodeError::Truncated)
    } else {
        let b = data[pos];
        if b < 0xfd {
            Ok((b as u64, pos + 1))
        } else {
            let w: int = if b == 0xfd {
                2
            } else if b == 0xfe {
                4
            } else {
                8
            };
            let lo: nat = if b == 0xfd {
                0xfd
            } else if b == 0xfe {
                0x1_0000
            } else {
                0x1_0000_0000
            };
            if pos + 1 + w > data.len() {
                Err(DecodeError::Truncated)
            } else {
                let v = be_val(data.subrange(pos + 1, pos + 1 + w));
                if v < lo {
                    Err(DecodeError::Malformed)
                } else {
                    Ok((v as u64, pos + 1 + w))
                }
            }
        }
    }
}

pub proof fn lemma_varint_enc_len(x: u64)
    ensures
        varint_enc(x).len() == varint_len(x),
        1 <= varint_len(x) <= 9,
{
    if x < 0xfd {
    } else if x < 0x1_0000 {
        lemma_be_bytes_len(x as nat, 2);
    } else if x < 0x1_0000_0000 {
        lemma_be_bytes_len(x as nat, 4);
    } else {
        lemma_be_bytes_len(x as nat, 8);
    }
}

/// Wherever the encoding of `x` sits in a buffer, parsing there yields `x`
/// and consumes exactly the encoding.
pub proof fn lemma_varint_parse_at(data: Seq<u8>, pos: int, x: u64)
    requires
        0 <= pos,
        pos + varint_len(x) <= data.len(),
        data.subrange(pos, pos + varint_len(x)) == varint_enc(x),
    ensures
        varint_dec(data, pos) == Ok::<_, DecodeError>((x, pos + varint_len(x))),
{
    lemma_varint_enc_len(x);
    lemma_pow256_u64();
    let enc = varint_enc(x);
    assert(data[pos] == enc[0]);
    if x < 0xfd {
    } else {
        let w: int = varint_len(x) - 1;
        lemma_be_bytes_len(x as nat, w as nat);
        assert forall|i: int| 0 <= i < w implies #[trigger] data.subrange(pos + 1, pos + 1 + w)[i]
            == be_bytes(x as nat, w as nat)[i] by {
            assert(data.subrange(pos, pos + varint_len(x))[i + 1] == enc[i + 1]);
        }
        assert(data.subrange(pos + 1, pos + 1 + w) =~= be_bytes(x as nat, w as nat));
        lemma_be_val_of_be_bytes(x as nat, w as nat);
    }
}

/// Appends the varint encoding of `x` to `out`.
pub fn write_varint(out: &mut Vec<u8>, x: u64)
    ensures
        final(out)@ == old(out)@ + varint_enc(x),
{
    proof {
        lemma_pow256_u64();
    }
    if x < 0xfd {
        out.push(x as u8);
        assert(out@ =~= old(out)@ + varint_enc(x));
    } else if x < 0x1_0000 {
        out.push(0xfd);
        write_be(out, x, 2);
        assert(out@ =~= old(out)@ + varint_enc(x));
    } else if x < 0x1_0000_0000 {
        out.push(0xfe);
        write_be(out, x, 4);
        assert(out@ =~= old(out)@ + varint_enc(x));
    } else {
        out.push(0xff);
        write_be(out, x, 8);
        assert(out@ =~= old(out)@ + varint_enc(x));
    }
}

impl Cursor {
    /// Reads one varint.  On failure the cursor does not move.
    pub fn read_varint(&mut self, data: &Vec<u8>) -> (r: Result<u64, DecodeError>)
        requires
            old(self).pos <= data@.len(),
        ensures
            match r {
                Ok(x) => {
                    &&& varint_dec(data@, old(self).pos as int) == Ok::<_, DecodeError>(
                        (x, final(self).pos as int),
                    )
                    &&& old(self).pos < final(self).pos <= data@.len()
                },
                Err(e) => {
                    &&& varint_dec(data@, old(self).pos as int) == Err::<(u64, int), _>(e)
                    &&& final(self).pos == old(self).pos
                },
            },
    {
        let start = self.pos;
        if start == data.len() {
            return Err(DecodeError::Truncated);
        }
        let b = data[start];
        if b < 0xfd {
            self.pos = start + 1;
            return Ok(b as u64);
        }
        let w: usize = if b == 0xfd {
            2
        } else if b == 0xfe {
            4
        } else {
            8
        };
        let lo: u64 = if b == 0xfd {
            0xfd
        } else if b == 0xfe {
            0x1_0000
        } else {
            0x1_0000_0000
        };
        self.pos = start + 1;
        match self.read_be(data, w) {
            Ok(v) => {
                if v < lo {
                    self.pos = start;
                    Err(DecodeError::Malformed)
                } else {
                    Ok(v)
                }
            },
            Err(e) => {
                self.pos = start;
                Err(e)
            },
        }
    }

    /// The lookahead: parses the varint at the cursor without consuming any
    /// byte, or reports `None` at the end of the buffer.  Since the cursor
    /// does not move, everything inspected stays available to the next read.
    pub fn peek_varint(&self, data: &Vec<u8>) -> (r: Result<Option<u64>, DecodeError>)
        requires
            self.pos <= data@.len(),
        ensures
            match r {
                Ok(o) => match o {
                    Option::None => self.pos == data@.len(),
                    Option::Some(x) => {
                        &&& self.pos < data@.len()
                        &&& varint_dec(data@, self.pos as int) matches Ok(p) && p.0 == x
                    },
                },
                Err(e) => {
                    &&& self.pos < data@.len()
                    &&& varint_dec(data@, self.pos as int) == Err::<(u64, int), _>(e)
                },
            },
    {
        if self.pos == data.len() {
            return Ok(None);
        }
        let mut probe = Cursor { pos: self.pos };
        match probe.read_varint(data) {
            Ok(x) => Ok(Some(x)),
            Err(e) => Err(e),
        }
    }
}

} // verus!
