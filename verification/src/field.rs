//! The field codec: one scalar or byte-string field, serialized with no tag
//! and, except for the variable-length shape, no length prefix.  A field's
//! layout is determined entirely by its declared kind, and required fields
//! are written and read strictly in declaration order by the message codec.

use vstd::prelude::*;

use crate::bytes::{be_bytes, be_val, lemma_be_bytes_len, lemma_be_val_of_be_bytes,
    lemma_pow256_u64, pow256, write_be, write_bytes};
use crate::cursor::Cursor;
use crate::errors::DecodeError;

verus! {

/// The serialized shape of one field.
#[derive(Clone, Copy, Debug, PartialEq, Eq, Structural)]
pub enum FieldKind {
    /// One byte.
    U8,
    /// Two big-endian bytes.
    U16,
    /// Four big-endian bytes.
    U32,
    /// Eight big-endian bytes.
    U64,
    /// Exactly this many raw bytes, with no prefix.
    FixedBytes(usize),
    /// A two-byte big-endian length prefix, then that many bytes.
    VarBytes,
}

/// One field value.
#[derive(Clone, Debug, PartialEq, Eq)]
pub enum FieldValue {
    U8(u8),
    U16(u16),
    U32(u32),
    U64(u64),
    Bytes(Vec<u8>),
}

/// The mathematical model of a field value.
pub enum SpecFieldValue {
    U8(u8),
    U16(u16),
    U32(u32),
    U64(u64),
    Bytes(Seq<u8>),
}

impl View for FieldValue {
    type V = SpecFieldValue;

    open spec fn view(&self) -> SpecFieldValue {
        match self {
            FieldValue::U8(x) => SpecFieldValue::U8(*x),
            FieldValue::U16(x) => SpecFieldValue::U16(*x),
            FieldValue::U32(x) => SpecFieldValue::U32(*x),
            FieldValue::U64(x) => SpecFieldValue::U64(*x),
            FieldValue::Bytes(b) => SpecFieldValue::Bytes(b@),
        }
    }
}

/// Whether a value has the declared kind, with its domain restriction: a
/// fixed byte string must have exactly the declared length, and a
/// variable-length byte string must fit its two-byte length prefix.
pub open spec fn value_fits(k: FieldKind, v: SpecFieldValue) -> bool {
    match v {
        SpecFieldValue::U8(_) => k is U8,
        SpecFieldValue::U16(_) => k is U16,
        SpecFieldValue::U32(_) => k is U32,
        SpecFieldValue::U64(_) => k is U64,
        SpecFieldValue::Bytes(b) => match k {
            FieldKind::FixedBytes(n) => b.len() == n,
            FieldKind::VarBytes => b.len() < 0x1_0000,
            _ => false,
        },
    }
}

/// The encoding of one field of kind `k`.
pub open spec fn field_enc(k: FieldKind, v: SpecFieldValue) -> Seq<u8>
    recommends
        value_fits(k, v),
{
    match v {
        SpecFieldValue::U8(x) => seq![x],
        SpecFieldValue::U16(x) => be_bytes(x as nat, 2),
        SpecFieldValue::U32(x) => be_bytes(x as nat, 4),
        SpecFieldValue::U64(x) => be_bytes(x as nat, 8),
        SpecFieldValue::Bytes(b) => if k is VarBytes {
            be_bytes(b.len(), 2) + b
        } else {
            b
        },
    }
}

/// Parses one field of kind `k` at `pos`: the value and the position just
/// after it, or `Truncated` when fewer bytes remain than the kind requires.
pub open spec fn field_dec(k: FieldKind, data: Seq<u8>, pos: int) -> Result<
    (SpecFieldValue, int),
    DecodeError,
>
    recommends
        0 <= pos,
{
    match k {
        FieldKind::U8 => if pos + 1 > data.len() {
            Err(DecodeError::Truncated)
        } else {
            Ok((SpecFieldValue::U8(data[pos]), pos + 1))
        },
        FieldKind::U16 => if pos + 2 > data.len() {
            Err(DecodeError::Truncated)
        } else {
            Ok((SpecFieldValue::U16(be_val(data.subrange(pos, pos + 2)) as u16), pos + 2))
        },
        FieldKind::U32 => if pos + 4 > data.len() {
            Err(DecodeError::Truncated)
        } else {
            Ok((SpecFieldValue::U32(be_val(data.subrange(pos, pos + 4)) as u32), pos + 4))
        },
        FieldKind::U64 => if pos + 8 > data.len() {
            Err(DecodeError::Truncated)
        } else {
            Ok((SpecFieldValue::U64(be_val(data.subrange(pos, pos + 8)) as u64), pos + 8))
        },
        FieldKind::FixedBytes(n) => if pos + n > data.len() {
            Err(DecodeError::Truncated)
        } else {
            Ok((SpecFieldValue::Bytes(data.subrange(pos, pos + n)), pos + n))
        },
        FieldKind::VarBytes => if pos + 2 > data.len() {
            Err(DecodeError::Truncated)
        } else {
            let l = be_val(data.subrange(pos, pos + 2));
            if pos + 2 + l > data.len() {
                Err(DecodeError::Truncated)
            } else {
                Ok((SpecFieldValue::Bytes(data.subrange(pos + 2, pos + 2 + l)), pos + 2 + l))
            }
        },
    }
}

/// Wherever the encoding of a fitting value sits in a buffer, parsing there
/// yields that value and consumes exactly the encoding.
pub proof fn lemma_field_parse_at(data: Seq<u8>, pos: int, k: FieldKind, v: SpecFieldValue)
    requires
        value_fits(k, v),
        0 <= pos,
        pos + field_enc(k, v).len() <= data.len(),
        data.subrange(pos, pos + field_enc(k, v).len()) == field_enc(k, v),
    ensures
        field_dec(k, data, pos) == Ok::<_, DecodeError>((v, pos + field_enc(k, v).len())),
{
    let enc = field_enc(k, v);
    lemma_pow256_u64();
    match v {
        SpecFieldValue::U8(x) => {
            assert(data[pos] == enc[0]);
        },
        SpecFieldValue::U16(x) => {
            lemma_be_bytes_len(x as nat, 2);
            assert(data.subrange(pos, pos + 2) == enc);
            lemma_be_val_of_be_bytes(x as nat, 2);
        },
        SpecFieldValue::U32(x) => {
            lemma_be_bytes_len(x as nat, 4);
            assert(data.subrange(pos, pos + 4) == enc);
            lemma_be_val_of_be_bytes(x as nat, 4);
        },
        SpecFieldValue::U64(x) => {
            lemma_be_bytes_len(x as nat, 8);
            assert(data.subrange(pos, pos + 8) == enc);
            lemma_be_val_of_be_bytes(x as nat, 8);
        },
        SpecFieldValue::Bytes(b) => {
            if k is VarBytes {
                lemma_be_bytes_len(b.len(), 2);
                assert forall|i: int| 0 <= i < 2 implies #[trigger] data.subrange(pos, pos + 2)[i]
                    == be_bytes(b.len(), 2)[i] by {
                    assert(data.subrange(pos, pos + enc.len() as int)[i] == enc[i]);
                }
                assert(data.subrange(pos, pos + 2) =~= be_bytes(b.len(), 2));
                lemma_be_val_of_be_bytes(b.len(), 2);
                assert forall|i: int| 0 <= i < b.len() implies #[trigger] data.subrange(
                    pos + 2,
                    pos + 2 + b.len() as int,
                )[i] == b[i] by {
                    assert(data.subrange(pos, pos + enc.len() as int)[i + 2] == enc[i + 2]);
                }
                assert(data.subrange(pos + 2, pos + 2 + b.len() as int) =~= b);
            } else {
                assert(data.subrange(pos, pos + b.len() as int) == b);
            }
        },
    }
}

/// Parsing a field from a buffer that ends strictly inside the field's
/// encoding reports `Truncated`.
pub proof fn lemma_field_dec_truncated(data: Seq<u8>, pos: int, k: FieldKind, v: SpecFieldValue)
    requires
        value_fits(k, v),
        0 <= pos <= data.len(),
        data.len() - pos < field_enc(k, v).len(),
        data.subrange(pos, data.len() as int) == field_enc(k, v).take(data.len() - pos),
    ensures
        field_dec(k, data, pos) == Err::<(SpecFieldValue, int), _>(DecodeError::Truncated),
{
    let enc = field_enc(k, v);
    let m = data.len() - pos;
    lemma_pow256_u64();
    match v {
        SpecFieldValue::U8(_) => {},
        SpecFieldValue::U16(x) => {
            lemma_be_bytes_len(x as nat, 2);
        },
        SpecFieldValue::U32(x) => {
            lemma_be_bytes_len(x as nat, 4);
        },
        SpecFieldValue::U64(x) => {
            lemma_be_bytes_len(x as nat, 8);
        },
        SpecFieldValue::Bytes(b) => {
            if k is VarBytes {
                lemma_be_bytes_len(b.len(), 2);
                if m >= 2 {
                    assert forall|i: int| 0 <= i < 2 implies #[trigger] data.subrange(
                        pos,
                        pos + 2,
                    )[i] == be_bytes(b.len(), 2)[i] by {
                        assert(data.subrange(pos, data.len() as int)[i] == enc.take(m)[i]);
                    }
                    assert(data.subrange(pos, pos + 2) =~= be_bytes(b.len(), 2));
                    lemma_be_val_of_be_bytes(b.len(), 2);
                }
            }
        },
    }
}

/// Appends the encoding of `v`, which must fit the declared kind `k`.
pub fn write_field(out: &mut Vec<u8>, k: FieldKind, v: &FieldValue)
    requires
        value_fits(k, v@),
    ensures
        final(out)@ == old(out)@ + field_enc(k, v@),
{
    proof {
        lemma_pow256_u64();
    }
    match v {
        FieldValue::U8(x) => {
            out.push(*x);
            assert(out@ =~= old(out)@ + field_enc(k, v@));
        },
        FieldValue::U16(x) => {
            write_be(out, *x as u64, 2);
        },
        FieldValue::U32(x) => {
            write_be(out, *x as u64, 4);
        },
        FieldValue::U64(x) => {
            write_be(out, *x, 8);
        },
        FieldValue::Bytes(b) => {
            match k {
                FieldKind::VarBytes => {
                    write_be(out, b.len() as u64, 2);
                    write_bytes(out, b);
                    assert(out@ =~= old(out)@ + field_enc(k, v@));
                },
                _ => {
                    write_bytes(out, b);
                },
            }
        },
    }
}

impl Cursor {
    /// Reads one field of kind `k`.  On failure the cursor does not move.
    pub fn read_field(&mut self, data: &Vec<u8>, k: FieldKind) -> (r: Result<
        FieldValue,
        DecodeError,
    >)
        requires
            old(self).pos <= data@.len(),
        ensures
            match r {
                Ok(v) => {
                    &&& field_dec(k, data@, old(self).pos as int) == Ok::<_, DecodeError>(
                        (v@, final(self).pos as int),
                    )
                    &&& old(self).pos <= final(self).pos <= data@.len()
                },
                Err(e) => {
                    &&& field_dec(k, data@, old(self).pos as int) == Err::<
                        (SpecFieldValue, int),
                        _,
                    >(e)
                    &&& final(self).pos == old(self).pos
                },
            },
    {
        let ghost start = self.pos as int;
        match k {
            FieldKind::U8 => {
                match self.read_be(data, 1) {
                    Ok(x) => {
                        proof {
                            lemma_pow256_u64();
                            assert(data@.subrange(start, start + 1).drop_last() =~= Seq::<
                                u8,
                            >::empty());
                            assert(data@.subrange(start, start + 1).last() == data@[start]);
                        }
                        Ok(FieldValue::U8(x as u8))
                    },
                    Err(e) => Err(e),
                }
            },
            FieldKind::U16 => {
                match self.read_be(data, 2) {
                    Ok(x) => {
                        proof {
                            lemma_pow256_u64();
                        }
                        Ok(FieldValue::U16(x as u16))
                    },
                    Err(e) => Err(e),
                }
            },
            FieldKind::U32 => {
                match self.read_be(data, 4) {
                    Ok(x) => {
                        proof {
                            lemma_pow256_u64();
                        }
                        Ok(FieldValue::U32(x as u32))
                    },
                    Err(e) => Err(e),
                }
            },
            FieldKind::U64 => {
                match self.read_be(data, 8) {
                    Ok(x) => Ok(FieldValue::U64(x)),
                    Err(e) => Err(e),
                }
            },
            FieldKind::FixedBytes(n) => {
                match self.read_bytes(data, n) {
                    Ok(b) => Ok(FieldValue::Bytes(b)),
                    Err(e) => Err(e),
                }
            },
            FieldKind::VarBytes => {
                let prefix_start = self.pos;
                match self.read_be(data, 2) {
                    Ok(l) => {
                        proof {
                            lemma_pow256_u64();
                        }
                        match self.read_bytes(data, l as usize) {
                            Ok(b) => Ok(FieldValue::Bytes(b)),
                            Err(e) => {
                                self.pos = prefix_start;
                                Err(e)
                            },
                        }
                    },
                    Err(e) => Err(e),
                }
            },
        }
    }
}

} // verus!
