//! The TLV record codec: one (type, length, value) extension record.
//!
//! A record is a varint extension type, a varint payload length, then
//! exactly that many payload bytes; the payload's interpretation through the
//! field codec is the message codec's business.  Reading a record whose
//! declared length exceeds the remaining bytes reports `Truncated`.

use vstd::prelude::*;

use crate::bytes::write_bytes;
use crate::cursor::Cursor;
use crate::errors::DecodeError;
use crate::varint::{lemma_varint_enc_len, lemma_varint_parse_at, varint_dec, varint_enc,
    varint_len, write_varint};

verus! {

/// One decoded TLV record, its payload still raw.
#[derive(Clone, Debug, PartialEq, Eq)]
pub struct TlvRecord {
    /// The extension type that identifies the optional field carried.
    pub ext_type: u64,
    /// The raw payload, exactly as many bytes as the record declared.
    pub value: Vec<u8>,
}

/// The encoding of one TLV record with payload `payload`.
pub open spec fn tlv_enc(ext_type: u64, payload: Seq<u8>) -> Seq<u8>
    recommends
        payload.len() <= u64::MAX,
{
    varint_enc(ext_type) + varint_enc(payload.len() as u64) + payload
}

/// Parses one TLV record at `pos`: the extension type, the raw payload and
/// the position just after the record.
pub open spec fn tlv_dec(data: Seq<u8>, pos: int) -> Result<((u64, Seq<u8>), int), DecodeError>
    recommends
        0 <= pos,
{
    match varint_dec(data, pos) {
        Err(e) => Err(e),
        Ok((t, p1)) => match varint_dec(data, p1) {
            Err(e) => Err(e),
            Ok((l, p2)) => if p2 + l > data.len() {
                Err(DecodeError::Truncated)
            } else {
                Ok(((t, data.subrange(p2, p2 + l)), p2 + l))
            },
        },
    }
}

/// Wherever the encoding of a record sits in a buffer, parsing there yields
/// its extension type and payload and consumes exactly the encoding.
pub proof fn lemma_tlv_parse_at(data: Seq<u8>, pos: int, ext_type: u64, payload: Seq<u8>)
    requires
        payload.len() <= u64::MAX,
        0 <= pos,
        pos + tlv_enc(ext_type, payload).len() <= data.len(),
        data.subrange(pos, pos + tlv_enc(ext_type, payload).len()) == tlv_enc(ext_type, payload),
    ensures
        varint_dec(data, pos) == Ok::<_, DecodeError>((ext_type, pos + varint_len(ext_type))),
        tlv_dec(data, pos) == Ok::<_, DecodeError>(
            ((ext_type, payload), pos + tlv_enc(ext_type, payload).len()),
        ),
{
    let enc = tlv_enc(ext_type, payload);
    let l = payload.len() as u64;
    let a = varint_len(ext_type);
    let b = varint_len(l);
    lemma_varint_enc_len(ext_type);
    lemma_varint_enc_len(l);
    assert forall|i: int| 0 <= i < a implies #[trigger] data.subrange(pos, pos + a)[i]
        == varint_enc(ext_type)[i] by {
        assert(data.subrange(pos, pos + enc.len() as int)[i] == enc[i]);
    }
    assert(data.subrange(pos, pos + a) =~= varint_enc(ext_type));
    lemma_varint_parse_at(data, pos, ext_type);
    assert forall|i: int| 0 <= i < b implies #[trigger] data.subrange(pos + a, pos + a + b)[i]
        == varint_enc(l)[i] by {
        assert(data.subrange(pos, pos + enc.len() as int)[a + i] == enc[a + i]);
    }
    assert(data.subrange(pos + a, pos + a + b) =~= varint_enc(l));
    lemma_varint_parse_at(data, pos + a, l);
    assert forall|i: int| 0 <= i < payload.len() implies #[trigger] data.subrange(
        pos + a + b,
        pos + a + b + payload.len() as int,
    )[i] == payload[i] by {
        assert(data.subrange(pos, pos + enc.len() as int)[a + b + i] == enc[a + b + i]);
    }
    assert(data.subrange(pos + a + b, pos + a + b + payload.len() as int) =~= payload);
}

/// Appends one TLV record carrying `payload` under `ext_type`.
pub fn write_tlv_record(out: &mut Vec<u8>, ext_type: u64, payload: &Vec<u8>)
    ensures
        final(out)@ == old(out)@ + tlv_enc(ext_type, payload@),
{
    write_varint(out, ext_type);
    write_varint(out, payload.len() as u64);
    write_bytes(out, payload);
    assert(out@ =~= old(out)@ + tlv_enc(ext_type, payload@));
}

impl Cursor {
    /// Consumes one whole TLV record.  On failure the cursor does not move.
    pub fn read_tlv_record(&mut self, data: &Vec<u8>) -> (r: Result<TlvRecord, DecodeError>)
        requires
            old(self).pos <= data@.len(),
        ensures
            match r {
                Ok(rec) => {
                    &&& tlv_dec(data@, old(self).pos as int) == Ok::<_, DecodeError>(
                        ((rec.ext_type, rec.value@), final(self).pos as int),
                    )
                    &&& old(self).pos < final(self).pos <= data@.len()
                },
                Err(e) => {
                    &&& tlv_dec(data@, old(self).pos as int) == Err::<((u64, Seq<u8>), int), _>(e)
                    &&& final(self).pos == old(self).pos
                },
            },
    {
        let start = self.pos;
        let ext_type = match self.read_varint(data) {
            Ok(t) => t,
            Err(e) => {
                return Err(e);
            },
        };
        let l = match self.read_varint(data) {
            Ok(l) => l,
            Err(e) => {
                self.pos = start;
                return Err(e);
            },
        };
        if l > (data.len() - self.pos) as u64 {
            self.pos = start;
            return Err(DecodeError::Truncated);
        }
        match self.read_bytes(data, l as usize) {
            Ok(value) => Ok(TlvRecord { ext_type, value }),
            Err(e) => {
                self.pos = start;
                Err(e)
            },
        }
    }
}

} // verus!
