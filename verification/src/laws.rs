//! The laws the codec obeys, proved over the same spec functions that the
//! executable functions' contracts use: round trip through one schema and
//! through a family, dispatch by tag, rejection of unknown tags, and
//! rejection of every truncation that cuts a required field short.

use vstd::prelude::*;

use crate::bytes::{be_bytes, be_val, lemma_be_bytes_len, lemma_be_val_of_be_bytes,
    lemma_pow256_u64};
use crate::errors::DecodeError;
use crate::family::{any_dec, family_wf, lemma_find_tag_first, lemma_find_tag_none};
use crate::field::{field_enc, lemma_field_dec_truncated, lemma_field_parse_at, value_fits,
    FieldKind, SpecFieldValue};
use crate::msg::{body_dec, fields_dec, fields_enc, msg_dec, msg_enc, tail_dec, tail_enc, OptSlot,
    SpecMessage, SpecSchema};
use crate::tlv::{lemma_tlv_parse_at, tlv_enc};
use crate::varint::lemma_varint_enc_len;

verus! {

/// Wherever the encoding of a fitting field sequence sits in a buffer,
/// parsing there yields those values and consumes exactly the encoding.
pub proof fn lemma_fields_parse_at(
    data: Seq<u8>,
    pos: int,
    ks: Seq<FieldKind>,
    vs: Seq<SpecFieldValue>,
)
    requires
        ks.len() == vs.len(),
        forall|i: int| 0 <= i < ks.len() ==> value_fits(ks[i], #[trigger] vs[i]),
        0 <= pos,
        pos + fields_enc(ks, vs).len() <= data.len(),
        data.subrange(pos, pos + fields_enc(ks, vs).len()) == fields_enc(ks, vs),
    ensures
        fields_dec(ks, data, pos) == Ok::<_, DecodeError>((vs, pos + fields_enc(ks, vs).len())),
    decreases ks.len(),
{
    let enc = fields_enc(ks, vs);
    if ks.len() == 0 {
        assert(vs =~= Seq::<SpecFieldValue>::empty());
    } else {
        let e0 = field_enc(ks[0], vs[0]);
        let rest = fields_enc(ks.skip(1), vs.skip(1));
        assert forall|i: int| 0 <= i < e0.len() implies #[trigger] data.subrange(
            pos,
            pos + e0.len() as int,
        )[i] == e0[i] by {
            assert(data.subrange(pos, pos + enc.len() as int)[i] == enc[i]);
        }
        assert(data.subrange(pos, pos + e0.len() as int) =~= e0);
        lemma_field_parse_at(data, pos, ks[0], vs[0]);
        let p1 = pos + e0.len() as int;
        assert forall|i: int| 0 <= i < rest.len() implies #[trigger] data.subrange(
            p1,
            p1 + rest.len() as int,
        )[i] == rest[i] by {
            assert(data.subrange(pos, pos + enc.len() as int)[e0.len() + i] == enc[e0.len() + i]);
        }
        assert(data.subrange(p1, p1 + rest.len() as int) =~= rest);
        assert forall|i: int| 0 <= i < ks.skip(1).len() implies value_fits(
            ks.skip(1)[i],
            #[trigger] vs.skip(1)[i],
        ) by {
            assert(value_fits(ks[i + 1], vs[i + 1]));
        }
        lemma_fields_parse_at(data, p1, ks.skip(1), vs.skip(1));
        assert(seq![vs[0]] + vs.skip(1) =~= vs);
    }
}

/// A buffer that ends strictly inside the encoding of a field sequence
/// parses to `Truncated`: the first field the cut lands in reports it.
pub proof fn lemma_fields_dec_truncated(
    data: Seq<u8>,
    pos: int,
    ks: Seq<FieldKind>,
    vs: Seq<SpecFieldValue>,
)
    requires
        ks.len() == vs.len(),
        forall|i: int| 0 <= i < ks.len() ==> value_fits(ks[i], #[trigger] vs[i]),
        0 <= pos <= data.len(),
        data.len() - pos < fields_enc(ks, vs).len(),
        data.subrange(pos, data.len() as int) == fields_enc(ks, vs).take(data.len() - pos),
    ensures
        fields_dec(ks, data, pos) == Err::<(Seq<SpecFieldValue>, int), _>(DecodeError::Truncated),
    decreases ks.len(),
{
    let enc = fields_enc(ks, vs);
    let m = data.len() - pos;
    if ks.len() == 0 {
        assert(false);
    } else {
        let e0 = field_enc(ks[0], vs[0]);
        let rest = fields_enc(ks.skip(1), vs.skip(1));
        if m < e0.len() {
            assert forall|i: int| 0 <= i < m implies #[trigger] data.subrange(
                pos,
                data.len() as int,
            )[i] == e0.take(m)[i] by {
                assert(enc.take(m)[i] == enc[i]);
            }
            assert(data.subrange(pos, data.len() as int) =~= e0.take(m));
            lemma_field_dec_truncated(data, pos, ks[0], vs[0]);
        } else {
            assert forall|i: int| 0 <= i < e0.len() implies #[trigger] data.subrange(
                pos,
                pos + e0.len() as int,
            )[i] == e0[i] by {
                assert(data.subrange(pos, data.len() as int)[i] == enc.take(m)[i]);
                assert(enc.take(m)[i] == enc[i]);
            }
            assert(data.subrange(pos, pos + e0.len() as int) =~= e0);
            lemma_field_parse_at(data, pos, ks[0], vs[0]);
            let p1 = pos + e0.len() as int;
            assert forall|i: int| 0 <= i < data.len() - p1 implies #[trigger] data.subrange(
                p1,
                data.len() as int,
            )[i] == rest.take(data.len() - p1)[i] by {
                assert(data.subrange(pos, data.len() as int)[e0.len() + i] == enc.take(m)[e0.len()
                    + i]);
                assert(enc.take(m)[e0.len() + i] == enc[e0.len() + i]);
            }
            assert(data.subrange(p1, data.len() as int) =~= rest.take(data.len() - p1));
            assert forall|i: int| 0 <= i < ks.skip(1).len() implies value_fits(
                ks.skip(1)[i],
                #[trigger] vs.skip(1)[i],
            ) by {
                assert(value_fits(ks[i + 1], vs[i + 1]));
            }
            lemma_fields_dec_truncated(data, p1, ks.skip(1), vs.skip(1));
        }
    }
}

/// The index of the first present optional value, or -1 when all absent.
spec fn first_present(vs: Seq<Option<SpecFieldValue>>) -> int
    decreases vs.len(),
{
    if vs.len() == 0 {
        -1
    } else if vs[0] is Some {
        0
    } else {
        let r = first_present(vs.skip(1));
        if r == -1 {
            -1
        } else {
            r + 1
        }
    }
}

proof fn lemma_first_present_props(vs: Seq<Option<SpecFieldValue>>)
    ensures
        -1 <= first_present(vs) < vs.len(),
        first_present(vs) == -1 ==> forall|i: int|
            0 <= i < vs.len() ==> (#[trigger] vs[i]) is None,
        first_present(vs) >= 0 ==> vs[first_present(vs)] is Some,
        forall|i: int| 0 <= i < first_present(vs) ==> (#[trigger] vs[i]) is None,
    decreases vs.len(),
{
    if vs.len() > 0 && !(vs[0] is Some) {
        lemma_first_present_props(vs.skip(1));
        let fps = first_present(vs.skip(1));
        if fps == -1 {
            assert forall|i: int| 0 <= i < vs.len() implies (#[trigger] vs[i]) is None by {
                if i > 0 {
                    assert(vs.skip(1)[i - 1] is None);
                }
            }
        } else {
            assert forall|i: int| 0 <= i < first_present(vs) implies (
            #[trigger] vs[i]) is None by {
                if i > 0 {
                    assert(vs.skip(1)[i - 1] is None);
                }
            }
        }
    }
}

/// The encoding of a tail is empty when every slot is absent; otherwise it
/// is the record of the first present slot followed by the rest.
proof fn lemma_tail_enc_shape(opts: Seq<OptSlot>, vs: Seq<Option<SpecFieldValue>>)
    requires
        opts.len() == vs.len(),
    ensures
        first_present(vs) == -1 ==> tail_enc(opts, vs) == Seq::<u8>::empty(),
        first_present(vs) >= 0 ==> tail_enc(opts, vs) == tlv_enc(
            opts[first_present(vs)].ext_type,
            field_enc(opts[first_present(vs)].kind, vs[first_present(vs)]->0),
        ) + tail_enc(opts.skip(first_present(vs) + 1), vs.skip(first_present(vs) + 1)),
    decreases vs.len(),
{
    if vs.len() == 0 {
    } else if vs[0] is Some {
    } else {
        lemma_first_present_props(vs);
        lemma_first_present_props(vs.skip(1));
        lemma_tail_enc_shape(opts.skip(1), vs.skip(1));
        assert(Seq::<u8>::empty() + tail_enc(opts.skip(1), vs.skip(1)) =~= tail_enc(
            opts.skip(1),
            vs.skip(1),
        ));
        let fp = first_present(vs);
        let fps = first_present(vs.skip(1));
        if fp >= 0 {
            assert(fp == fps + 1);
            assert(opts.skip(1).skip(fps + 1) =~= opts.skip(fp + 1));
            assert(vs.skip(1).skip(fps + 1) =~= vs.skip(fp + 1));
            assert(opts.skip(1)[fps] == opts[fp]);
            assert(vs.skip(1)[fps] == vs[fp]);
        }
    }
}

/// The encoding of one field is never longer than a varint length can say.
proof fn lemma_field_enc_len_bound(k: FieldKind, v: SpecFieldValue)
    requires
        value_fits(k, v),
    ensures
        field_enc(k, v).len() <= u64::MAX,
{
    match v {
        SpecFieldValue::U8(_) => {},
        SpecFieldValue::U16(x) => {
            lemma_be_bytes_len(x as nat, 2);
        },
        SpecFieldValue::U32(x) => {
            lemma_be_bytes_len(x as nat, 4);
        },
        SpecFieldValue::U64(x) => {
            lemma_be_bytes_len(x as nat, 8);
        },
        SpecFieldValue::Bytes(b) => {
            if k is VarBytes {
                lemma_be_bytes_len(b.len(), 2);
            }
        },
    }
}

/// Decoding a TLV tail from its own encoding recovers exactly the presence
/// decisions and values it was encoded from, provided the slots' extension
/// types strictly increase and all lie above the decoder's ordering bound.
pub proof fn lemma_tail_dec_of_enc(
    opts: Seq<OptSlot>,
    vs: Seq<Option<SpecFieldValue>>,
    data: Seq<u8>,
    pos: int,
    lower: int,
)
    requires
        opts.len() == vs.len(),
        forall|i: int, j: int|
            0 <= i < j < opts.len() ==> (#[trigger] opts[i]).ext_type < (
            #[trigger] opts[j]).ext_type,
        forall|i: int|
            0 <= i < vs.len() ==> ((#[trigger] vs[i]) matches Option::Some(v) ==> value_fits(
                opts[i].kind,
                v,
            )),
        forall|i: int| 0 <= i < opts.len() ==> lower < (#[trigger] opts[i]).ext_type,
        0 <= pos <= data.len(),
        data.subrange(pos, data.len() as int) == tail_enc(opts, vs),
    ensures
        tail_dec(opts, data, pos, lower) == Ok::<_, DecodeError>(vs),
    decreases opts.len(),
{
    let enc = tail_enc(opts, vs);
    let fp = first_present(vs);
    lemma_first_present_props(vs);
    lemma_tail_enc_shape(opts, vs);
    if fp == -1 {
        assert(pos == data.len());
        assert(Seq::new(opts.len(), |i: int| Option::None::<SpecFieldValue>) =~= vs);
    } else {
        assert(vs[fp] is Some);
        let ext = opts[fp].ext_type;
        let payload = field_enc(opts[fp].kind, vs[fp]->0);
        let rec = tlv_enc(ext, payload);
        lemma_varint_enc_len(ext);
        lemma_varint_enc_len(payload.len() as u64);
        lemma_field_enc_len_bound(opts[fp].kind, vs[fp]->0);
        assert(rec.len() >= 2);
        assert(pos < data.len());
        assert forall|i: int| 0 <= i < rec.len() implies #[trigger] data.subrange(
            pos,
            pos + rec.len() as int,
        )[i] == rec[i] by {
            assert(data.subrange(pos, data.len() as int)[i] == enc[i]);
        }
        assert(data.subrange(pos, pos + rec.len() as int) =~= rec);
        lemma_tlv_parse_at(data, pos, ext, payload);
        let t = ext;
        assert(t > lower);
        let p1 = pos + rec.len() as int;
        let rest = tail_enc(opts.skip(fp + 1), vs.skip(fp + 1));
        assert forall|i: int| 0 <= i < rest.len() implies #[trigger] data.subrange(
            p1,
            data.len() as int,
        )[i] == rest[i] by {
            assert(data.subrange(pos, data.len() as int)[rec.len() + i] == enc[rec.len() + i]);
        }
        assert(data.subrange(p1, data.len() as int) =~= rest);
        assert forall|i: int, j: int|
            0 <= i < j < opts.skip(1).len() implies (#[trigger] opts.skip(1)[i]).ext_type < (
        #[trigger] opts.skip(1)[j]).ext_type by {
            assert(opts[i + 1].ext_type < opts[j + 1].ext_type);
        }
        assert forall|i: int|
            0 <= i < vs.skip(1).len() implies ((#[trigger] vs.skip(1)[i]) matches Option::Some(v)
            ==> value_fits(opts.skip(1)[i].kind, v)) by {
            assert(vs.skip(1)[i] == vs[i + 1]);
            assert(opts.skip(1)[i] == opts[i + 1]);
            assert(vs[i + 1] matches Option::Some(v) ==> value_fits(opts[i + 1].kind, v));
        }
        if fp == 0 {
            assert(payload.subrange(0, payload.len() as int) =~= payload);
            lemma_field_parse_at(payload, 0, opts[0].kind, vs[0]->0);
            assert forall|i: int|
                0 <= i < opts.skip(1).len() implies (t as int) < (
            #[trigger] opts.skip(1)[i]).ext_type by {
                assert(opts[0].ext_type < opts[i + 1].ext_type);
            }
            lemma_tail_dec_of_enc(opts.skip(1), vs.skip(1), data, p1, t as int);
            assert(vs[0] == Option::Some(vs[0]->0));
            assert(seq![Option::Some(vs[0]->0)] + vs.skip(1) =~= vs);
        } else {
            assert(opts[0].ext_type < t);
            assert(vs[0] is None);
            assert(Seq::<u8>::empty() + tail_enc(opts.skip(1), vs.skip(1)) =~= tail_enc(
                opts.skip(1),
                vs.skip(1),
            ));
            assert forall|i: int|
                0 <= i < opts.skip(1).len() implies lower < (
            #[trigger] opts.skip(1)[i]).ext_type by {
                assert(lower < opts[i + 1].ext_type);
            }
            lemma_tail_dec_of_enc(opts.skip(1), vs.skip(1), data, pos, lower);
            assert(seq![Option::None::<SpecFieldValue>] + vs.skip(1) =~= vs);
        }
    }
}

/// Round trip: decoding a message's own encoding, with the tag check on,
/// yields exactly the message, for every value that fits a well-formed
/// schema.
pub proof fn lemma_msg_round_trip(s: SpecSchema, m: SpecMessage)
    requires
        s.wf(),
        s.msg_fits(m),
    ensures
        msg_dec(s, msg_enc(s, m), 0, true) == Ok::<_, DecodeError>(m),
{
    let data = msg_enc(s, m);
    let tagb = be_bytes(s.tag as nat, 2);
    let rb = fields_enc(s.required, m.required);
    let tb = tail_enc(s.optional, m.optional);
    lemma_be_bytes_len(s.tag as nat, 2);
    lemma_pow256_u64();
    assert(data.subrange(0, 2) =~= tagb);
    lemma_be_val_of_be_bytes(s.tag as nat, 2);
    assert forall|i: int| 0 <= i < rb.len() implies #[trigger] data.subrange(
        2,
        2 + rb.len() as int,
    )[i] == rb[i] by {
        assert(data[2 + i] == rb[i]);
    }
    assert(data.subrange(2, 2 + rb.len() as int) =~= rb);
    lemma_fields_parse_at(data, 2, s.required, m.required);
    let p1 = 2 + rb.len() as int;
    assert forall|i: int| 0 <= i < tb.len() implies #[trigger] data.subrange(
        p1,
        data.len() as int,
    )[i] == tb[i] by {
        assert(data[p1 + i] == tb[i]);
    }
    assert(data.subrange(p1, data.len() as int) =~= tb);
    assert forall|i: int|
        0 <= i < m.optional.len() implies ((#[trigger] m.optional[i]) matches Option::Some(v)
        ==> value_fits(s.optional[i].kind, v)) by {
        assert(s.msg_fits(m));
    }
    lemma_tail_dec_of_enc(s.optional, m.optional, data, p1, -1);
    assert(msg_dec(s, data, 0, true) == Ok::<_, DecodeError>(
        SpecMessage { required: m.required, optional: m.optional },
    ));
    assert(SpecMessage { required: m.required, optional: m.optional } == m);
}

/// Truncation: cutting a valid encoding at any byte boundary before the
/// end of the final required field decodes to `Truncated` — never to a
/// wrong but successful message.
pub proof fn lemma_msg_truncation(s: SpecSchema, m: SpecMessage, n: int)
    requires
        s.msg_fits(m),
        0 <= n < 2 + fields_enc(s.required, m.required).len(),
    ensures
        msg_dec(s, msg_enc(s, m).take(n), 0, true) == Err::<SpecMessage, _>(
            DecodeError::Truncated,
        ),
{
    let full = msg_enc(s, m);
    let tagb = be_bytes(s.tag as nat, 2);
    let rb = fields_enc(s.required, m.required);
    lemma_be_bytes_len(s.tag as nat, 2);
    lemma_pow256_u64();
    let data = full.take(n);
    if n < 2 {
    } else {
        assert forall|i: int| 0 <= i < 2 implies #[trigger] data.subrange(0, 2)[i] == tagb[i] by {
            assert(data[i] == full[i]);
        }
        assert(data.subrange(0, 2) =~= tagb);
        lemma_be_val_of_be_bytes(s.tag as nat, 2);
        assert forall|i: int| 0 <= i < n - 2 implies #[trigger] data.subrange(
            2,
            data.len() as int,
        )[i] == rb.take(n - 2)[i] by {
            assert(data[2 + i] == full[2 + i]);
        }
        assert(data.subrange(2, data.len() as int) =~= rb.take(n - 2));
        lemma_fields_dec_truncated(data, 2, s.required, m.required);
    }
}

/// Tag integrity: a stream whose two leading bytes carry the tag of a
/// declared member dispatches to the member declared with that tag, and to
/// no other: the dispatch parse succeeds or fails exactly as that member's
/// body parse does.
pub proof fn lemma_dispatch_by_tag(schemas: Seq<SpecSchema>, data: Seq<u8>, j: int)
    requires
        family_wf(schemas),
        0 <= j < schemas.len(),
        data.len() >= 2,
        be_val(data.subrange(0, 2)) == schemas[j].tag,
    ensures
        any_dec(schemas, data, 0) == (match body_dec(schemas[j], data, 2) {
            Ok(m) => Ok::<_, DecodeError>((j, m)),
            Err(e) => Err::<(int, SpecMessage), _>(e),
        }),
{
    let t = be_val(data.subrange(0, 2));
    assert forall|a: int| 0 <= a < j implies (#[trigger] schemas[a]).tag != t by {
        assert(schemas[a].tag != schemas[j].tag);
    }
    lemma_find_tag_first(schemas, t, j);
}

/// Unknown tag: a stream whose two leading bytes match no declared tag
/// fails the dispatch parse with `InvalidData`.
pub proof fn lemma_unknown_tag(schemas: Seq<SpecSchema>, data: Seq<u8>)
    requires
        data.len() >= 2,
        forall|a: int|
            0 <= a < schemas.len() ==> (#[trigger] schemas[a]).tag != be_val(data.subrange(0, 2)),
    ensures
        any_dec(schemas, data, 0) == Err::<(int, SpecMessage), _>(DecodeError::InvalidData),
{
    lemma_find_tag_none(schemas, be_val(data.subrange(0, 2)));
}

/// TLV order enforcement: two consecutive records whose extension types do
/// not strictly increase make the tail parse fail `OutOfOrder`, whatever
/// payloads they carry, whatever follows them, and even when the schema
/// declares no slot for either type.
pub proof fn lemma_tail_rejects_non_increasing(
    t1: u64,
    p1: Seq<u8>,
    t2: u64,
    p2: Seq<u8>,
    rest: Seq<u8>,
    lower: int,
)
    requires
        p1.len() <= u64::MAX,
        p2.len() <= u64::MAX,
        lower < t1,
        t2 <= t1,
    ensures
        tail_dec(Seq::empty(), tlv_enc(t1, p1) + tlv_enc(t2, p2) + rest, 0, lower) == Err::<
            Seq<Option<SpecFieldValue>>,
            _,
        >(DecodeError::OutOfOrder),
{
    let data = tlv_enc(t1, p1) + tlv_enc(t2, p2) + rest;
    let r1 = tlv_enc(t1, p1);
    let r2 = tlv_enc(t2, p2);
    lemma_varint_enc_len(t1);
    lemma_varint_enc_len(p1.len() as u64);
    lemma_varint_enc_len(t2);
    lemma_varint_enc_len(p2.len() as u64);
    assert(data.subrange(0, r1.len() as int) =~= r1);
    lemma_tlv_parse_at(data, 0, t1, p1);
    let p = r1.len() as int;
    assert(data.subrange(p, p + r2.len() as int) =~= r2);
    lemma_tlv_parse_at(data, p, t2, p2);
    assert(tail_dec(Seq::<OptSlot>::empty(), data, p, t1 as int) == Err::<
        Seq<Option<SpecFieldValue>>,
        _,
    >(DecodeError::OutOfOrder));
}

/// Round trip through the dispatcher: encoding any member's value and
/// decoding the result through the family yields that member and value,
/// for every kind in a well-formed family.
pub proof fn lemma_family_round_trip(schemas: Seq<SpecSchema>, j: int, m: SpecMessage)
    requires
        family_wf(schemas),
        0 <= j < schemas.len(),
        schemas[j].msg_fits(m),
    ensures
        any_dec(schemas, msg_enc(schemas[j], m), 0) == Ok::<_, DecodeError>((j, m)),
{
    let s = schemas[j];
    let data = msg_enc(s, m);
    lemma_be_bytes_len(s.tag as nat, 2);
    lemma_msg_round_trip(s, m);
    assert(data.subrange(0, 2) =~= be_bytes(s.tag as nat, 2));
    lemma_pow256_u64();
    lemma_be_val_of_be_bytes(s.tag as nat, 2);
    lemma_dispatch_by_tag(schemas, data, j);
}

} // verus!
