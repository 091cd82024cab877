//! The message codec: one complete tagged message.
//!
//! A message is encoded as its two-byte big-endian type tag, its required
//! fields in declared order, then one TLV record for each optional field
//! that is present, in increasing extension-type order.  Decoding reads the
//! required fields, then walks the TLV tail with the lookahead reader:
//! a peeked extension type beyond the next expected slot means that optional
//! field was omitted, a record for an undeclared extension type is skipped,
//! and extension types that do not strictly increase are rejected.

use vstd::prelude::*;

use crate::bytes::{be_bytes, be_val, lemma_pow256_u64, write_be};
use crate::cursor::Cursor;
use crate::errors::DecodeError;
use crate::field::{field_dec, field_enc, value_fits, write_field, FieldKind, FieldValue,
    SpecFieldValue};
use crate::tlv::{tlv_dec, tlv_enc, write_tlv_record};
use crate::varint::varint_dec;

verus! {

/// One optional extension slot of a message schema.
#[derive(Clone, Copy, Debug, PartialEq, Eq, Structural)]
pub struct OptSlot {
    /// The TLV extension type this optional field is carried under.
    pub ext_type: u64,
    /// The field codec shape of the slot's payload.
    pub kind: FieldKind,
}

/// The static shape of one message kind: its type tag, the kinds of its
/// required fields in declared order, and its optional extension slots.
/// All required fields come before the TLV tail by construction.
#[derive(Clone, Debug)]
pub struct Schema {
    /// The 16-bit tag written as the first two bytes of every encoding.
    pub tag: u16,
    /// The required fields, in the order they are written and read.
    pub required: Vec<FieldKind>,
    /// The optional extension slots, in increasing extension-type order.
    pub optional: Vec<OptSlot>,
}

/// The mathematical model of a schema.
pub struct SpecSchema {
    pub tag: u16,
    pub required: Seq<FieldKind>,
    pub optional: Seq<OptSlot>,
}

impl View for Schema {
    type V = SpecSchema;

    open spec fn view(&self) -> SpecSchema {
        SpecSchema { tag: self.tag, required: self.required@, optional: self.optional@ }
    }
}

/// One message value: the required field values in declared order and, for
/// each optional slot of the schema, either a value or absence.
#[derive(Clone, Debug, PartialEq, Eq)]
pub struct Message {
    pub required: Vec<FieldValue>,
    pub optional: Vec<Option<FieldValue>>,
}

/// The mathematical model of a message value.
pub struct SpecMessage {
    pub required: Seq<SpecFieldValue>,
    pub optional: Seq<Option<SpecFieldValue>>,
}

/// The model of one optional field value.
pub open spec fn view_opt(o: Option<FieldValue>) -> Option<SpecFieldValue> {
    match o {
        Option::Some(v) => Option::Some(v@),
        Option::None => Option::None,
    }
}

impl View for Message {
    type V = SpecMessage;

    open spec fn view(&self) -> SpecMessage {
        SpecMessage {
            required: self.required@.map_values(|v: FieldValue| v@),
            optional: self.optional@.map_values(|o: Option<FieldValue>| view_opt(o)),
        }
    }
}

impl SpecSchema {
    /// A schema is well formed when its optional slots carry strictly
    /// increasing extension types: no duplicates, no reordering.  This is
    /// checked once, when the schema is constructed, not per call.
    pub open spec fn wf(self) -> bool {
        forall|i: int, j: int|
            0 <= i < j < self.optional.len() ==> (#[trigger] self.optional[i]).ext_type < (
            #[trigger] self.optional[j]).ext_type
    }

    /// Whether a message value conforms to this schema: right number of
    /// required values, each of its declared kind; one presence decision
    /// per optional slot, each present value of its declared kind.
    pub open spec fn msg_fits(self, m: SpecMessage) -> bool {
        &&& m.required.len() == self.required.len()
        &&& forall|i: int|
            0 <= i < m.required.len() ==> value_fits(self.required[i], #[trigger] m.required[i])
        &&& m.optional.len() == self.optional.len()
        &&& forall|i: int|
            0 <= i < m.optional.len() ==> ((#[trigger] m.optional[i]) matches Option::Some(v)
                ==> value_fits(self.optional[i].kind, v))
    }
}

/// The encoding of the required fields, in declared order.
pub open spec fn fields_enc(ks: Seq<FieldKind>, vs: Seq<SpecFieldValue>) -> Seq<u8>
    recommends
        ks.len() == vs.len(),
    decreases ks.len(),
{
    if ks.len() == 0 {
        Seq::empty()
    } else {
        field_enc(ks[0], vs[0]) + fields_enc(ks.skip(1), vs.skip(1))
    }
}

/// The encoding of the TLV tail: one record per present optional field.
pub open spec fn tail_enc(opts: Seq<OptSlot>, vs: Seq<Option<SpecFieldValue>>) -> Seq<u8>
    recommends
        opts.len() == vs.len(),
    decreases opts.len(),
{
    if opts.len() == 0 {
        Seq::empty()
    } else {
        (match vs[0] {
            Option::Some(v) => tlv_enc(opts[0].ext_type, field_enc(opts[0].kind, v)),
            Option::None => Seq::empty(),
        }) + tail_enc(opts.skip(1), vs.skip(1))
    }
}

/// The encoding of one complete message: tag, required fields, TLV tail.
pub open spec fn msg_enc(s: SpecSchema, m: SpecMessage) -> Seq<u8>
    recommends
        s.msg_fits(m),
{
    be_bytes(s.tag as nat, 2) + fields_enc(s.required, m.required) + tail_enc(s.optional, m.optional)
}

/// Parses the required fields in declared order, starting at `pos`.
pub open spec fn fields_dec(ks: Seq<FieldKind>, data: Seq<u8>, pos: int) -> Result<
    (Seq<SpecFieldValue>, int),
    DecodeError,
>
    recommends
        0 <= pos,
    decreases ks.len(),
{
    if ks.len() == 0 {
        Ok((Seq::empty(), pos))
    } else {
        match field_dec(ks[0], data, pos) {
            Err(e) => Err(e),
            Ok((v, p)) => match fields_dec(ks.skip(1), data, p) {
                Err(e) => Err(e),
                Ok((vs, p2)) => Ok((seq![v] + vs, p2)),
            },
        }
    }
}

/// Parses the TLV tail from `pos` to the end of the message.
///
/// `opts` is the schema's remaining optional slots and `lower` the largest
/// extension type read so far (-1 before the first record).  The extension
/// type peeked at each record must strictly exceed `lower`; a peeked type
/// beyond the next slot resolves that slot to absent without consuming
/// anything; a record for an undeclared type is skipped; a record for the
/// next slot must carry a payload that its field codec consumes exactly.
pub open spec fn tail_dec(opts: Seq<OptSlot>, data: Seq<u8>, pos: int, lower: int) -> Result<
    Seq<Option<SpecFieldValue>>,
    DecodeError,
>
    recommends
        0 <= pos <= data.len(),
    decreases data.len() - pos, opts.len(),
{
    if pos >= data.len() {
        Ok(Seq::new(opts.len(), |i: int| Option::None))
    } else {
        match varint_dec(data, pos) {
            Err(e) => Err(e),
            Ok((t, _p1)) => if t <= lower {
                Err(DecodeError::OutOfOrder)
            } else if opts.len() > 0 && opts[0].ext_type < t {
                match tail_dec(opts.skip(1), data, pos, lower) {
                    Err(e) => Err(e),
                    Ok(r) => Ok(seq![Option::None] + r),
                }
            } else {
                match tlv_dec(data, pos) {
                    Err(e) => Err(e),
                    Ok(((_t2, payload), p)) => if opts.len() > 0 && opts[0].ext_type == t {
                        match field_dec(opts[0].kind, payload, 0) {
                            Err(e) => Err(e),
                            Ok((v, c)) => if c != payload.len() {
                                Err(DecodeError::Malformed)
                            } else {
                                match tail_dec(opts.skip(1), data, p, t as int) {
                                    Err(e) => Err(e),
                                    Ok(r) => Ok(seq![Option::Some(v)] + r),
                                }
                            },
                        }
                    } else {
                        tail_dec(opts, data, p, t as int)
                    },
                }
            },
        }
    }
}

/// Parses a message body (everything after the tag) to the end of the data.
pub open spec fn body_dec(s: SpecSchema, data: Seq<u8>, pos: int) -> Result<
    SpecMessage,
    DecodeError,
>
    recommends
        0 <= pos,
{
    match fields_dec(s.required, data, pos) {
        Err(e) => Err(e),
        Ok((vs, p)) => match tail_dec(s.optional, data, p, -1) {
            Err(e) => Err(e),
            Ok(os) => Ok(SpecMessage { required: vs, optional: os }),
        },
    }
}

/// Parses one complete message.  With `check_type` the two leading tag
/// bytes must equal the schema's tag, else the parse fails `InvalidData`;
/// without it the caller (a dispatcher) has already consumed the tag.
pub open spec fn msg_dec(s: SpecSchema, data: Seq<u8>, pos: int, check_type: bool) -> Result<
    SpecMessage,
    DecodeError,
>
    recommends
        0 <= pos,
{
    if check_type {
        if pos + 2 > data.len() {
            Err(DecodeError::Truncated)
        } else if be_val(data.subrange(pos, pos + 2)) != s.tag {
            Err(DecodeError::InvalidData)
        } else {
            body_dec(s, data, pos + 2)
        }
    } else {
        body_dec(s, data, pos)
    }
}

/// Whether `v` has kind `k` and satisfies its domain restriction.
pub fn check_value(k: FieldKind, v: &FieldValue) -> (b: bool)
    ensures
        b == value_fits(k, v@),
{
    match v {
        FieldValue::U8(_) => matches!(k, FieldKind::U8),
        FieldValue::U16(_) => matches!(k, FieldKind::U16),
        FieldValue::U32(_) => matches!(k, FieldKind::U32),
        FieldValue::U64(_) => matches!(k, FieldKind::U64),
        FieldValue::Bytes(b) => match k {
            FieldKind::FixedBytes(n) => b.len() == n,
            FieldKind::VarBytes => b.len() < 0x1_0000,
            _ => false,
        },
    }
}

impl Schema {
    /// Validates and builds a schema.  The optional slots must carry
    /// strictly increasing extension types; a violation yields `None`.
    pub fn new(tag: u16, required: Vec<FieldKind>, optional: Vec<OptSlot>) -> (r: Option<Schema>)
        ensures
            match r {
                Option::Some(s) => {
                    &&& s@ == (SpecSchema { tag, required: required@, optional: optional@ })
                    &&& s@.wf()
                },
                Option::None => !(SpecSchema {
                    tag,
                    required: required@,
                    optional: optional@,
                }).wf(),
            },
    {
        let s = Schema { tag, required, optional };
        if s.check_slots() {
            Some(s)
        } else {
            None
        }
    }

    /// Whether this schema's optional slots carry strictly increasing
    /// extension types: what `new` validates, for a schema assembled by
    /// hand.
    pub fn check_slots(&self) -> (b: bool)
        ensures
            b == self@.wf(),
    {
        let mut i: usize = 1;
        while i < self.optional.len()
            invariant
                1 <= i,
                forall|a: int, b: int|
                    0 <= a < b < i && b < self.optional@.len() ==> (
                    #[trigger] self.optional@[a]).ext_type < (
                    #[trigger] self.optional@[b]).ext_type,
            decreases self.optional@.len() - i,
        {
            if self.optional[i - 1].ext_type >= self.optional[i].ext_type {
                return false;
            }
            proof {
                assert forall|a: int|
                    0 <= a < i implies (#[trigger] self.optional@[a]).ext_type < self.optional@[
                    i as int
                ].ext_type by {
                    if a < i - 1 {
                        assert(self.optional@[a].ext_type < self.optional@[i - 1].ext_type);
                    }
                }
            }
            i = i + 1;
        }
        true
    }

    /// Whether `m` conforms to this schema: `encode` requires it.
    pub fn message_fits(&self, m: &Message) -> (b: bool)
        ensures
            b == self@.msg_fits(m@),
    {
        if m.required.len() != self.required.len() {
            return false;
        }
        if m.optional.len() != self.optional.len() {
            return false;
        }
        let mut i: usize = 0;
        while i < self.required.len()
            invariant
                i <= self.required@.len(),
                m.required@.len() == self.required@.len(),
                forall|a: int|
                    0 <= a < i ==> value_fits(self.required@[a], #[trigger] m@.required[a]),
            decreases self.required@.len() - i,
        {
            if !check_value(self.required[i], &m.required[i]) {
                proof {
                    assert(m@.required[i as int] == m.required@[i as int]@);
                }
                return false;
            }
            i = i + 1;
        }
        let mut j: usize = 0;
        while j < self.optional.len()
            invariant
                j <= self.optional@.len(),
                m.optional@.len() == self.optional@.len(),
                forall|a: int|
                    0 <= a < j ==> ((#[trigger] m@.optional[a]) matches Option::Some(v)
                        ==> value_fits(self.optional@[a].kind, v)),
            decreases self.optional@.len() - j,
        {
            match &m.optional[j] {
                Option::Some(v) => {
                    if !check_value(self.optional[j].kind, v) {
                        proof {
                            assert(m@.optional[j as int] == view_opt(m.optional@[j as int]));
                        }
                        return false;
                    }
                },
                Option::None => {},
            }
            j = j + 1;
        }
        true
    }

    /// Appends the full encoding of `m` to `out` and returns the number of
    /// bytes written.  A caller with a transport sink writes the buffer out
    /// and flushes after the whole message.
    pub fn encode(&self, m: &Message, out: &mut Vec<u8>) -> (count: usize)
        requires
            self@.msg_fits(m@),
        ensures
            final(out)@ == old(out)@ + msg_enc(self@, m@),
            count == msg_enc(self@, m@).len(),
    {
        let before = out.len();
        proof {
            lemma_pow256_u64();
            assert forall|j: int| 0 <= j < self.required@.len() implies value_fits(
                self.required@[j],
                (#[trigger] m.required@[j])@,
            ) by {
                assert(m@.required[j] == m.required@[j]@);
            }
            assert forall|j: int|
                0 <= j < self.optional@.len() implies (view_opt(#[trigger] m.optional@[j]) matches
            Option::Some(v) ==> value_fits(self.optional@[j].kind, v)) by {
                assert(m@.optional[j] == view_opt(m.optional@[j]));
            }
        }
        write_be(out, self.tag as u64, 2);
        write_fields_from(out, &self.required, &m.required, 0);
        write_tail_from(out, &self.optional, &m.optional, 0);
        proof {
            assert(self.required@.skip(0) =~= self.required@);
            assert(m@.required.skip(0) =~= m@.required);
            assert(self.optional@.skip(0) =~= self.optional@);
            assert(m@.optional.skip(0) =~= m@.optional);
            assert(out@ =~= old(out)@ + msg_enc(self@, m@));
        }
        out.len() - before
    }

    /// The full encoding of `m` as a fresh buffer.
    pub fn encode_to_vec(&self, m: &Message) -> (r: Vec<u8>)
        requires
            self@.msg_fits(m@),
        ensures
            r@ == msg_enc(self@, m@),
    {
        let mut out: Vec<u8> = Vec::new();
        self.encode(m, &mut out);
        out
    }
}

/// The ordering bound the tail decoder carries: the largest extension type
/// consumed so far, or -1 before the first record.
pub open spec fn lower_of(last: Option<u64>) -> int {
    match last {
        Option::Some(x) => x as int,
        Option::None => -1,
    }
}

impl Schema {
    /// Decodes one complete message, consuming `data` from the cursor to
    /// the end (the caller's framing supplies the message boundary).
    ///
    /// With `check_type` the two leading bytes must equal this schema's
    /// tag, else the decode fails `InvalidData`; a dispatcher that has
    /// already consumed and validated the tag passes `false`.  Every
    /// failure is terminal: no partial message is returned.
    pub fn decode(&self, data: &Vec<u8>, cursor: &mut Cursor, check_type: bool) -> (r: Result<
        Message,
        DecodeError,
    >)
        requires
            old(cursor).pos <= data@.len(),
        ensures
            match r {
                Ok(m) => {
                    &&& msg_dec(self@, data@, old(cursor).pos as int, check_type)
                        == Ok::<_, DecodeError>(m@)
                    &&& final(cursor).pos == data@.len()
                },
                Err(e) => {
                    &&& msg_dec(self@, data@, old(cursor).pos as int, check_type) == Err::<
                        SpecMessage,
                        _,
                    >(e)
                    &&& old(cursor).pos <= final(cursor).pos <= data@.len()
                },
            },
    {
        if check_type {
            match cursor.read_be(data, 2) {
                Ok(t) => {
                    if t != self.tag as u64 {
                        return Err(DecodeError::InvalidData);
                    }
                },
                Err(e) => {
                    return Err(e);
                },
            }
        }
        self.decode_body(data, cursor)
    }

    /// Decodes a message body: the required fields, then the TLV tail.
    fn decode_body(&self, data: &Vec<u8>, cursor: &mut Cursor) -> (r: Result<Message, DecodeError>)
        requires
            old(cursor).pos <= data@.len(),
        ensures
            match r {
                Ok(m) => {
                    &&& body_dec(self@, data@, old(cursor).pos as int) == Ok::<_, DecodeError>(m@)
                    &&& final(cursor).pos == data@.len()
                },
                Err(e) => {
                    &&& body_dec(self@, data@, old(cursor).pos as int) == Err::<SpecMessage, _>(e)
                    &&& old(cursor).pos <= final(cursor).pos <= data@.len()
                },
            },
    {
        let ghost pos0 = cursor.pos as int;
        let ghost ksv = self.required@;
        let mut vals: Vec<FieldValue> = Vec::new();
        let ghost mut done_req: Seq<SpecFieldValue> = Seq::empty();
        let mut i: usize = 0;
        proof {
            assert(ksv.skip(0) =~= ksv);
            let r0 = fields_dec(ksv, data@, pos0);
            if r0 is Ok {
                assert(Seq::<SpecFieldValue>::empty() + r0->Ok_0.0 =~= r0->Ok_0.0);
            }
        }
        while i < self.required.len()
            invariant
                i <= self.required@.len(),
                ksv == self.required@,
                pos0 == old(cursor).pos,
                vals@.len() == i,
                done_req.len() == i,
                forall|a: int| 0 <= a < i ==> done_req[a] == (#[trigger] vals@[a])@,
                0 <= pos0 <= cursor.pos <= data@.len(),
                match fields_dec(ksv.skip(i as int), data@, cursor.pos as int) {
                    Ok(p) => fields_dec(ksv, data@, pos0) == Ok::<_, DecodeError>(
                        (done_req + p.0, p.1),
                    ),
                    Err(e) => fields_dec(ksv, data@, pos0) == Err::<(Seq<SpecFieldValue>, int), _>(
                        e,
                    ),
                },
            decreases self.required@.len() - i,
        {
            let ghost pre = cursor.pos as int;
            match cursor.read_field(data, self.required[i]) {
                Ok(v) => {
                    proof {
                        assert(ksv.skip(i as int).skip(1) =~= ksv.skip(i as int + 1));
                        assert(ksv.skip(i as int)[0] == ksv[i as int]);
                        let prev = done_req;
                        done_req = done_req.push(v@);
                        let r2 = fields_dec(ksv.skip(i as int + 1), data@, cursor.pos as int);
                        if r2 is Ok {
                            assert(prev + (seq![v@] + r2->Ok_0.0) =~= done_req + r2->Ok_0.0);
                        }
                    }
                    vals.push(v);
                    i = i + 1;
                },
                Err(e) => {
                    proof {
                        assert(ksv.skip(i as int)[0] == ksv[i as int]);
                    }
                    return Err(e);
                },
            }
        }
        proof {
            assert(fields_dec(ksv.skip(i as int), data@, cursor.pos as int) == Ok::<
                _,
                DecodeError,
            >((Seq::<SpecFieldValue>::empty(), cursor.pos as int)));
            assert(done_req + Seq::<SpecFieldValue>::empty() =~= done_req);
        }
        // the TLV tail
        let ghost tpos0 = cursor.pos as int;
        let ghost opts = self.optional@;
        let mut opt_vals: Vec<Option<FieldValue>> = Vec::new();
        let ghost mut done_opt: Seq<Option<SpecFieldValue>> = Seq::empty();
        let mut last: Option<u64> = None;
        let mut j: usize = 0;
        // an executable length read, so the buffer's machine bound is known
        // to the loop below
        let _buffer_len: usize = data.len();
        proof {
            assert(opts.skip(0) =~= opts);
            let r0 = tail_dec(opts, data@, tpos0, -1);
            if r0 is Ok {
                assert(Seq::<Option<SpecFieldValue>>::empty() + r0->Ok_0 =~= r0->Ok_0);
            }
        }
        while cursor.pos < data.len()
            invariant
                j <= self.optional@.len(),
                opts == self.optional@,
                ksv == self.required@,
                pos0 == old(cursor).pos,
                fields_dec(ksv, data@, pos0) == Ok::<_, DecodeError>((done_req, tpos0)),
                opt_vals@.len() == j,
                done_opt.len() == j,
                forall|a: int| 0 <= a < j ==> done_opt[a] == view_opt(#[trigger] opt_vals@[a]),
                0 <= pos0 <= tpos0 <= cursor.pos <= data@.len(),
                data@.len() <= usize::MAX,
                match tail_dec(opts.skip(j as int), data@, cursor.pos as int, lower_of(last)) {
                    Ok(rest) => tail_dec(opts, data@, tpos0, -1) == Ok::<_, DecodeError>(
                        done_opt + rest,
                    ),
                    Err(e) => tail_dec(opts, data@, tpos0, -1) == Err::<
                        Seq<Option<SpecFieldValue>>,
                        _,
                    >(e),
                },
            decreases data@.len() - cursor.pos + (self.optional@.len() - j),
        {
            let ghost pre = cursor.pos as int;
            let ghost lw = lower_of(last);
            let t = match cursor.peek_varint(data) {
                Ok(Some(t)) => t,
                Ok(None) => {
                    // the loop guard rules out end of stream here
                    proof {
                        assert(false);
                    }
                    return Err(DecodeError::Truncated);
                },
                Err(e) => {
                    return Err(e);
                },
            };
            let in_order = match last {
                Option::None => true,
                Option::Some(lwv) => t > lwv,
            };
            if !in_order {
                return Err(DecodeError::OutOfOrder);
            }
            if j < self.optional.len() && self.optional[j].ext_type < t {
                // the peeked type is beyond this slot: the field is absent
                proof {
                    assert(opts.skip(j as int).skip(1) =~= opts.skip(j as int + 1));
                    assert(opts.skip(j as int)[0] == opts[j as int]);
                    let prev = done_opt;
                    done_opt = done_opt.push(Option::None);
                    let r2 = tail_dec(opts.skip(j as int + 1), data@, pre, lw);
                    if r2 is Ok {
                        assert(prev + (seq![Option::None::<SpecFieldValue>] + r2->Ok_0) =~= done_opt
                            + r2->Ok_0);
                    }
                }
                opt_vals.push(None);
                j = j + 1;
            } else {
                let rec = match cursor.read_tlv_record(data) {
                    Ok(rec) => rec,
                    Err(e) => {
                        proof {
                            if j < opts.len() {
                                assert(opts.skip(j as int)[0] == opts[j as int]);
                            }
                        }
                        return Err(e);
                    },
                };
                proof {
                    assert(rec.ext_type == t);
                    if j < opts.len() {
                        assert(opts.skip(j as int)[0] == opts[j as int]);
                    }
                }
                if j < self.optional.len() && self.optional[j].ext_type == rec.ext_type {
                    // the record carries this slot's field
                    let mut pc = Cursor::new();
                    let v = match pc.read_field(&rec.value, self.optional[j].kind) {
                        Ok(v) => v,
                        Err(e) => {
                            return Err(e);
                        },
                    };
                    if pc.pos != rec.value.len() {
                        return Err(DecodeError::Malformed);
                    }
                    proof {
                        assert(opts.skip(j as int).skip(1) =~= opts.skip(j as int + 1));
                        let prev = done_opt;
                        done_opt = done_opt.push(Option::Some(v@));
                        let r2 = tail_dec(
                            opts.skip(j as int + 1),
                            data@,
                            cursor.pos as int,
                            t as int,
                        );
                        if r2 is Ok {
                            assert(prev + (seq![Option::Some(v@)] + r2->Ok_0) =~= done_opt
                                + r2->Ok_0);
                        }
                    }
                    opt_vals.push(Some(v));
                    j = j + 1;
                    last = Some(rec.ext_type);
                } else {
                    // a record for an extension type this schema does not
                    // declare: skip it
                    last = Some(rec.ext_type);
                }
            }
        }
        // every remaining slot is absent: the stream ended before it
        proof {
            assert(tail_dec(opts.skip(j as int), data@, cursor.pos as int, lower_of(last))
                == Ok::<_, DecodeError>(
                Seq::new(opts.skip(j as int).len(), |i: int| Option::None::<SpecFieldValue>),
            ));
        }
        let ghost fill0 = j as int;
        while j < self.optional.len()
            invariant
                fill0 <= j <= self.optional@.len(),
                opts == self.optional@,
                ksv == self.required@,
                pos0 == old(cursor).pos,
                fields_dec(ksv, data@, pos0) == Ok::<_, DecodeError>((done_req, tpos0)),
                0 <= pos0 <= tpos0 <= data@.len(),
                opt_vals@.len() == j,
                done_opt.len() == j,
                forall|a: int| 0 <= a < j ==> done_opt[a] == view_opt(#[trigger] opt_vals@[a]),
                tail_dec(opts, data@, tpos0, -1) == Ok::<_, DecodeError>(
                    done_opt + Seq::new(
                        (opts.len() - j) as nat,
                        |i: int| Option::None::<SpecFieldValue>,
                    ),
                ),
                cursor.pos == data@.len(),
            decreases self.optional@.len() - j,
        {
            proof {
                let prev = done_opt;
                done_opt = done_opt.push(Option::None);
                assert(prev + Seq::new(
                    (opts.len() - j) as nat,
                    |i: int| Option::None::<SpecFieldValue>,
                ) =~= done_opt + Seq::new(
                    (opts.len() - (j + 1)) as nat,
                    |i: int| Option::None::<SpecFieldValue>,
                ));
            }
            opt_vals.push(None);
            j = j + 1;
        }
        proof {
            assert(done_opt + Seq::new(0, |i: int| Option::None::<SpecFieldValue>) =~= done_opt);
        }
        let m = Message { required: vals, optional: opt_vals };
        proof {
            assert(m@.required =~= done_req);
            assert(m@.optional =~= done_opt);
        }
        Ok(m)
    }
}

/// Appends the encodings of the required fields from index `i` on.
fn write_fields_from(out: &mut Vec<u8>, ks: &Vec<FieldKind>, vs: &Vec<FieldValue>, i: usize)
    requires
        ks@.len() == vs@.len(),
        i <= ks@.len(),
        forall|j: int| i <= j < ks@.len() ==> value_fits(ks@[j], (#[trigger] vs@[j])@),
    ensures
        final(out)@ == old(out)@ + fields_enc(
            ks@.skip(i as int),
            vs@.map_values(|v: FieldValue| v@).skip(i as int),
        ),
    decreases ks@.len() - i,
{
    let ghost mvs = vs@.map_values(|v: FieldValue| v@);
    if i < ks.len() {
        write_field(out, ks[i], &vs[i]);
        write_fields_from(out, ks, vs, i + 1);
        proof {
            assert(ks@.skip(i as int).skip(1) =~= ks@.skip(i as int + 1));
            assert(mvs.skip(i as int).skip(1) =~= mvs.skip(i as int + 1));
            assert(ks@.skip(i as int)[0] == ks@[i as int]);
            assert(mvs.skip(i as int)[0] == mvs[i as int]);
            assert(out@ =~= old(out)@ + fields_enc(ks@.skip(i as int), mvs.skip(i as int)));
        }
    } else {
        assert(out@ =~= old(out)@ + fields_enc(ks@.skip(i as int), mvs.skip(i as int)));
    }
}

/// Appends one TLV record for each present optional field from index `i` on.
fn write_tail_from(out: &mut Vec<u8>, opts: &Vec<OptSlot>, vs: &Vec<Option<FieldValue>>, i: usize)
    requires
        opts@.len() == vs@.len(),
        i <= opts@.len(),
        forall|j: int|
            i <= j < opts@.len() ==> (view_opt(#[trigger] vs@[j]) matches Option::Some(v)
                ==> value_fits(opts@[j].kind, v)),
    ensures
        final(out)@ == old(out)@ + tail_enc(
            opts@.skip(i as int),
            vs@.map_values(|o: Option<FieldValue>| view_opt(o)).skip(i as int),
        ),
    decreases opts@.len() - i,
{
    let ghost mvs = vs@.map_values(|o: Option<FieldValue>| view_opt(o));
    if i < opts.len() {
        match &vs[i] {
            Option::Some(v) => {
                let mut payload: Vec<u8> = Vec::new();
                write_field(&mut payload, opts[i].kind, v);
                write_tlv_record(out, opts[i].ext_type, &payload);
            },
            Option::None => {},
        }
        write_tail_from(out, opts, vs, i + 1);
        proof {
            assert(opts@.skip(i as int).skip(1) =~= opts@.skip(i as int + 1));
            assert(mvs.skip(i as int).skip(1) =~= mvs.skip(i as int + 1));
            assert(opts@.skip(i as int)[0] == opts@[i as int]);
            assert(mvs.skip(i as int)[0] == mvs[i as int]);
            assert(out@ =~= old(out)@ + tail_enc(opts@.skip(i as int), mvs.skip(i as int)));
        }
    } else {
        assert(out@ =~= old(out)@ + tail_enc(opts@.skip(i as int), mvs.skip(i as int)));
    }
}

} // verus!
