//! The message-family dispatcher: a closed set of message kinds decoded
//! through one entry point.
//!
//! Decoding reads the two-byte tag once and matches it against the tag of
//! each member in declaration order; the member's own codec then decodes
//! the body with the tag check turned off, so the tag is never read twice.
//! A tag no member declares fails `InvalidData` after consuming exactly the
//! two tag bytes, so a caller can treat an unknown kind as ignorable and
//! resynchronize deterministically.  Encoding forwards to the member's own
//! codec, which re-emits the tag itself; the dispatcher adds no header.

use vstd::prelude::*;

use crate::bytes::{be_val, lemma_pow256_u64};
use crate::cursor::Cursor;
use crate::errors::DecodeError;
use crate::msg::{body_dec, msg_enc, Message, Schema, SpecMessage, SpecSchema};

verus! {

/// The index of the first schema declared with tag `t`, or -1.
pub open spec fn find_tag(schemas: Seq<SpecSchema>, t: nat) -> int
    decreases schemas.len(),
{
    if schemas.len() == 0 {
        -1
    } else if schemas[0].tag == t {
        0
    } else {
        let r = find_tag(schemas.skip(1), t);
        if r == -1 {
            -1
        } else {
            r + 1
        }
    }
}

/// The first index whose schema carries tag `t` is what `find_tag` finds.
pub proof fn lemma_find_tag_first(schemas: Seq<SpecSchema>, t: nat, i: int)
    requires
        0 <= i < schemas.len(),
        schemas[i].tag == t,
        forall|a: int| 0 <= a < i ==> (#[trigger] schemas[a]).tag != t,
    ensures
        find_tag(schemas, t) == i,
    decreases i,
{
    if i > 0 {
        assert forall|a: int| 0 <= a < i - 1 implies (#[trigger] schemas.skip(1)[a]).tag != t by {
            assert(schemas[a + 1].tag != t);
        }
        lemma_find_tag_first(schemas.skip(1), t, i - 1);
    }
}

/// When no schema carries tag `t`, `find_tag` reports -1.
pub proof fn lemma_find_tag_none(schemas: Seq<SpecSchema>, t: nat)
    requires
        forall|a: int| 0 <= a < schemas.len() ==> (#[trigger] schemas[a]).tag != t,
    ensures
        find_tag(schemas, t) == -1,
    decreases schemas.len(),
{
    if schemas.len() > 0 {
        assert forall|a: int|
            0 <= a < schemas.skip(1).len() implies (#[trigger] schemas.skip(1)[a]).tag != t by {
            assert(schemas[a + 1].tag != t);
        }
        lemma_find_tag_none(schemas.skip(1), t);
    }
}

/// The dispatch parse: read the two-byte tag, select the first member
/// declared with it, and parse the rest of the data as that member's body.
pub open spec fn any_dec(schemas: Seq<SpecSchema>, data: Seq<u8>, pos: int) -> Result<
    (int, SpecMessage),
    DecodeError,
>
    recommends
        0 <= pos,
{
    if pos + 2 > data.len() {
        Err(DecodeError::Truncated)
    } else {
        let t = be_val(data.subrange(pos, pos + 2));
        let i = find_tag(schemas, t);
        if i < 0 {
            Err(DecodeError::InvalidData)
        } else {
            match body_dec(schemas[i], data, pos + 2) {
                Err(e) => Err(e),
                Ok(m) => Ok((i, m)),
            }
        }
    }
}

/// A family is well formed when every member schema is well formed and no
/// two members declare the same tag.  Like a schema's own shape, this is
/// validated once, at construction.
pub open spec fn family_wf(schemas: Seq<SpecSchema>) -> bool {
    &&& forall|i: int| 0 <= i < schemas.len() ==> (#[trigger] schemas[i]).wf()
    &&& forall|i: int, j: int|
        0 <= i < j < schemas.len() ==> (#[trigger] schemas[i]).tag != (#[trigger] schemas[j]).tag
}

/// A closed, enumerable family of message kinds.  A family value is a pair
/// of a member index and a `Message` conforming to that member's schema.
pub struct Family {
    pub schemas: Vec<Schema>,
}

impl View for Family {
    type V = Seq<SpecSchema>;

    open spec fn view(&self) -> Seq<SpecSchema> {
        self.schemas@.map_values(|s: Schema| s@)
    }
}

impl Family {
    /// Validates and builds a family: every member's optional slots must
    /// be strictly increasing and no two members may share a tag.
    pub fn new(schemas: Vec<Schema>) -> (r: Option<Family>)
        ensures
            match r {
                Option::Some(f) => {
                    &&& f@ == schemas@.map_values(|s: Schema| s@)
                    &&& family_wf(f@)
                },
                Option::None => !family_wf(schemas@.map_values(|s: Schema| s@)),
            },
    {
        let ghost view = schemas@.map_values(|s: Schema| s@);
        let mut i: usize = 0;
        while i < schemas.len()
            invariant
                i <= schemas@.len(),
                view == schemas@.map_values(|s: Schema| s@),
                forall|a: int| 0 <= a < i ==> (#[trigger] view[a]).wf(),
                forall|a: int, b: int|
                    0 <= a < b < i ==> (#[trigger] view[a]).tag != (#[trigger] view[b]).tag,
            decreases schemas@.len() - i,
        {
            if !schemas[i].check_slots() {
                proof {
                    assert(view[i as int] == schemas@[i as int]@);
                }
                return None;
            }
            let mut a: usize = 0;
            while a < i
                invariant
                    a <= i < schemas@.len(),
                    view == schemas@.map_values(|s: Schema| s@),
                    forall|b: int| 0 <= b < a ==> (#[trigger] view[b]).tag != view[i as int].tag,
                decreases i - a,
            {
                if schemas[a].tag == schemas[i].tag {
                    proof {
                        assert(view[a as int] == schemas@[a as int]@);
                        assert(view[i as int] == schemas@[i as int]@);
                    }
                    return None;
                }
                proof {
                    assert(view[a as int] == schemas@[a as int]@);
                    assert(view[i as int] == schemas@[i as int]@);
                }
                a = a + 1;
            }
            proof {
                assert forall|x: int, y: int|
                    0 <= x < y < i + 1 implies (#[trigger] view[x]).tag != (
                #[trigger] view[y]).tag by {
                    if y < i {
                        assert(view[x].tag != view[y].tag);
                    }
                }
            }
            i = i + 1;
        }
        Some(Family { schemas })
    }

    /// How many message kinds the family declares.
    pub fn len(&self) -> (n: usize)
        ensures
            n == self@.len(),
    {
        self.schemas.len()
    }

    /// The tag of member `i`: what its encodings start with.
    pub fn tag_of(&self, i: usize) -> (t: u16)
        requires
            i < self@.len(),
        ensures
            t == self@[i as int].tag,
    {
        self.schemas[i].tag
    }

    /// Encodes a family value by forwarding to its member's codec; the
    /// member re-emits its own tag, so nothing is prepended here.
    pub fn encode(&self, i: usize, m: &Message, out: &mut Vec<u8>) -> (count: usize)
        requires
            i < self@.len(),
            self@[i as int].msg_fits(m@),
        ensures
            final(out)@ == old(out)@ + msg_enc(self@[i as int], m@),
            count == msg_enc(self@[i as int], m@).len(),
    {
        self.schemas[i].encode(m, out)
    }

    /// Reads the two-byte tag, dispatches to the member declared with it,
    /// and decodes the rest of the data as that member's body.
    ///
    /// A tag no member declares fails `InvalidData` with the cursor exactly
    /// two bytes past where it started.
    pub fn decode(&self, data: &Vec<u8>, cursor: &mut Cursor) -> (r: Result<
        (usize, Message),
        DecodeError,
    >)
        requires
            old(cursor).pos <= data@.len(),
        ensures
            match r {
                Ok((i, m)) => {
                    &&& any_dec(self@, data@, old(cursor).pos as int) == Ok::<_, DecodeError>(
                        (i as int, m@),
                    )
                    &&& i < self@.len()
                    &&& final(cursor).pos == data@.len()
                },
                Err(e) => {
                    &&& any_dec(self@, data@, old(cursor).pos as int) == Err::<
                        (int, SpecMessage),
                        _,
                    >(e)
                    &&& old(cursor).pos <= final(cursor).pos <= data@.len()
                },
            },
            old(cursor).pos + 2 <= data@.len() && find_tag(
                self@,
                be_val(data@.subrange(old(cursor).pos as int, old(cursor).pos + 2)),
            ) < 0 ==> r == Err::<(usize, Message), _>(DecodeError::InvalidData)
                && final(cursor).pos == old(cursor).pos + 2,
    {
        let t = match cursor.read_be(data, 2) {
            Ok(t) => t,
            Err(e) => {
                return Err(e);
            },
        };
        proof {
            lemma_pow256_u64();
        }
        match self.index_of_tag(t as u16) {
            Some(i) => {
                proof {
                    assert(self@[i as int] == self.schemas@[i as int]@);
                }
                match self.schemas[i].decode(data, cursor, false) {
                    Ok(m) => Ok((i, m)),
                    Err(e) => Err(e),
                }
            },
            None => Err(DecodeError::InvalidData),
        }
    }

    /// The member index a tag selects, or `None` for a tag no member
    /// declares: how a received primitive resolves to a declared kind.
    pub fn index_of_tag(&self, t: u16) -> (r: Option<usize>)
        ensures
            match r {
                Option::Some(i) => {
                    &&& find_tag(self@, t as nat) == i
                    &&& i < self@.len()
                    &&& self@[i as int].tag == t
                },
                Option::None => find_tag(self@, t as nat) == -1,
            },
    {
        let mut i: usize = 0;
        while i < self.schemas.len()
            invariant
                i <= self@.len(),
                self@ == self.schemas@.map_values(|s: Schema| s@),
                forall|a: int| 0 <= a < i ==> (#[trigger] self@[a]).tag != t,
            decreases self@.len() - i,
        {
            proof {
                assert(self@[i as int] == self.schemas@[i as int]@);
            }
            if self.schemas[i].tag == t {
                proof {
                    lemma_find_tag_first(self@, t as nat, i as int);
                }
                return Some(i);
            }
            i = i + 1;
        }
        proof {
            lemma_find_tag_none(self@, t as nat);
        }
        None
    }
}

} // verus!
