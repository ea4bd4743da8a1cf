//! The codec registry: custom conversion logic keyed by type identity.
//! Registrations are expected during an initialization phase, before
//! encoding or decoding begins; registering twice under one identity is
//! refused. Encoding and decoding look the identity up and delegate to the
//! registered codec, falling through to the structural mapper otherwise.

use vstd::prelude::*;

use crate::codec::Codec;
use crate::domain::{dom_of, Dom, Domain};
use crate::error::{derr_of, DErr, DecodeError, EncodeError, RegistryError};
use crate::mapper::{
    codec_dec, codec_enc, dec_val, decode, decode_custom, enc_dom, encode, encode_custom,
};
use crate::schema::Schema;
use crate::value::{val_of, Val, IrValue};

verus! {

/// First codec registered under `id`, if any.
pub open spec fn reg_find(es: Seq<(u64, Codec)>, id: u64) -> Option<Codec>
    decreases es.len(),
{
    if es.len() == 0 {
        Option::None
    } else if es[0].0 == id {
        Option::Some(es[0].1)
    } else {
        reg_find(es.subrange(1, es.len() as int), id)
    }
}

proof fn lemma_reg_find_none(es: Seq<(u64, Codec)>, id: u64)
    requires
        forall|t: int| 0 <= t < es.len() ==> (#[trigger] es[t]).0 != id,
    ensures
        reg_find(es, id) is None,
    decreases es.len(),
{
    if es.len() > 0 {
        let tail = es.subrange(1, es.len() as int);
        assert(forall|t: int| 0 <= t < tail.len() ==> tail[t] == es[t + 1]);
        lemma_reg_find_none(tail, id);
    }
}

proof fn lemma_reg_find_at(es: Seq<(u64, Codec)>, id: u64, j: int)
    requires
        0 <= j < es.len(),
        es[j].0 == id,
        forall|t: int| 0 <= t < j ==> (#[trigger] es[t]).0 != id,
    ensures
        reg_find(es, id) == Option::Some(es[j].1),
    decreases j,
{
    if j > 0 {
        let tail = es.subrange(1, es.len() as int);
        assert(forall|t: int| 0 <= t < tail.len() ==> tail[t] == es[t + 1]);
        lemma_reg_find_at(tail, id, j - 1);
    }
}

/// The registry of custom codecs, keyed by type identity.
#[derive(Debug)]
pub struct CodecRegistry {
    entries: Vec<(u64, Codec)>,
}

impl CodecRegistry {
    /// The registered pairs, in registration order.
    pub closed spec fn table(self) -> Seq<(u64, Codec)> {
        self.entries@
    }

    /// An empty registry.
    pub fn new() -> (r: CodecRegistry)
        ensures
            r.table() == Seq::<(u64, Codec)>::empty(),
    {
        let entries: Vec<(u64, Codec)> = Vec::new();
        proof {
            assert(entries@ =~= Seq::<(u64, Codec)>::empty());
        }
        CodecRegistry { entries }
    }

    /// The codec registered under `id`, if any.
    pub fn lookup(&self, id: u64) -> (r: Option<Codec>)
        ensures
            r == reg_find(self.table(), id),
    {
        for j in 0..self.entries.len()
            invariant
                forall|t: int| 0 <= t < j ==> (#[trigger] self.entries@[t]).0 != id,
        {
            if self.entries[j].0 == id {
                proof {
                    lemma_reg_find_at(self.entries@, id, j as int);
                }
                return Some(self.entries[j].1);
            }
        }
        proof {
            lemma_reg_find_none(self.entries@, id);
        }
        None
    }

    /// Associate a codec with a type identity. Must happen before that type
    /// is encoded or decoded; a second registration under the same identity
    /// is refused as `DuplicateCodec` and changes nothing.
    pub fn register(&mut self, id: u64, c: Codec) -> (r: Result<(), RegistryError>)
        ensures
            match r {
                Ok(_) => reg_find(old(self).table(), id) is None && final(self).table() == old(
                    self,
                ).table().push((id, c)),
                Err(e) => e == RegistryError::DuplicateCodec && reg_find(
                    old(self).table(),
                    id,
                ) is Some && final(self).table() == old(self).table(),
            },
    {
        match self.lookup(id) {
            Some(_) => Err(RegistryError::DuplicateCodec),
            None => {
                self.entries.push((id, c));
                Ok(())
            },
        }
    }
}

/// Encode a domain value: a codec registered under `type_id` converts it;
/// with none registered the structural mapper works under `fallback`.
pub fn encode_with(
    reg: &CodecRegistry,
    type_id: u64,
    d: &Domain,
    fallback: &Schema,
) -> (r: Result<IrValue, EncodeError>)
    ensures
        match reg_find(reg.table(), type_id) {
            Option::Some(c) => match codec_enc(c, dom_of(*d)) {
                Option::Some(v) => r matches Ok(out) && val_of(out) == v,
                Option::None => r == Err::<IrValue, EncodeError>(EncodeError::SchemaMismatch),
            },
            Option::None => match enc_dom(dom_of(*d), *fallback) {
                Option::Some(v) => r matches Ok(out) && val_of(out) == v,
                Option::None => r == Err::<IrValue, EncodeError>(EncodeError::SchemaMismatch),
            },
        },
{
    match reg.lookup(type_id) {
        Some(c) => encode_custom(c, d),
        None => encode(d, fallback),
    }
}

/// Decode a wire value: a codec registered under `type_id` converts it;
/// with none registered the structural mapper works under `fallback`.
pub fn decode_with(
    reg: &CodecRegistry,
    type_id: u64,
    v: &IrValue,
    fallback: &Schema,
) -> (r: Result<Domain, DecodeError>)
    ensures
        match reg_find(reg.table(), type_id) {
            Option::Some(c) => match r {
                Ok(d) => codec_dec(c, val_of(*v)) == Result::<Dom, DErr>::Ok(dom_of(d)),
                Err(e) => codec_dec(c, val_of(*v)) == Result::<Dom, DErr>::Err(derr_of(e)),
            },
            Option::None => match r {
                Ok(d) => dec_val(val_of(*v), *fallback) == Result::<Dom, DErr>::Ok(dom_of(d)),
                Err(e) => dec_val(val_of(*v), *fallback) == Result::<Dom, DErr>::Err(derr_of(e)),
            },
        },
{
    match reg.lookup(type_id) {
        Some(c) => decode_custom(c, v),
        None => decode(v, fallback),
    }
}

} // verus!
