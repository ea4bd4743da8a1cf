//! Domain values: the typed, in-memory side of the mapping. A domain value
//! is a tree of plain values; the structural mapper converts it to and from
//! the wire `IrValue` model under the direction of a schema.

use vstd::prelude::*;

use crate::codec::{FullName, Timestamp};

verus! {

/// A domain value: what the library encodes from and decodes into.
#[derive(Debug, PartialEq, Eq)]
pub enum Domain {
    Bool(bool),
    Int(i64),
    Text(String),
    /// A timestamp, converted by the `TimestampMillis` codec.
    Stamp(Timestamp),
    /// A split name, converted by the `FullName` codec.
    Name(FullName),
    List(Vec<Domain>),
    /// A record instance: declared field name paired with the field's value.
    Record(Vec<(String, Domain)>),
    /// A tagged-union instance: the active tag and its field values.
    Union(String, Vec<(String, Domain)>),
    /// A string-keyed map with ordered entries.
    StrMap(Vec<(String, Domain)>),
    /// The absent state of an optional field.
    Absent,
}

/// Mathematical model of a `Domain` value.
pub enum Dom {
    Bool(bool),
    Int(int),
    Text(Seq<char>),
    Stamp(int),
    Name(Seq<char>, Seq<char>),
    List(Seq<Dom>),
    Record(Seq<(Seq<char>, Dom)>),
    Union(Seq<char>, Seq<(Seq<char>, Dom)>),
    StrMap(Seq<(Seq<char>, Dom)>),
    Absent,
}

/// Deep view of a `Domain` value as its model.
pub open spec fn dom_of(d: Domain) -> Dom
    decreases d, 0int,
{
    match d {
        Domain::Bool(b) => Dom::Bool(b),
        Domain::Int(i) => Dom::Int(i as int),
        Domain::Text(s) => Dom::Text(s@),
        Domain::Stamp(t) => Dom::Stamp(t.millis as int),
        Domain::Name(n) => Dom::Name(n.first@, n.last@),
        Domain::List(ds) => Dom::List(doms_of(ds@)),
        Domain::Record(ps) => Dom::Record(dpairs_of(ps@)),
        Domain::Union(tag, ps) => Dom::Union(tag@, dpairs_of(ps@)),
        Domain::StrMap(ps) => Dom::StrMap(dpairs_of(ps@)),
        Domain::Absent => Dom::Absent,
    }
}

pub open spec fn doms_of(ds: Seq<Domain>) -> Seq<Dom>
    decreases ds, 1int,
{
    if ds.len() == 0 {
        Seq::empty()
    } else {
        seq![dom_of(ds[0])] + doms_of(ds.subrange(1, ds.len() as int))
    }
}

pub open spec fn dpairs_of(ps: Seq<(String, Domain)>) -> Seq<(Seq<char>, Dom)>
    decreases ps, 1int,
{
    if ps.len() == 0 {
        Seq::empty()
    } else {
        seq![(ps[0].0@, dom_of(ps[0].1))] + dpairs_of(ps.subrange(1, ps.len() as int))
    }
}

/// `dpairs_of` maps each entry of the sequence.
pub proof fn lemma_dpairs_of(ps: Seq<(String, Domain)>)
    ensures
        dpairs_of(ps).len() == ps.len(),
        forall|i: int| 0 <= i < ps.len() ==> dpairs_of(ps)[i] == (ps[i].0@, dom_of(ps[i].1)),
    decreases ps.len(),
{
    if ps.len() > 0 {
        lemma_dpairs_of(ps.subrange(1, ps.len() as int));
    }
}

} // verus!
