//! The intermediate value model: a finite, acyclic tree that every concrete
//! format converts to and from. Sequences and mappings keep their order.

use vstd::prelude::*;

use crate::error::{DecodeError, ValueKind};

verus! {

/// The intermediate representation of every encodable shape.
#[derive(Debug, PartialEq, Eq)]
pub enum IrValue {
    Null,
    Bool(bool),
    Int(i64),
    Text(String),
    Sequence(Vec<IrValue>),
    Mapping(Vec<(String, IrValue)>),
    Variant(String, Vec<(String, IrValue)>),
}

/// Mathematical model of an `IrValue`: the same tree over `int`, character
/// sequences and `Seq`.
pub enum Val {
    Null,
    Bool(bool),
    Int(int),
    Text(Seq<char>),
    Sequence(Seq<Val>),
    Mapping(Seq<(Seq<char>, Val)>),
    Variant(Seq<char>, Seq<(Seq<char>, Val)>),
}

/// Deep view of an `IrValue` as its model.
pub open spec fn val_of(v: IrValue) -> Val
    decreases v, 0int,
{
    match v {
        IrValue::Null => Val::Null,
        IrValue::Bool(b) => Val::Bool(b),
        IrValue::Int(i) => Val::Int(i as int),
        IrValue::Text(s) => Val::Text(s@),
        IrValue::Sequence(vs) => Val::Sequence(vals_of(vs@)),
        IrValue::Mapping(ps) => Val::Mapping(pairs_of(ps@)),
        IrValue::Variant(tag, ps) => Val::Variant(tag@, pairs_of(ps@)),
    }
}

pub open spec fn vals_of(vs: Seq<IrValue>) -> Seq<Val>
    decreases vs, 1int,
{
    if vs.len() == 0 {
        Seq::empty()
    } else {
        seq![val_of(vs[0])] + vals_of(vs.subrange(1, vs.len() as int))
    }
}

pub open spec fn pairs_of(ps: Seq<(String, IrValue)>) -> Seq<(Seq<char>, Val)>
    decreases ps, 1int,
{
    if ps.len() == 0 {
        Seq::empty()
    } else {
        seq![(ps[0].0@, val_of(ps[0].1))] + pairs_of(ps.subrange(1, ps.len() as int))
    }
}

/// The shape of a model value.
pub open spec fn kind_of(v: Val) -> ValueKind {
    match v {
        Val::Null => ValueKind::Null,
        Val::Bool(_) => ValueKind::Bool,
        Val::Int(_) => ValueKind::Int,
        Val::Text(_) => ValueKind::Text,
        Val::Sequence(_) => ValueKind::Sequence,
        Val::Mapping(_) => ValueKind::Mapping,
        Val::Variant(_, _) => ValueKind::Variant,
    }
}

/// `pairs_of` maps each entry of the sequence.
pub proof fn lemma_pairs_of(ps: Seq<(String, IrValue)>)
    ensures
        pairs_of(ps).len() == ps.len(),
        forall|i: int| 0 <= i < ps.len() ==> pairs_of(ps)[i] == (ps[i].0@, val_of(ps[i].1)),
    decreases ps.len(),
{
    if ps.len() > 0 {
        lemma_pairs_of(ps.subrange(1, ps.len() as int));
    }
}

impl IrValue {
    /// The shape of this value.
    pub fn kind(&self) -> (k: ValueKind)
        ensures
            k == kind_of(val_of(*self)),
    {
        match self {
            IrValue::Null => ValueKind::Null,
            IrValue::Bool(_) => ValueKind::Bool,
            IrValue::Int(_) => ValueKind::Int,
            IrValue::Text(_) => ValueKind::Text,
            IrValue::Sequence(_) => ValueKind::Sequence,
            IrValue::Mapping(_) => ValueKind::Mapping,
            IrValue::Variant(_, _) => ValueKind::Variant,
        }
    }

    /// Typed accessor: the stored boolean, or `TypeMismatch`.
    pub fn as_bool(&self) -> (r: Result<bool, DecodeError>)
        ensures
            match r {
                Ok(b) => val_of(*self) == Val::Bool(b),
                Err(e) => !(val_of(*self) is Bool) && e == (DecodeError::TypeMismatch {
                    expected: ValueKind::Bool,
                    found: kind_of(val_of(*self)),
                }),
            },
    {
        match self {
            IrValue::Bool(b) => Ok(*b),
            _ => Err(DecodeError::TypeMismatch { expected: ValueKind::Bool, found: self.kind() }),
        }
    }

    /// Typed accessor: the stored integer, or `TypeMismatch`.
    pub fn as_int(&self) -> (r: Result<i64, DecodeError>)
        ensures
            match r {
                Ok(i) => val_of(*self) == Val::Int(i as int),
                Err(e) => !(val_of(*self) is Int) && e == (DecodeError::TypeMismatch {
                    expected: ValueKind::Int,
                    found: kind_of(val_of(*self)),
                }),
            },
    {
        match self {
            IrValue::Int(i) => Ok(*i),
            _ => Err(DecodeError::TypeMismatch { expected: ValueKind::Int, found: self.kind() }),
        }
    }

    /// Typed accessor: the stored text, or `TypeMismatch`.
    pub fn as_text(&self) -> (r: Result<&String, DecodeError>)
        ensures
            match r {
                Ok(s) => val_of(*self) == Val::Text(s@),
                Err(e) => !(val_of(*self) is Text) && e == (DecodeError::TypeMismatch {
                    expected: ValueKind::Text,
                    found: kind_of(val_of(*self)),
                }),
            },
    {
        match self {
            IrValue::Text(s) => Ok(s),
            _ => Err(DecodeError::TypeMismatch { expected: ValueKind::Text, found: self.kind() }),
        }
    }
}

/// No two entries of one mapping share a key.
pub open spec fn unique_keys(ps: Seq<(Seq<char>, Val)>) -> bool {
    forall|i: int, j: int| 0 <= i < j < ps.len() ==> ps[i].0 != ps[j].0
}

/// The value model's invariant: within every mapping, and within every
/// variant payload, the keys are unique.
pub open spec fn wf_val(v: Val) -> bool
    decreases v, 0int,
{
    match v {
        Val::Sequence(vs) => wf_val_list(vs),
        Val::Mapping(ps) => unique_keys(ps) && wf_val_pairs(ps),
        Val::Variant(_, ps) => unique_keys(ps) && wf_val_pairs(ps),
        _ => true,
    }
}

pub open spec fn wf_val_list(vs: Seq<Val>) -> bool
    decreases vs, 1int,
{
    if vs.len() == 0 {
        true
    } else {
        wf_val(vs[0]) && wf_val_list(vs.subrange(1, vs.len() as int))
    }
}

pub open spec fn wf_val_pairs(ps: Seq<(Seq<char>, Val)>) -> bool
    decreases ps, 1int,
{
    if ps.len() == 0 {
        true
    } else {
        wf_val(ps[0].1) && wf_val_pairs(ps.subrange(1, ps.len() as int))
    }
}

} // verus!
