//! The structural mapper: default field-by-field conversion between domain
//! values and the wire value model, driven by a schema. A field whose schema
//! names a custom codec is delegated to that codec instead; everything else
//! is mapped structurally. Decoding keeps shape errors (`UnexpectedShape`)
//! apart from semantic ones (`SemanticValidation`), refuses undeclared union
//! tags (`UnknownVariant`), and treats a missing optional entry as the absent
//! state rather than an error.

use vstd::prelude::*;

use crate::codec::{
    decode_full_name, deserialize, encode_full_name, name_tokens, serialize, ts_in_range, Codec,
};
use crate::convention::Convention;
use crate::domain::{dom_of, doms_of, dpairs_of, lemma_dpairs_of, Dom, Domain};
use crate::error::{derr_of, DErr, DecodeError, EncodeError, ValueKind};
use crate::schema::{
    field_wire, fields_wires_distinct, lemma_wf_fields, wf_fields, wf_schema, wf_variants,
    wire_name, FieldSchema, Schema, VariantSchema,
};
use crate::value::{kind_of, lemma_pairs_of, pairs_of, val_of, vals_of, Val, IrValue};

verus! {

/// Index of the first mapping entry keyed `key`, or `-1` when there is none.
pub open spec fn lookup_idx(m: Seq<(Seq<char>, Val)>, key: Seq<char>) -> int
    decreases m.len(),
{
    if m.len() == 0 {
        -1
    } else if m[0].0 == key {
        0
    } else {
        let r = lookup_idx(m.subrange(1, m.len() as int), key);
        if r < 0 {
            -1
        } else {
            r + 1
        }
    }
}

/// `lookup_idx` points at the first entry keyed `key`; it is negative
/// exactly when no entry has that key.
pub proof fn lemma_lookup_idx(m: Seq<(Seq<char>, Val)>, key: Seq<char>)
    ensures
        lookup_idx(m, key) < m.len(),
        lookup_idx(m, key) < 0 ==> lookup_idx(m, key) == -1,
        lookup_idx(m, key) >= 0 ==> m[lookup_idx(m, key)].0 == key,
        lookup_idx(m, key) < 0 <==> (forall|j: int| 0 <= j < m.len() ==> m[j].0 != key),
        forall|j: int| 0 <= j < lookup_idx(m, key) ==> m[j].0 != key,
    decreases m.len(),
{
    if m.len() > 0 && m[0].0 != key {
        let t = m.subrange(1, m.len() as int);
        lemma_lookup_idx(t, key);
        assert(forall|j: int| 0 <= j < t.len() ==> t[j] == m[j + 1]);
        if lookup_idx(t, key) < 0 {
            assert forall|j: int| 0 <= j < m.len() implies m[j].0 != key by {
                if j > 0 {
                    assert(m[j] == t[j - 1]);
                }
            }
        } else {
            assert(m[lookup_idx(m, key)] == t[lookup_idx(t, key)]);
            assert forall|j: int| 0 <= j < lookup_idx(m, key) implies m[j].0 != key by {
                if j > 0 {
                    assert(m[j] == t[j - 1]);
                }
            }
        }
    }
}

/// Index of the variant declared under `tag`, or `-1` when there is none.
pub open spec fn find_variant(vs: Seq<VariantSchema>, tag: Seq<char>) -> int
    decreases vs.len(),
{
    if vs.len() == 0 {
        -1
    } else if vs[0].tag@ == tag {
        0
    } else {
        let r = find_variant(vs.subrange(1, vs.len() as int), tag);
        if r < 0 {
            -1
        } else {
            r + 1
        }
    }
}

/// What a custom codec encodes a domain value to, if the value is of the
/// codec's type.
pub open spec fn codec_enc(c: Codec, d: Dom) -> Option<Val> {
    match (c, d) {
        (Codec::TimestampMillis, Dom::Stamp(ms)) => Option::Some(Val::Int(ms)),
        (Codec::FullName, Dom::Name(f, l)) => Option::Some(Val::Text(f + seq![' '] + l)),
        _ => Option::None,
    }
}

/// What a custom codec decodes a wire value to.
pub open spec fn codec_dec(c: Codec, v: Val) -> Result<Dom, DErr> {
    match c {
        Codec::TimestampMillis => match v {
            Val::Int(m) => if ts_in_range(m) {
                Result::Ok(Dom::Stamp(m))
            } else {
                Result::Err(DErr::OutOfRange)
            },
            _ => Result::Err(
                DErr::UnexpectedShape { expected: ValueKind::Int, found: kind_of(v) },
            ),
        },
        Codec::FullName => match v {
            Val::Text(s) => match name_tokens(s) {
                Option::Some(p) => Result::Ok(Dom::Name(p.0, p.1)),
                Option::None => Result::Err(
                    DErr::SemanticValidation("expected exactly two space-separated tokens"@),
                ),
            },
            _ => Result::Err(
                DErr::UnexpectedShape { expected: ValueKind::Text, found: kind_of(v) },
            ),
        },
    }
}

/// Whether a domain value has the shape a schema describes; the precondition
/// under which encoding succeeds and round-trips.
pub open spec fn conforms(d: Dom, s: Schema) -> bool
    decreases d, 0int,
{
    match s {
        Schema::Bool => d is Bool,
        Schema::Int => d is Int,
        Schema::Text => d is Text,
        Schema::Custom(c) => match (c, d) {
            (Codec::TimestampMillis, Dom::Stamp(ms)) => ts_in_range(ms),
            (Codec::FullName, Dom::Name(f, l)) => !f.contains(' ') && !l.contains(' '),
            _ => false,
        },
        Schema::List(inner) => match d {
            Dom::List(ds) => list_conforms(ds, *inner),
            _ => false,
        },
        Schema::Record(_, fs) => match d {
            Dom::Record(ps) => fields_conform(ps, fs@),
            _ => false,
        },
        Schema::Union(_, vs) => match d {
            Dom::Union(tag, ps) => {
                let i = find_variant(vs@, tag);
                i >= 0 && fields_conform(ps, vs@[i].fields@)
            },
            _ => false,
        },
        Schema::StrMap(inner) => match d {
            Dom::StrMap(ps) => unique_dom_keys(ps) && map_conforms(ps, *inner),
            _ => false,
        },
    }
}

/// No two entries of one domain map share a key.
pub open spec fn unique_dom_keys(ps: Seq<(Seq<char>, Dom)>) -> bool {
    forall|i: int, j: int| 0 <= i < j < ps.len() ==> ps[i].0 != ps[j].0
}

pub open spec fn list_conforms(ds: Seq<Dom>, s: Schema) -> bool
    decreases ds, 1int,
{
    if ds.len() == 0 {
        true
    } else {
        conforms(ds[0], s) && list_conforms(ds.subrange(1, ds.len() as int), s)
    }
}

pub open spec fn map_conforms(ps: Seq<(Seq<char>, Dom)>, s: Schema) -> bool
    decreases ps, 1int,
{
    if ps.len() == 0 {
        true
    } else {
        conforms(ps[0].1, s) && map_conforms(ps.subrange(1, ps.len() as int), s)
    }
}

pub open spec fn fields_conform(ps: Seq<(Seq<char>, Dom)>, fs: Seq<FieldSchema>) -> bool
    decreases ps, fs.len(),
{
    if ps.len() == 0 && fs.len() == 0 {
        true
    } else if ps.len() == 0 || fs.len() == 0 {
        false
    } else {
        ps[0].0 == fs[0].name@ && (if fs[0].optional {
            ps[0].1 is Absent || conforms(ps[0].1, fs[0].schema)
        } else {
            conforms(ps[0].1, fs[0].schema)
        }) && fields_conform(
            ps.subrange(1, ps.len() as int),
            fs.subrange(1, fs.len() as int),
        )
    }
}

/// What encoding a domain value under a schema yields: the wire value, or
/// nothing when the domain value does not have the schema's shape.
pub open spec fn enc_dom(d: Dom, s: Schema) -> Option<Val>
    decreases d, 0int,
{
    match s {
        Schema::Bool => match d {
            Dom::Bool(b) => Option::Some(Val::Bool(b)),
            _ => Option::None,
        },
        Schema::Int => match d {
            Dom::Int(i) => Option::Some(Val::Int(i)),
            _ => Option::None,
        },
        Schema::Text => match d {
            Dom::Text(t) => Option::Some(Val::Text(t)),
            _ => Option::None,
        },
        Schema::Custom(c) => codec_enc(c, d),
        Schema::List(inner) => match d {
            Dom::List(ds) => match enc_list(ds, *inner) {
                Option::Some(vs) => Option::Some(Val::Sequence(vs)),
                Option::None => Option::None,
            },
            _ => Option::None,
        },
        Schema::Record(conv, fs) => match d {
            Dom::Record(ps) => match enc_fields(conv, ps, fs@) {
                Option::Some(m) => Option::Some(Val::Mapping(m)),
                Option::None => Option::None,
            },
            _ => Option::None,
        },
        Schema::Union(_, vs) => match d {
            Dom::Union(tag, ps) => {
                let i = find_variant(vs@, tag);
                if i < 0 {
                    Option::None
                } else {
                    match enc_fields(vs@[i].conv, ps, vs@[i].fields@) {
                        Option::Some(m) => Option::Some(Val::Variant(tag, m)),
                        Option::None => Option::None,
                    }
                }
            },
            _ => Option::None,
        },
        Schema::StrMap(inner) => match d {
            Dom::StrMap(ps) => match enc_map(ps, *inner) {
                Option::Some(m) => Option::Some(Val::Mapping(m)),
                Option::None => Option::None,
            },
            _ => Option::None,
        },
    }
}

pub open spec fn enc_list(ds: Seq<Dom>, s: Schema) -> Option<Seq<Val>>
    decreases ds, 1int,
{
    if ds.len() == 0 {
        Option::Some(Seq::empty())
    } else {
        match (enc_dom(ds[0], s), enc_list(ds.subrange(1, ds.len() as int), s)) {
            (Option::Some(v), Option::Some(vs)) => Option::Some(seq![v] + vs),
            _ => Option::None,
        }
    }
}

pub open spec fn enc_map(ps: Seq<(Seq<char>, Dom)>, s: Schema) -> Option<Seq<(Seq<char>, Val)>>
    decreases ps, 1int,
{
    if ps.len() == 0 {
        Option::Some(Seq::empty())
    } else {
        match (enc_dom(ps[0].1, s), enc_map(ps.subrange(1, ps.len() as int), s)) {
            (Option::Some(v), Option::Some(m)) => Option::Some(seq![(ps[0].0, v)] + m),
            _ => Option::None,
        }
    }
}

pub open spec fn enc_fields(
    conv: Convention,
    ps: Seq<(Seq<char>, Dom)>,
    fs: Seq<FieldSchema>,
) -> Option<Seq<(Seq<char>, Val)>>
    decreases ps, fs.len(),
{
    if ps.len() == 0 && fs.len() == 0 {
        Option::Some(Seq::empty())
    } else if ps.len() == 0 || fs.len() == 0 {
        Option::None
    } else if ps[0].0 != fs[0].name@ {
        Option::None
    } else {
        let rest = enc_fields(conv, ps.subrange(1, ps.len() as int), fs.subrange(1, fs.len() as int));
        if fs[0].optional && ps[0].1 is Absent {
            rest
        } else {
            match (enc_dom(ps[0].1, fs[0].schema), rest) {
                (Option::Some(v), Option::Some(m)) => Option::Some(
                    seq![(field_wire(conv, fs[0]), v)] + m,
                ),
                _ => Option::None,
            }
        }
    }
}

pub open spec fn shape_err(expected: ValueKind, v: Val) -> DErr {
    DErr::UnexpectedShape { expected, found: kind_of(v) }
}

/// What decoding a wire value under a schema yields: the domain value, or
/// the first error met, in field order.
pub open spec fn dec_val(v: Val, s: Schema) -> Result<Dom, DErr>
    decreases v, 0int,
{
    match s {
        Schema::Bool => match v {
            Val::Bool(b) => Result::Ok(Dom::Bool(b)),
            _ => Result::Err(shape_err(ValueKind::Bool, v)),
        },
        Schema::Int => match v {
            Val::Int(i) => Result::Ok(Dom::Int(i)),
            _ => Result::Err(shape_err(ValueKind::Int, v)),
        },
        Schema::Text => match v {
            Val::Text(t) => Result::Ok(Dom::Text(t)),
            _ => Result::Err(shape_err(ValueKind::Text, v)),
        },
        Schema::Custom(c) => codec_dec(c, v),
        Schema::List(inner) => match v {
            Val::Sequence(es) => match dec_list(es, *inner) {
                Result::Ok(ds) => Result::Ok(Dom::List(ds)),
                Result::Err(e) => Result::Err(e),
            },
            _ => Result::Err(shape_err(ValueKind::Sequence, v)),
        },
        Schema::Record(conv, fs) => match v {
            Val::Mapping(m) => match dec_fields(conv, m, fs@) {
                Result::Ok(ps) => Result::Ok(Dom::Record(ps)),
                Result::Err(e) => Result::Err(e),
            },
            _ => Result::Err(shape_err(ValueKind::Mapping, v)),
        },
        Schema::Union(k, vs) => match v {
            Val::Variant(tag, m) => {
                let i = find_variant(vs@, tag);
                if i < 0 {
                    Result::Err(DErr::UnknownVariant(tag))
                } else {
                    match dec_fields(vs@[i].conv, m, vs@[i].fields@) {
                        Result::Ok(ps) => Result::Ok(Dom::Union(tag, ps)),
                        Result::Err(e) => Result::Err(e),
                    }
                }
            },
            Val::Mapping(m) => {
                let j = lookup_idx(m, k@);
                if j < 0 {
                    Result::Err(DErr::MissingField(k@))
                } else {
                    match m[j].1 {
                        Val::Text(tag) => {
                            let i = find_variant(vs@, tag);
                            if i < 0 {
                                Result::Err(DErr::UnknownVariant(tag))
                            } else {
                                match dec_fields(vs@[i].conv, m, vs@[i].fields@) {
                                    Result::Ok(ps) => Result::Ok(Dom::Union(tag, ps)),
                                    Result::Err(e) => Result::Err(e),
                                }
                            }
                        },
                        _ => Result::Err(shape_err(ValueKind::Text, m[j].1)),
                    }
                }
            },
            _ => Result::Err(shape_err(ValueKind::Variant, v)),
        },
        Schema::StrMap(inner) => match v {
            Val::Mapping(m) => match dec_map(m, *inner) {
                Result::Ok(ps) => Result::Ok(Dom::StrMap(ps)),
                Result::Err(e) => Result::Err(e),
            },
            _ => Result::Err(shape_err(ValueKind::Mapping, v)),
        },
    }
}

pub open spec fn dec_list(es: Seq<Val>, s: Schema) -> Result<Seq<Dom>, DErr>
    decreases es, 1int,
{
    if es.len() == 0 {
        Result::Ok(Seq::empty())
    } else {
        match dec_val(es[0], s) {
            Result::Err(e) => Result::Err(e),
            Result::Ok(d) => match dec_list(es.subrange(1, es.len() as int), s) {
                Result::Err(e) => Result::Err(e),
                Result::Ok(ds) => Result::Ok(seq![d] + ds),
            },
        }
    }
}

pub open spec fn dec_map(m: Seq<(Seq<char>, Val)>, s: Schema) -> Result<
    Seq<(Seq<char>, Dom)>,
    DErr,
>
    decreases m, 1int,
{
    if m.len() == 0 {
        Result::Ok(Seq::empty())
    } else {
        match dec_val(m[0].1, s) {
            Result::Err(e) => Result::Err(e),
            Result::Ok(d) => match dec_map(m.subrange(1, m.len() as int), s) {
                Result::Err(e) => Result::Err(e),
                Result::Ok(ps) => Result::Ok(seq![(m[0].0, d)] + ps),
            },
        }
    }
}

pub open spec fn dec_fields(
    conv: Convention,
    m: Seq<(Seq<char>, Val)>,
    fs: Seq<FieldSchema>,
) -> Result<Seq<(Seq<char>, Dom)>, DErr>
    decreases m, fs.len(),
    via dec_fields_via
{
    if fs.len() == 0 {
        Result::Ok(Seq::empty())
    } else {
        let j = lookup_idx(m, field_wire(conv, fs[0]));
        let head: Result<(Seq<char>, Dom), DErr> = if j < 0 {
            if fs[0].optional {
                Result::Ok((fs[0].name@, Dom::Absent))
            } else {
                Result::Err(DErr::MissingField(field_wire(conv, fs[0])))
            }
        } else {
            match dec_val(m[j].1, fs[0].schema) {
                Result::Ok(d) => Result::Ok((fs[0].name@, d)),
                Result::Err(e) => Result::Err(e),
            }
        };
        match head {
            Result::Err(e) => Result::Err(e),
            Result::Ok(p) => match dec_fields(conv, m, fs.subrange(1, fs.len() as int)) {
                Result::Err(e) => Result::Err(e),
                Result::Ok(rest) => Result::Ok(seq![p] + rest),
            },
        }
    }
}

#[via_fn]
proof fn dec_fields_via(conv: Convention, m: Seq<(Seq<char>, Val)>, fs: Seq<FieldSchema>) {
    if fs.len() > 0 {
        lemma_lookup_idx(m, field_wire(conv, fs[0]));
    }
}

/// `find_variant` points at the variant declared under `tag`; it is negative
/// exactly when no variant declares it.
pub proof fn lemma_find_variant(vs: Seq<VariantSchema>, tag: Seq<char>)
    ensures
        find_variant(vs, tag) < vs.len(),
        find_variant(vs, tag) < 0 ==> find_variant(vs, tag) == -1,
        find_variant(vs, tag) >= 0 ==> vs[find_variant(vs, tag)].tag@ == tag,
        find_variant(vs, tag) < 0 <==> (forall|j: int| 0 <= j < vs.len() ==> vs[j].tag@ != tag),
        forall|j: int| 0 <= j < find_variant(vs, tag) ==> vs[j].tag@ != tag,
    decreases vs.len(),
{
    if vs.len() > 0 && vs[0].tag@ != tag {
        let t = vs.subrange(1, vs.len() as int);
        lemma_find_variant(t, tag);
        assert(forall|j: int| 0 <= j < t.len() ==> t[j] == vs[j + 1]);
        if find_variant(t, tag) < 0 {
            assert forall|j: int| 0 <= j < vs.len() implies vs[j].tag@ != tag by {
                if j > 0 {
                    assert(vs[j] == t[j - 1]);
                }
            }
        } else {
            assert(vs[find_variant(vs, tag)] == t[find_variant(t, tag)]);
            assert forall|j: int| 0 <= j < find_variant(vs, tag) implies vs[j].tag@ != tag by {
                if j > 0 {
                    assert(vs[j] == t[j - 1]);
                }
            }
        }
    }
}

/// Looking a key up behind one extra entry with a different key finds the
/// same entry, one position later.
proof fn lemma_lookup_cons(e: (Seq<char>, Val), m: Seq<(Seq<char>, Val)>, key: Seq<char>)
    ensures
        e.0 == key ==> lookup_idx(seq![e] + m, key) == 0,
        e.0 != key ==> (lookup_idx(m, key) < 0 ==> lookup_idx(seq![e] + m, key) == -1),
        e.0 != key ==> (lookup_idx(m, key) >= 0 ==> lookup_idx(seq![e] + m, key) == lookup_idx(
            m,
            key,
        ) + 1),
{
    let w = seq![e] + m;
    assert(w[0] == e);
    assert(w.subrange(1, w.len() as int) =~= m);
}

/// Whether `key` is the wire name of a field of `fs` that is present (not
/// an omitted optional) in the field list `ps`.
pub open spec fn key_of_present_field(
    conv: Convention,
    ps: Seq<(Seq<char>, Dom)>,
    fs: Seq<FieldSchema>,
    key: Seq<char>,
) -> bool {
    exists|j: int|
        0 <= j < fs.len() && key == field_wire(conv, #[trigger] fs[j]) && !(fs[j].optional
            && ps[j].1 is Absent)
}

/// Every key of an encoded field mapping is the wire name of a present
/// (not omitted) field.
proof fn lemma_enc_fields_keys(
    conv: Convention,
    ps: Seq<(Seq<char>, Dom)>,
    fs: Seq<FieldSchema>,
    m: Seq<(Seq<char>, Val)>,
)
    requires
        enc_fields(conv, ps, fs) == Option::Some(m),
    ensures
        ps.len() == fs.len(),
        forall|t: int| 0 <= t < m.len() ==> key_of_present_field(conv, ps, fs, (#[trigger] m[t]).0),
    decreases fs.len(),
{
    if fs.len() > 0 {
        let rps = ps.subrange(1, ps.len() as int);
        let rfs = fs.subrange(1, fs.len() as int);
        let rest = enc_fields(conv, rps, rfs);
        assert(forall|j: int| 0 <= j < rfs.len() ==> rfs[j] == fs[j + 1]);
        assert(forall|j: int| 0 <= j < rps.len() ==> rps[j] == ps[j + 1]);
        if fs[0].optional && ps[0].1 is Absent {
            lemma_enc_fields_keys(conv, rps, rfs, m);
            assert forall|t: int| 0 <= t < m.len() implies key_of_present_field(
                conv,
                ps,
                fs,
                (#[trigger] m[t]).0,
            ) by {
                assert(key_of_present_field(conv, rps, rfs, m[t].0));
                let j0 = choose|j: int|
                    0 <= j < rfs.len() && m[t].0 == field_wire(conv, #[trigger] rfs[j]) && !(
                    rfs[j].optional && rps[j].1 is Absent);
                assert(fs[j0 + 1] == rfs[j0]);
                assert(ps[j0 + 1] == rps[j0]);
            }
        } else {
            let mr = rest->Some_0;
            lemma_enc_fields_keys(conv, rps, rfs, mr);
            assert(m == seq![(field_wire(conv, fs[0]), enc_dom(ps[0].1, fs[0].schema)->Some_0)]
                + mr);
            assert forall|t: int| 0 <= t < m.len() implies key_of_present_field(
                conv,
                ps,
                fs,
                (#[trigger] m[t]).0,
            ) by {
                if t == 0 {
                    assert(m[0].0 == field_wire(conv, fs[0]));
                    assert(!(fs[0].optional && ps[0].1 is Absent));
                } else {
                    assert(m[t] == mr[t - 1]);
                    assert(key_of_present_field(conv, rps, rfs, mr[t - 1].0));
                    let j0 = choose|j: int|
                        0 <= j < rfs.len() && mr[t - 1].0 == field_wire(conv, #[trigger] rfs[j])
                            && !(rfs[j].optional && rps[j].1 is Absent);
                    assert(fs[j0 + 1] == rfs[j0]);
                    assert(ps[j0 + 1] == rps[j0]);
                }
            }
        }
    }
}

/// Decoding a field list ignores a leading mapping entry whose key is no
/// field's wire name.
proof fn lemma_dec_fields_skip_head(
    conv: Convention,
    e: (Seq<char>, Val),
    m: Seq<(Seq<char>, Val)>,
    fs: Seq<FieldSchema>,
)
    requires
        forall|i: int| 0 <= i < fs.len() ==> field_wire(conv, #[trigger] fs[i]) != e.0,
    ensures
        dec_fields(conv, seq![e] + m, fs) == dec_fields(conv, m, fs),
    decreases fs.len(),
{
    let w = seq![e] + m;
    if fs.len() > 0 {
        let key = field_wire(conv, fs[0]);
        lemma_lookup_cons(e, m, key);
        lemma_lookup_idx(m, key);
        lemma_lookup_idx(w, key);
        let rfs = fs.subrange(1, fs.len() as int);
        assert(forall|i: int| 0 <= i < rfs.len() ==> rfs[i] == fs[i + 1]);
        lemma_dec_fields_skip_head(conv, e, m, rfs);
        if lookup_idx(m, key) >= 0 {
            assert(w[lookup_idx(m, key) + 1] == m[lookup_idx(m, key)]);
        }
    }
}

/// Round trip of a field list: encoding a conforming field list and decoding
/// the resulting mapping under the same descriptors yields the list back.
proof fn lemma_rt_fields(conv: Convention, ps: Seq<(Seq<char>, Dom)>, fs: Seq<FieldSchema>)
    requires
        fields_wires_distinct(conv, fs),
        wf_fields(fs),
        fields_conform(ps, fs),
    ensures
        match enc_fields(conv, ps, fs) {
            Option::Some(m) => dec_fields(conv, m, fs) == Result::<
                Seq<(Seq<char>, Dom)>,
                DErr,
            >::Ok(ps),
            Option::None => false,
        },
    decreases ps, fs.len(),
{
    if fs.len() > 0 {
        let rps = ps.subrange(1, ps.len() as int);
        let rfs = fs.subrange(1, fs.len() as int);
        assert(forall|j: int| 0 <= j < rfs.len() ==> rfs[j] == fs[j + 1]);
        assert(fields_wires_distinct(conv, rfs));
        lemma_rt_fields(conv, rps, rfs);
        let mr = enc_fields(conv, rps, rfs)->Some_0;
        lemma_enc_fields_keys(conv, rps, rfs, mr);
        let w0 = field_wire(conv, fs[0]);
        if fs[0].optional && ps[0].1 is Absent {
            // the whole mapping is the rest; its keys avoid this field's wire
            assert forall|t: int| 0 <= t < mr.len() implies (#[trigger] mr[t]).0 != w0 by {
                assert(key_of_present_field(conv, rps, rfs, mr[t].0));
                let j0 = choose|j: int|
                    0 <= j < rfs.len() && mr[t].0 == field_wire(conv, #[trigger] rfs[j]) && !(
                    rfs[j].optional && rps[j].1 is Absent);
                assert(field_wire(conv, fs[j0 + 1]) != field_wire(conv, fs[0]));
            }
            lemma_lookup_idx(mr, w0);
            assert(lookup_idx(mr, w0) == -1);
            assert(dec_fields(conv, mr, rfs) == Result::<Seq<(Seq<char>, Dom)>, DErr>::Ok(rps));
            assert(ps[0] == (fs[0].name@, Dom::Absent));
            assert(seq![ps[0]] + rps =~= ps);
        } else {
            lemma_round_trip_at(ps[0].1, fs[0].schema);
            let v0 = enc_dom(ps[0].1, fs[0].schema)->Some_0;
            let m = seq![(w0, v0)] + mr;
            assert(enc_fields(conv, ps, fs) == Option::Some(m));
            assert(m[0] == (w0, v0));
            assert(lookup_idx(m, w0) == 0);
            assert forall|i: int| 0 <= i < rfs.len() implies field_wire(conv, #[trigger] rfs[i])
                != w0 by {
                assert(field_wire(conv, fs[i + 1]) != field_wire(conv, fs[0]));
            }
            lemma_dec_fields_skip_head(conv, (w0, v0), mr, rfs);
            assert(dec_fields(conv, m, rfs) == dec_fields(conv, mr, rfs));
            assert(dec_fields(conv, m, fs) == Result::<Seq<(Seq<char>, Dom)>, DErr>::Ok(
                seq![(fs[0].name@, ps[0].1)] + rps,
            ));
            assert(ps[0] == (fs[0].name@, ps[0].1));
            assert(seq![ps[0]] + rps =~= ps);
        }
    } else {
        assert(ps =~= Seq::<(Seq<char>, Dom)>::empty());
    }
}

/// Round trip of a homogeneous list.
proof fn lemma_rt_list(ds: Seq<Dom>, s: Schema)
    requires
        wf_schema(s),
        list_conforms(ds, s),
    ensures
        match enc_list(ds, s) {
            Option::Some(vs) => dec_list(vs, s) == Result::<Seq<Dom>, DErr>::Ok(ds),
            Option::None => false,
        },
    decreases ds, 1int,
{
    if ds.len() > 0 {
        let rds = ds.subrange(1, ds.len() as int);
        lemma_round_trip_at(ds[0], s);
        lemma_rt_list(rds, s);
        let v0 = enc_dom(ds[0], s)->Some_0;
        let vrest = enc_list(rds, s)->Some_0;
        let vs = seq![v0] + vrest;
        assert(vs[0] == v0);
        assert(vs.subrange(1, vs.len() as int) =~= vrest);
        assert(seq![ds[0]] + rds =~= ds);
    } else {
        assert(ds =~= Seq::<Dom>::empty());
    }
}

/// Round trip of a string-keyed map.
proof fn lemma_rt_map(ps: Seq<(Seq<char>, Dom)>, s: Schema)
    requires
        wf_schema(s),
        map_conforms(ps, s),
    ensures
        match enc_map(ps, s) {
            Option::Some(m) => dec_map(m, s) == Result::<Seq<(Seq<char>, Dom)>, DErr>::Ok(ps),
            Option::None => false,
        },
    decreases ps, 1int,
{
    if ps.len() > 0 {
        let rps = ps.subrange(1, ps.len() as int);
        lemma_round_trip_at(ps[0].1, s);
        lemma_rt_map(rps, s);
        let v0 = enc_dom(ps[0].1, s)->Some_0;
        let mrest = enc_map(rps, s)->Some_0;
        let m = seq![(ps[0].0, v0)] + mrest;
        assert(m[0] == (ps[0].0, v0));
        assert(m.subrange(1, m.len() as int) =~= mrest);
        assert(ps[0] == (ps[0].0, ps[0].1));
        assert(seq![ps[0]] + rps =~= ps);
    } else {
        assert(ps =~= Seq::<(Seq<char>, Dom)>::empty());
    }
}

/// Every variant of a well-formed variant list has distinct wire names and
/// well-formed field schemas.
proof fn lemma_wf_variants(vs: Seq<VariantSchema>)
    requires
        wf_variants(vs),
    ensures
        forall|i: int|
            0 <= i < vs.len() ==> fields_wires_distinct(
                (#[trigger] vs[i]).conv,
                vs[i].fields@,
            ) && wf_fields(vs[i].fields@),
    decreases vs.len(),
{
    if vs.len() > 0 {
        let t = vs.subrange(1, vs.len() as int);
        lemma_wf_variants(t);
        assert forall|i: int|
            0 <= i < vs.len() implies fields_wires_distinct(
            (#[trigger] vs[i]).conv,
            vs[i].fields@,
        ) && wf_fields(vs[i].fields@) by {
            if i > 0 {
                assert(vs[i] == t[i - 1]);
            }
        }
    }
}

/// Round-trip law: encoding a domain value that conforms to a well-formed
/// schema succeeds, and decoding the encoded value under the same schema
/// yields the identical domain value.
pub proof fn lemma_round_trip_at(d: Dom, s: Schema)
    requires
        wf_schema(s),
        conforms(d, s),
    ensures
        match enc_dom(d, s) {
            Option::Some(v) => dec_val(v, s) == Result::<Dom, DErr>::Ok(d),
            Option::None => false,
        },
    decreases d, 0int,
{
    match s {
        Schema::Bool => {},
        Schema::Int => {},
        Schema::Text => {},
        Schema::Custom(c) => {
            match (c, d) {
                (Codec::FullName, Dom::Name(f, l)) => {
                    crate::codec::lemma_full_name_round_trip(f, l);
                },
                _ => {},
            }
        },
        Schema::List(inner) => {
            match d {
                Dom::List(ds) => {
                    lemma_rt_list(ds, *inner);
                },
                _ => {},
            }
        },
        Schema::Record(conv, fs) => {
            match d {
                Dom::Record(ps) => {
                    lemma_wf_fields(fs@);
                    lemma_rt_fields(conv, ps, fs@);
                },
                _ => {},
            }
        },
        Schema::Union(_, vs) => {
            match d {
                Dom::Union(tag, ps) => {
                    lemma_find_variant(vs@, tag);
                    let i = find_variant(vs@, tag);
                    lemma_wf_variants(vs@);
                    lemma_rt_fields(vs@[i].conv, ps, vs@[i].fields@);
                },
                _ => {},
            }
        },
        Schema::StrMap(inner) => {
            match d {
                Dom::StrMap(ps) => {
                    lemma_rt_map(ps, *inner);
                },
                _ => {},
            }
        },
    }
}

/// Tagged-union exhaustiveness: decoding an `IrValue::Variant` whose tag no
/// declared variant carries always yields `UnknownVariant`, never a default.
pub proof fn lemma_unknown_variant(
    tag: Seq<char>,
    fields: Seq<(Seq<char>, Val)>,
    key: String,
    vs: Vec<VariantSchema>,
)
    requires
        forall|j: int| 0 <= j < vs@.len() ==> (#[trigger] vs@[j]).tag@ != tag,
    ensures
        dec_val(Val::Variant(tag, fields), Schema::Union(key, vs)) == Result::<Dom, DErr>::Err(
            DErr::UnknownVariant(tag),
        ),
{
    lemma_find_variant(vs@, tag);
}

/// Decoding a field list yields one entry per field descriptor.
pub proof fn lemma_dec_fields_len(
    conv: Convention,
    m: Seq<(Seq<char>, Val)>,
    fs: Seq<FieldSchema>,
    ps: Seq<(Seq<char>, Dom)>,
)
    requires
        dec_fields(conv, m, fs) == Result::<Seq<(Seq<char>, Dom)>, DErr>::Ok(ps),
    ensures
        ps.len() == fs.len(),
    decreases fs.len(),
{
    if fs.len() > 0 {
        let rfs = fs.subrange(1, fs.len() as int);
        let rest = dec_fields(conv, m, rfs);
        lemma_dec_fields_len(conv, m, rfs, rest->Ok_0);
    }
}

/// Optional-field omission, encode half: an absent optional field leaves no
/// entry under its wire name in the encoded mapping.
pub proof fn lemma_absent_optional_omitted(
    conv: Convention,
    ps: Seq<(Seq<char>, Dom)>,
    fs: Seq<FieldSchema>,
    m: Seq<(Seq<char>, Val)>,
    i: int,
)
    requires
        enc_fields(conv, ps, fs) == Option::Some(m),
        fields_wires_distinct(conv, fs),
        0 <= i < fs.len(),
        fs[i].optional,
        ps[i].1 is Absent,
    ensures
        forall|t: int| 0 <= t < m.len() ==> (#[trigger] m[t]).0 != field_wire(conv, fs[i]),
{
    lemma_enc_fields_keys(conv, ps, fs, m);
    assert forall|t: int| 0 <= t < m.len() implies (#[trigger] m[t]).0 != field_wire(conv, fs[i])
        by {
        assert(key_of_present_field(conv, ps, fs, m[t].0));
        let j0 = choose|j: int|
            0 <= j < fs.len() && m[t].0 == field_wire(conv, #[trigger] fs[j]) && !(fs[j].optional
                && ps[j].1 is Absent);
        assert(j0 != i);
    }
}

/// Optional-field omission, decode half: when a mapping holds no entry under
/// an optional field's wire name, decoding yields the absent state for that
/// field rather than an error.
pub proof fn lemma_missing_optional_absent(
    conv: Convention,
    m: Seq<(Seq<char>, Val)>,
    fs: Seq<FieldSchema>,
    ps: Seq<(Seq<char>, Dom)>,
    i: int,
)
    requires
        dec_fields(conv, m, fs) == Result::<Seq<(Seq<char>, Dom)>, DErr>::Ok(ps),
        0 <= i < fs.len(),
        fs[i].optional,
        lookup_idx(m, field_wire(conv, fs[i])) < 0,
    ensures
        ps[i] == (fs[i].name@, Dom::Absent),
    decreases i,
{
    let rfs = fs.subrange(1, fs.len() as int);
    let rest = dec_fields(conv, m, rfs)->Ok_0;
    lemma_dec_fields_len(conv, m, rfs, rest);
    if i == 0 {
        assert(ps[0] == (fs[0].name@, Dom::Absent));
    } else {
        assert(rfs[i - 1] == fs[i]);
        lemma_missing_optional_absent(conv, m, rfs, rest, i - 1);
        assert(ps[i] == rest[i - 1]);
    }
}

/// Encode through a custom codec.
pub fn encode_custom(c: Codec, d: &Domain) -> (r: Result<IrValue, EncodeError>)
    ensures
        match codec_enc(c, dom_of(*d)) {
            Option::Some(v) => r matches Ok(out) && val_of(out) == v,
            Option::None => r == Err::<IrValue, EncodeError>(EncodeError::SchemaMismatch),
        },
{
    match (c, d) {
        (Codec::TimestampMillis, Domain::Stamp(t)) => Ok(serialize(t)),
        (Codec::FullName, Domain::Name(n)) => Ok(encode_full_name(n)),
        _ => Err(EncodeError::SchemaMismatch),
    }
}

/// Decode through a custom codec.
pub fn decode_custom(c: Codec, v: &IrValue) -> (r: Result<Domain, DecodeError>)
    ensures
        match r {
            Ok(d) => codec_dec(c, val_of(*v)) == Result::<Dom, DErr>::Ok(dom_of(d)),
            Err(e) => codec_dec(c, val_of(*v)) == Result::<Dom, DErr>::Err(derr_of(e)),
        },
{
    match c {
        Codec::TimestampMillis => match deserialize(v) {
            Ok(t) => Ok(Domain::Stamp(t)),
            Err(e) => Err(e),
        },
        Codec::FullName => match decode_full_name(v) {
            Ok(n) => Ok(Domain::Name(n)),
            Err(e) => Err(e),
        },
    }
}

/// Find the mapping entry keyed `key`.
fn lookup_entry(m: &Vec<(String, IrValue)>, key: &String) -> (r: Option<usize>)
    ensures
        match r {
            Option::Some(j) => j < m.len() && lookup_idx(pairs_of(m@), key@) == j as int,
            Option::None => lookup_idx(pairs_of(m@), key@) == -1,
        },
{
    proof {
        lemma_pairs_of(m@);
        lemma_lookup_idx(pairs_of(m@), key@);
    }
    for j in 0..m.len()
        invariant
            forall|t: int| 0 <= t < j ==> pairs_of(m@)[t].0 != key@,
            pairs_of(m@).len() == m@.len(),
            forall|t: int|
                0 <= t < m@.len() ==> pairs_of(m@)[t] == (m@[t].0@, val_of(m@[t].1)),
    {
        if m[j].0 == *key {
            proof {
                lemma_lookup_idx(pairs_of(m@), key@);
                assert(pairs_of(m@)[j as int].0 == key@);
                let l = lookup_idx(pairs_of(m@), key@);
                assert(l >= 0);
                if l < j as int {
                    assert(pairs_of(m@)[l].0 != key@);
                }
                if l > j as int {
                    assert(pairs_of(m@)[j as int].0 != key@);
                }
            }
            return Some(j);
        }
    }
    proof {
        lemma_lookup_idx(pairs_of(m@), key@);
    }
    None
}

/// Find the declared variant carrying `tag`.
fn find_variant_at(vs: &Vec<VariantSchema>, tag: &String) -> (r: Option<usize>)
    ensures
        match r {
            Option::Some(j) => j < vs.len() && find_variant(vs@, tag@) == j as int,
            Option::None => find_variant(vs@, tag@) == -1,
        },
{
    proof {
        lemma_find_variant(vs@, tag@);
    }
    for j in 0..vs.len()
        invariant
            forall|t: int| 0 <= t < j ==> (#[trigger] vs@[t]).tag@ != tag@,
    {
        let cand = &vs[j];
        if cand.tag == *tag {
            proof {
                assert(*cand == vs@[j as int]);
                lemma_find_variant(vs@, tag@);
                assert(vs@[j as int].tag@ == tag@);
                let l = find_variant(vs@, tag@);
                assert(l >= 0);
                if l < j as int {
                    assert(vs@[l].tag@ != tag@);
                }
                if l > j as int {
                    assert(vs@[j as int].tag@ != tag@);
                }
            }
            return Some(j);
        }
    }
    proof {
        lemma_find_variant(vs@, tag@);
    }
    None
}

/// Encode a domain value under a schema: the structural mapper, delegating
/// to custom codecs where the schema names one. Succeeds exactly when the
/// value has the shape the schema describes.
pub fn encode(d: &Domain, s: &Schema) -> (r: Result<IrValue, EncodeError>)
    ensures
        match enc_dom(dom_of(*d), *s) {
            Option::Some(v) => r matches Ok(out) && val_of(out) == v,
            Option::None => r == Err::<IrValue, EncodeError>(EncodeError::SchemaMismatch),
        },
    decreases *d, 0int,
{
    match s {
        Schema::Bool => match d {
            Domain::Bool(b) => Ok(IrValue::Bool(*b)),
            _ => Err(EncodeError::SchemaMismatch),
        },
        Schema::Int => match d {
            Domain::Int(i) => Ok(IrValue::Int(*i)),
            _ => Err(EncodeError::SchemaMismatch),
        },
        Schema::Text => match d {
            Domain::Text(t) => Ok(IrValue::Text(t.clone())),
            _ => Err(EncodeError::SchemaMismatch),
        },
        Schema::Custom(c) => encode_custom(*c, d),
        Schema::List(inner) => match d {
            Domain::List(ds) => {
                proof {
                    assert(ds@.subrange(0, ds@.len() as int) =~= ds@);
                }
                match encode_list(ds, inner, 0) {
                    Ok(vs) => Ok(IrValue::Sequence(vs)),
                    Err(e) => Err(e),
                }
            },
            _ => Err(EncodeError::SchemaMismatch),
        },
        Schema::Record(conv, fs) => match d {
            Domain::Record(ps) => {
                proof {
                    assert(ps@.subrange(0, ps@.len() as int) =~= ps@);
                    assert(fs@.subrange(0, fs@.len() as int) =~= fs@);
                }
                match encode_fields(*conv, ps, fs, 0) {
                    Ok(m) => Ok(IrValue::Mapping(m)),
                    Err(e) => Err(e),
                }
            },
            _ => Err(EncodeError::SchemaMismatch),
        },
        Schema::Union(_, vs) => match d {
            Domain::Union(tag, ps) => match find_variant_at(vs, tag) {
                Option::Some(ix) => {
                    proof {
                        assert(ps@.subrange(0, ps@.len() as int) =~= ps@);
                        assert(vs[ix as int].fields@.subrange(
                            0,
                            vs[ix as int].fields@.len() as int,
                        ) =~= vs[ix as int].fields@);
                    }
                    match encode_fields(vs[ix].conv, ps, &vs[ix].fields, 0) {
                        Ok(m) => Ok(IrValue::Variant(tag.clone(), m)),
                        Err(e) => Err(e),
                    }
                },
                Option::None => Err(EncodeError::SchemaMismatch),
            },
            _ => Err(EncodeError::SchemaMismatch),
        },
        Schema::StrMap(inner) => match d {
            Domain::StrMap(ps) => {
                proof {
                    assert(ps@.subrange(0, ps@.len() as int) =~= ps@);
                }
                match encode_map(ps, inner, 0) {
                    Ok(m) => Ok(IrValue::Mapping(m)),
                    Err(e) => Err(e),
                }
            },
            _ => Err(EncodeError::SchemaMismatch),
        },
    }
}

fn encode_list(ds: &Vec<Domain>, s: &Schema, i: usize) -> (r: Result<Vec<IrValue>, EncodeError>)
    requires
        i <= ds.len(),
    ensures
        match enc_list(doms_of(ds@.subrange(i as int, ds@.len() as int)), *s) {
            Option::Some(vs) => r matches Ok(out) && vals_of(out@) == vs,
            Option::None => r == Err::<Vec<IrValue>, EncodeError>(EncodeError::SchemaMismatch),
        },
    decreases ds@, ds@.len() - i,
{
    let ghost tail = ds@.subrange(i as int, ds@.len() as int);
    if i == ds.len() {
        let out: Vec<IrValue> = Vec::new();
        proof {
            assert(tail =~= Seq::<Domain>::empty());
            assert(doms_of(tail) =~= Seq::<Dom>::empty());
            assert(out@ =~= Seq::<IrValue>::empty());
            assert(vals_of(out@) =~= Seq::<Val>::empty());
        }
        Ok(out)
    } else {
        let ghost next = ds@.subrange(i as int + 1, ds@.len() as int);
        proof {
            assert(tail[0] == ds@[i as int]);
            assert(tail.subrange(1, tail.len() as int) =~= next);
            assert(doms_of(tail).subrange(1, doms_of(tail).len() as int) =~= doms_of(next));
            assert(doms_of(tail)[0] == dom_of(ds@[i as int]));
        }
        match encode(&ds[i], s) {
            Err(e) => Err(e),
            Ok(v0) => match encode_list(ds, s, i + 1) {
                Err(e) => Err(e),
                Ok(mut rest) => {
                    let ghost prev = rest@;
                    rest.insert(0, v0);
                    proof {
                        assert(rest@ =~= seq![v0] + prev);
                        assert(rest@[0] == v0);
                        assert(rest@.subrange(1, rest@.len() as int) =~= prev);
                    }
                    Ok(rest)
                },
            },
        }
    }
}

fn encode_map(
    ps: &Vec<(String, Domain)>,
    s: &Schema,
    i: usize,
) -> (r: Result<Vec<(String, IrValue)>, EncodeError>)
    requires
        i <= ps.len(),
    ensures
        match enc_map(dpairs_of(ps@.subrange(i as int, ps@.len() as int)), *s) {
            Option::Some(m) => r matches Ok(out) && pairs_of(out@) == m,
            Option::None => r == Err::<Vec<(String, IrValue)>, EncodeError>(
                EncodeError::SchemaMismatch,
            ),
        },
    decreases ps@, ps@.len() - i,
{
    let ghost tail = dpairs_of(ps@.subrange(i as int, ps@.len() as int));
    proof {
        lemma_dpairs_of(ps@.subrange(i as int, ps@.len() as int));
    }
    if i == ps.len() {
        let out: Vec<(String, IrValue)> = Vec::new();
        proof {
            assert(ps@.subrange(i as int, ps@.len() as int) =~= Seq::<(String, Domain)>::empty());
            assert(tail =~= Seq::<(Seq<char>, Dom)>::empty());
            assert(pairs_of(out@) =~= Seq::<(Seq<char>, Val)>::empty());
        }
        Ok(out)
    } else {
        proof {
            assert(ps@.subrange(i as int, ps@.len() as int)[0] == ps@[i as int]);
            assert(ps@.subrange(i as int, ps@.len() as int).subrange(
                1,
                ps@.subrange(i as int, ps@.len() as int).len() as int,
            ) =~= ps@.subrange(i as int + 1, ps@.len() as int));
            assert(tail[0] == (ps@[i as int].0@, dom_of(ps@[i as int].1)));
            assert(tail.subrange(1, tail.len() as int) =~= dpairs_of(
                ps@.subrange(i as int + 1, ps@.len() as int),
            ));
        }
        match encode(&ps[i].1, s) {
            Err(e) => Err(e),
            Ok(v0) => match encode_map(ps, s, i + 1) {
                Err(e) => Err(e),
                Ok(mut rest) => {
                    let key = ps[i].0.clone();
                    let ghost prev = rest@;
                    rest.insert(0, (key, v0));
                    proof {
                        assert(rest@[0].0@ == ps@[i as int].0@);
                        assert(rest@[0].1 == v0);
                        assert(rest@.subrange(1, rest@.len() as int) =~= prev);
                    }
                    Ok(rest)
                },
            },
        }
    }
}

fn encode_fields(
    conv: Convention,
    ps: &Vec<(String, Domain)>,
    fs: &Vec<FieldSchema>,
    i: usize,
) -> (r: Result<Vec<(String, IrValue)>, EncodeError>)
    requires
        i <= ps.len(),
        i <= fs.len(),
    ensures
        match enc_fields(
            conv,
            dpairs_of(ps@.subrange(i as int, ps@.len() as int)),
            fs@.subrange(i as int, fs@.len() as int),
        ) {
            Option::Some(m) => r matches Ok(out) && pairs_of(out@) == m,
            Option::None => r == Err::<Vec<(String, IrValue)>, EncodeError>(
                EncodeError::SchemaMismatch,
            ),
        },
    decreases ps@, fs@.len() - i,
{
    let ghost pt = dpairs_of(ps@.subrange(i as int, ps@.len() as int));
    let ghost ft = fs@.subrange(i as int, fs@.len() as int);
    proof {
        lemma_dpairs_of(ps@.subrange(i as int, ps@.len() as int));
    }
    if i == ps.len() && i == fs.len() {
        let out: Vec<(String, IrValue)> = Vec::new();
        proof {
            assert(ps@.subrange(i as int, ps@.len() as int) =~= Seq::<(String, Domain)>::empty());
            assert(ft.len() == 0);
            assert(pt =~= Seq::<(Seq<char>, Dom)>::empty());
            assert(pairs_of(out@) =~= Seq::<(Seq<char>, Val)>::empty());
        }
        Ok(out)
    } else if i == ps.len() || i == fs.len() {
        proof {
            assert(pt.len() == ps@.len() - i);
            assert(ft.len() == fs@.len() - i);
        }
        Err(EncodeError::SchemaMismatch)
    } else {
        proof {
            assert(pt.len() == ps@.len() - i);
            assert(ps@.subrange(i as int, ps@.len() as int)[0] == ps@[i as int]);
            assert(pt[0] == (ps@[i as int].0@, dom_of(ps@[i as int].1)));
            assert(ft[0] == fs@[i as int]);
            assert(ps@.subrange(i as int, ps@.len() as int).subrange(
                1,
                ps@.subrange(i as int, ps@.len() as int).len() as int,
            ) =~= ps@.subrange(i as int + 1, ps@.len() as int));
            assert(pt.subrange(1, pt.len() as int) =~= dpairs_of(
                ps@.subrange(i as int + 1, ps@.len() as int),
            ));
            assert(ft.subrange(1, ft.len() as int) =~= fs@.subrange(i as int + 1, fs@.len() as int));
        }
        if !(ps[i].0 == fs[i].name) {
            Err(EncodeError::SchemaMismatch)
        } else if fs[i].optional && matches!(&ps[i].1, Domain::Absent) {
            encode_fields(conv, ps, fs, i + 1)
        } else {
            match encode(&ps[i].1, &fs[i].schema) {
                Err(e) => Err(e),
                Ok(v0) => match encode_fields(conv, ps, fs, i + 1) {
                    Err(e) => Err(e),
                    Ok(mut rest) => {
                        let w = wire_name(conv, &fs[i]);
                        let ghost prev = rest@;
                        rest.insert(0, (w, v0));
                        proof {
                            assert(rest@[0].0@ == field_wire(conv, fs@[i as int]));
                            assert(rest@[0].1 == v0);
                            assert(rest@.subrange(1, rest@.len() as int) =~= prev);
                        }
                        Ok(rest)
                    },
                },
            }
        }
    }
}

/// Decode a wire value under a schema: the structural mapper, delegating to
/// custom codecs where the schema names one. Yields the domain value, or the
/// first error met, exactly as the decode model states.
pub fn decode(v: &IrValue, s: &Schema) -> (r: Result<Domain, DecodeError>)
    ensures
        match r {
            Ok(d) => dec_val(val_of(*v), *s) == Result::<Dom, DErr>::Ok(dom_of(d)),
            Err(e) => dec_val(val_of(*v), *s) == Result::<Dom, DErr>::Err(derr_of(e)),
        },
    decreases *v, 0int,
{
    match s {
        Schema::Bool => match v {
            IrValue::Bool(b) => Ok(Domain::Bool(*b)),
            _ => Err(DecodeError::UnexpectedShape {
                expected: ValueKind::Bool,
                found: v.kind(),
            }),
        },
        Schema::Int => match v {
            IrValue::Int(i) => Ok(Domain::Int(*i)),
            _ => Err(DecodeError::UnexpectedShape {
                expected: ValueKind::Int,
                found: v.kind(),
            }),
        },
        Schema::Text => match v {
            IrValue::Text(t) => Ok(Domain::Text(t.clone())),
            _ => Err(DecodeError::UnexpectedShape {
                expected: ValueKind::Text,
                found: v.kind(),
            }),
        },
        Schema::Custom(c) => decode_custom(*c, v),
        Schema::List(inner) => match v {
            IrValue::Sequence(es) => {
                proof {
                    assert(es@.subrange(0, es@.len() as int) =~= es@);
                }
                match decode_list(es, inner, 0) {
                    Ok(ds) => Ok(Domain::List(ds)),
                    Err(e) => Err(e),
                }
            },
            _ => Err(DecodeError::UnexpectedShape {
                expected: ValueKind::Sequence,
                found: v.kind(),
            }),
        },
        Schema::Record(conv, fs) => match v {
            IrValue::Mapping(m) => {
                proof {
                    assert(fs@.subrange(0, fs@.len() as int) =~= fs@);
                }
                match decode_fields(*conv, m, fs, 0) {
                    Ok(ps) => Ok(Domain::Record(ps)),
                    Err(e) => Err(e),
                }
            },
            _ => Err(DecodeError::UnexpectedShape {
                expected: ValueKind::Mapping,
                found: v.kind(),
            }),
        },
        Schema::Union(k, vs) => match v {
            IrValue::Variant(tag, m) => match find_variant_at(vs, tag) {
                Option::Some(ix) => {
                    proof {
                        assert(vs[ix as int].fields@.subrange(
                            0,
                            vs[ix as int].fields@.len() as int,
                        ) =~= vs[ix as int].fields@);
                    }
                    match decode_fields(vs[ix].conv, m, &vs[ix].fields, 0) {
                        Ok(ps) => Ok(Domain::Union(tag.clone(), ps)),
                        Err(e) => Err(e),
                    }
                },
                Option::None => Err(DecodeError::UnknownVariant(tag.clone())),
            },
            IrValue::Mapping(m) => match lookup_entry(m, k) {
                Option::None => Err(DecodeError::MissingField(k.clone())),
                Option::Some(j) => {
                    proof {
                        lemma_pairs_of(m@);
                    }
                    match &m[j].1 {
                        IrValue::Text(tag) => match find_variant_at(vs, tag) {
                            Option::Some(ix) => {
                                proof {
                                    assert(vs[ix as int].fields@.subrange(
                                        0,
                                        vs[ix as int].fields@.len() as int,
                                    ) =~= vs[ix as int].fields@);
                                }
                                match decode_fields(vs[ix].conv, m, &vs[ix].fields, 0) {
                                    Ok(ps) => Ok(Domain::Union(tag.clone(), ps)),
                                    Err(e) => Err(e),
                                }
                            },
                            Option::None => Err(DecodeError::UnknownVariant(tag.clone())),
                        },
                        other => Err(DecodeError::UnexpectedShape {
                            expected: ValueKind::Text,
                            found: other.kind(),
                        }),
                    }
                },
            },
            _ => Err(DecodeError::UnexpectedShape {
                expected: ValueKind::Variant,
                found: v.kind(),
            }),
        },
        Schema::StrMap(inner) => match v {
            IrValue::Mapping(m) => {
                proof {
                    assert(m@.subrange(0, m@.len() as int) =~= m@);
                }
                match decode_map(m, inner, 0) {
                    Ok(ps) => Ok(Domain::StrMap(ps)),
                    Err(e) => Err(e),
                }
            },
            _ => Err(DecodeError::UnexpectedShape {
                expected: ValueKind::Mapping,
                found: v.kind(),
            }),
        },
    }
}

fn decode_list(es: &Vec<IrValue>, s: &Schema, i: usize) -> (r: Result<Vec<Domain>, DecodeError>)
    requires
        i <= es.len(),
    ensures
        match dec_list(vals_of(es@.subrange(i as int, es@.len() as int)), *s) {
            Result::Ok(ds) => r matches Ok(out) && doms_of(out@) == ds,
            Result::Err(e) => r matches Err(x) && derr_of(x) == e,
        },
    decreases es@, es@.len() - i,
{
    let ghost tail = es@.subrange(i as int, es@.len() as int);
    if i == es.len() {
        let out: Vec<Domain> = Vec::new();
        proof {
            assert(tail =~= Seq::<IrValue>::empty());
            assert(vals_of(tail) =~= Seq::<Val>::empty());
            assert(doms_of(out@) =~= Seq::<Dom>::empty());
        }
        Ok(out)
    } else {
        let ghost next = es@.subrange(i as int + 1, es@.len() as int);
        proof {
            assert(tail[0] == es@[i as int]);
            assert(tail.subrange(1, tail.len() as int) =~= next);
            assert(vals_of(tail).subrange(1, vals_of(tail).len() as int) =~= vals_of(next));
            assert(vals_of(tail)[0] == val_of(es@[i as int]));
        }
        match decode(&es[i], s) {
            Err(e) => Err(e),
            Ok(d0) => match decode_list(es, s, i + 1) {
                Err(e) => Err(e),
                Ok(mut rest) => {
                    let ghost prev = rest@;
                    rest.insert(0, d0);
                    proof {
                        assert(rest@[0] == d0);
                        assert(rest@.subrange(1, rest@.len() as int) =~= prev);
                    }
                    Ok(rest)
                },
            },
        }
    }
}

fn decode_map(
    m: &Vec<(String, IrValue)>,
    s: &Schema,
    i: usize,
) -> (r: Result<Vec<(String, Domain)>, DecodeError>)
    requires
        i <= m.len(),
    ensures
        match dec_map(pairs_of(m@.subrange(i as int, m@.len() as int)), *s) {
            Result::Ok(ps) => r matches Ok(out) && dpairs_of(out@) == ps,
            Result::Err(e) => r matches Err(x) && derr_of(x) == e,
        },
    decreases m@, m@.len() - i,
{
    let ghost tail = pairs_of(m@.subrange(i as int, m@.len() as int));
    proof {
        lemma_pairs_of(m@.subrange(i as int, m@.len() as int));
    }
    if i == m.len() {
        let out: Vec<(String, Domain)> = Vec::new();
        proof {
            assert(m@.subrange(i as int, m@.len() as int) =~= Seq::<(String, IrValue)>::empty());
            assert(tail =~= Seq::<(Seq<char>, Val)>::empty());
            assert(dpairs_of(out@) =~= Seq::<(Seq<char>, Dom)>::empty());
        }
        Ok(out)
    } else {
        proof {
            assert(m@.subrange(i as int, m@.len() as int)[0] == m@[i as int]);
            assert(m@.subrange(i as int, m@.len() as int).subrange(
                1,
                m@.subrange(i as int, m@.len() as int).len() as int,
            ) =~= m@.subrange(i as int + 1, m@.len() as int));
            assert(tail[0] == (m@[i as int].0@, val_of(m@[i as int].1)));
            assert(tail.subrange(1, tail.len() as int) =~= pairs_of(
                m@.subrange(i as int + 1, m@.len() as int),
            ));
        }
        match decode(&m[i].1, s) {
            Err(e) => Err(e),
            Ok(d0) => match decode_map(m, s, i + 1) {
                Err(e) => Err(e),
                Ok(mut rest) => {
                    let key = m[i].0.clone();
                    let ghost prev = rest@;
                    rest.insert(0, (key, d0));
                    proof {
                        assert(rest@[0].0@ == m@[i as int].0@);
                        assert(rest@[0].1 == d0);
                        assert(rest@.subrange(1, rest@.len() as int) =~= prev);
                    }
                    Ok(rest)
                },
            },
        }
    }
}

fn decode_fields(
    conv: Convention,
    m: &Vec<(String, IrValue)>,
    fs: &Vec<FieldSchema>,
    i: usize,
) -> (r: Result<Vec<(String, Domain)>, DecodeError>)
    requires
        i <= fs.len(),
    ensures
        match dec_fields(conv, pairs_of(m@), fs@.subrange(i as int, fs@.len() as int)) {
            Result::Ok(ps) => r matches Ok(out) && dpairs_of(out@) == ps,
            Result::Err(e) => r matches Err(x) && derr_of(x) == e,
        },
    decreases m@, fs@.len() - i,
{
    let ghost ft = fs@.subrange(i as int, fs@.len() as int);
    if i == fs.len() {
        let out: Vec<(String, Domain)> = Vec::new();
        proof {
            assert(ft.len() == 0);
            assert(dpairs_of(out@) =~= Seq::<(Seq<char>, Dom)>::empty());
        }
        Ok(out)
    } else {
        proof {
            assert(ft[0] == fs@[i as int]);
            assert(ft.subrange(1, ft.len() as int) =~= fs@.subrange(i as int + 1, fs@.len() as int));
            lemma_pairs_of(m@);
        }
        let w = wire_name(conv, &fs[i]);
        match lookup_entry(m, &w) {
            Option::None => {
                if fs[i].optional {
                    match decode_fields(conv, m, fs, i + 1) {
                        Err(e) => Err(e),
                        Ok(mut rest) => {
                            let name = fs[i].name.clone();
                            let ghost prev = rest@;
                            rest.insert(0, (name, Domain::Absent));
                            proof {
                                assert(rest@[0].0@ == fs@[i as int].name@);
                                assert(rest@[0].1 == Domain::Absent);
                                assert(rest@.subrange(1, rest@.len() as int) =~= prev);
                                lemma_dpairs_of(rest@);
                                lemma_dpairs_of(prev);
                                assert(dpairs_of(rest@) =~= seq![
                                    (fs@[i as int].name@, Dom::Absent),
                                ] + dpairs_of(prev));
                            }
                            Ok(rest)
                        },
                    }
                } else {
                    Err(DecodeError::MissingField(w))
                }
            },
            Option::Some(j) => match decode(&m[j].1, &fs[i].schema) {
                Err(e) => Err(e),
                Ok(d0) => match decode_fields(conv, m, fs, i + 1) {
                    Err(e) => Err(e),
                    Ok(mut rest) => {
                        let name = fs[i].name.clone();
                        let ghost prev = rest@;
                        rest.insert(0, (name, d0));
                        proof {
                            assert(rest@[0].0@ == fs@[i as int].name@);
                            assert(rest@[0].1 == d0);
                            assert(rest@.subrange(1, rest@.len() as int) =~= prev);
                            lemma_dpairs_of(rest@);
                            lemma_dpairs_of(prev);
                            assert(dpairs_of(rest@) =~= seq![(fs@[i as int].name@, dom_of(d0))]
                                + dpairs_of(prev));
                        }
                        Ok(rest)
                    },
                },
            },
        }
    }
}

/// Shape/semantic error separation for the full-name codec: a value of the
/// wrong shape is an `UnexpectedShape` error, while a well-shaped text that
/// does not hold exactly two space-separated tokens is a `SemanticValidation`
/// error.
pub proof fn lemma_shape_vs_semantic(v: Val)
    ensures
        !(v is Text) ==> codec_dec(Codec::FullName, v) == Result::<Dom, DErr>::Err(
            DErr::UnexpectedShape { expected: ValueKind::Text, found: kind_of(v) },
        ),
        v matches Val::Text(s) && name_tokens(s) is None ==> codec_dec(Codec::FullName, v)
            == Result::<Dom, DErr>::Err(
            DErr::SemanticValidation("expected exactly two space-separated tokens"@),
        ),
{
}

proof fn lemma_unique_cons(e: (Seq<char>, Val), m: Seq<(Seq<char>, Val)>)
    requires
        crate::value::unique_keys(m),
        forall|t: int| 0 <= t < m.len() ==> (#[trigger] m[t]).0 != e.0,
    ensures
        crate::value::unique_keys(seq![e] + m),
{
    let w = seq![e] + m;
    assert forall|i: int, j: int| 0 <= i < j < w.len() implies w[i].0 != w[j].0 by {
        if i == 0 {
            assert(w[j] == m[j - 1]);
        } else {
            assert(w[i] == m[i - 1]);
            assert(w[j] == m[j - 1]);
        }
    }
}

/// Encoding a conforming field list yields a mapping that meets the value
/// model's invariant: unique keys, well-formed entries.
proof fn lemma_enc_wf_fields(conv: Convention, ps: Seq<(Seq<char>, Dom)>, fs: Seq<FieldSchema>)
    requires
        fields_wires_distinct(conv, fs),
        wf_fields(fs),
        fields_conform(ps, fs),
    ensures
        match enc_fields(conv, ps, fs) {
            Option::Some(m) => crate::value::unique_keys(m) && crate::value::wf_val_pairs(m),
            Option::None => true,
        },
    decreases ps, fs.len(),
{
    if fs.len() > 0 && ps.len() > 0 && enc_fields(conv, ps, fs) is Some {
        let rps = ps.subrange(1, ps.len() as int);
        let rfs = fs.subrange(1, fs.len() as int);
        assert(forall|j: int| 0 <= j < rfs.len() ==> rfs[j] == fs[j + 1]);
        assert(fields_wires_distinct(conv, rfs));
        lemma_enc_wf_fields(conv, rps, rfs);
        let mr = enc_fields(conv, rps, rfs)->Some_0;
        lemma_enc_fields_keys(conv, rps, rfs, mr);
        let w0 = field_wire(conv, fs[0]);
        assert forall|t: int| 0 <= t < mr.len() implies (#[trigger] mr[t]).0 != w0 by {
            assert(key_of_present_field(conv, rps, rfs, mr[t].0));
            let j0 = choose|j: int|
                0 <= j < rfs.len() && mr[t].0 == field_wire(conv, #[trigger] rfs[j]) && !(
                rfs[j].optional && rps[j].1 is Absent);
            assert(field_wire(conv, fs[j0 + 1]) != field_wire(conv, fs[0]));
        }
        if !(fs[0].optional && ps[0].1 is Absent) {
            lemma_enc_wf(ps[0].1, fs[0].schema);
            let v0 = enc_dom(ps[0].1, fs[0].schema)->Some_0;
            lemma_unique_cons((w0, v0), mr);
            let m = seq![(w0, v0)] + mr;
            assert(m[0].1 == v0);
            assert(m.subrange(1, m.len() as int) =~= mr);
        }
    }
}

proof fn lemma_enc_wf_list(ds: Seq<Dom>, s: Schema)
    requires
        wf_schema(s),
        list_conforms(ds, s),
    ensures
        match enc_list(ds, s) {
            Option::Some(vs) => crate::value::wf_val_list(vs),
            Option::None => true,
        },
    decreases ds, 1int,
{
    if ds.len() > 0 && enc_list(ds, s) is Some {
        let rds = ds.subrange(1, ds.len() as int);
        lemma_enc_wf(ds[0], s);
        lemma_enc_wf_list(rds, s);
        let v0 = enc_dom(ds[0], s)->Some_0;
        let vrest = enc_list(rds, s)->Some_0;
        let vs = seq![v0] + vrest;
        assert(vs[0] == v0);
        assert(vs.subrange(1, vs.len() as int) =~= vrest);
    }
}

proof fn lemma_enc_wf_map(ps: Seq<(Seq<char>, Dom)>, s: Schema)
    requires
        wf_schema(s),
        map_conforms(ps, s),
        unique_dom_keys(ps),
    ensures
        match enc_map(ps, s) {
            Option::Some(m) => crate::value::unique_keys(m) && crate::value::wf_val_pairs(m),
            Option::None => true,
        },
    decreases ps, 1int,
{
    if ps.len() > 0 && enc_map(ps, s) is Some {
        let rps = ps.subrange(1, ps.len() as int);
        assert(forall|j: int| 0 <= j < rps.len() ==> rps[j] == ps[j + 1]);
        lemma_enc_wf(ps[0].1, s);
        lemma_enc_wf_map(rps, s);
        let v0 = enc_dom(ps[0].1, s)->Some_0;
        let mr = enc_map(rps, s)->Some_0;
        lemma_enc_map_keys(rps, s, mr);
        assert forall|t: int| 0 <= t < mr.len() implies (#[trigger] mr[t]).0 != ps[0].0 by {
            assert(mr[t].0 == rps[t].0);
        }
        lemma_unique_cons((ps[0].0, v0), mr);
        let m = seq![(ps[0].0, v0)] + mr;
        assert(m[0].1 == v0);
        assert(m.subrange(1, m.len() as int) =~= mr);
    }
}

/// An encoded map carries its domain keys through, in order.
proof fn lemma_enc_map_keys(ps: Seq<(Seq<char>, Dom)>, s: Schema, m: Seq<(Seq<char>, Val)>)
    requires
        enc_map(ps, s) == Option::Some(m),
    ensures
        m.len() == ps.len(),
        forall|t: int| 0 <= t < m.len() ==> (#[trigger] m[t]).0 == ps[t].0,
    decreases ps.len(),
{
    if ps.len() > 0 {
        let rps = ps.subrange(1, ps.len() as int);
        let mr = enc_map(rps, s)->Some_0;
        lemma_enc_map_keys(rps, s, mr);
        assert(m == seq![(ps[0].0, enc_dom(ps[0].1, s)->Some_0)] + mr);
        assert forall|t: int| 0 <= t < m.len() implies (#[trigger] m[t]).0 == ps[t].0 by {
            if t > 0 {
                assert(m[t] == mr[t - 1]);
                assert(rps[t - 1] == ps[t]);
            }
        }
    }
}

/// The value model's invariant holds of every encoded value: encoding a
/// conforming domain value under a well-formed schema yields a value whose
/// mappings and variant payloads all carry unique keys.
pub proof fn lemma_enc_wf(d: Dom, s: Schema)
    requires
        wf_schema(s),
        conforms(d, s),
    ensures
        match enc_dom(d, s) {
            Option::Some(v) => crate::value::wf_val(v),
            Option::None => true,
        },
    decreases d, 0int,
{
    match s {
        Schema::Bool => {},
        Schema::Int => {},
        Schema::Text => {},
        Schema::Custom(_) => {},
        Schema::List(inner) => {
            match d {
                Dom::List(ds) => {
                    lemma_enc_wf_list(ds, *inner);
                },
                _ => {},
            }
        },
        Schema::Record(conv, fs) => {
            match d {
                Dom::Record(ps) => {
                    lemma_wf_fields(fs@);
                    lemma_enc_wf_fields(conv, ps, fs@);
                },
                _ => {},
            }
        },
        Schema::Union(_, vs) => {
            match d {
                Dom::Union(tag, ps) => {
                    lemma_find_variant(vs@, tag);
                    let i = find_variant(vs@, tag);
                    if i >= 0 {
                        lemma_wf_variants(vs@);
                        lemma_enc_wf_fields(vs@[i].conv, ps, vs@[i].fields@);
                    }
                },
                _ => {},
            }
        },
        Schema::StrMap(inner) => {
            match d {
                Dom::StrMap(ps) => {
                    lemma_enc_wf_map(ps, *inner);
                },
                _ => {},
            }
        },
    }
}

} // verus!
