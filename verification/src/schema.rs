//! Schemas: explicit, queryable type descriptions that drive the structural
//! mapper. A field descriptor carries the declared name, an optional wire
//! name override, whether the field is optional, and the field's own schema;
//! a record schema adds the naming convention its fields go through.

use vstd::prelude::*;

use crate::codec::Codec;
use crate::convention::{apply_convention, is_name, lemma_wire_of_injective, wire_of, Convention};

verus! {

/// Description of one declared record field.
#[derive(Debug)]
pub struct FieldSchema {
    /// The declared (in-memory) field name.
    pub name: String,
    /// A wire-name override; when absent the record's convention applies.
    pub rename: Option<String>,
    /// An optional field is omitted from the wire mapping when absent.
    pub optional: bool,
    /// The schema of the field's value.
    pub schema: Schema,
}

/// Description of one variant of a tagged union.
#[derive(Debug)]
pub struct VariantSchema {
    /// The tag naming this variant on the wire.
    pub tag: String,
    /// The convention the variant's field names go through.
    pub conv: Convention,
    /// The variant's own field list.
    pub fields: Vec<FieldSchema>,
}

/// Description of a domain type: what shape its values take on the wire.
#[derive(Debug)]
pub enum Schema {
    Bool,
    Int,
    Text,
    /// A type converted by a custom codec instead of the structural mapper.
    Custom(Codec),
    List(Box<Schema>),
    /// A record: its naming convention and its field descriptors, in order.
    Record(Convention, Vec<FieldSchema>),
    /// A tagged union: the wire key naming the tag in lowered mappings, and
    /// the declared variants.
    Union(String, Vec<VariantSchema>),
    /// A string-keyed map whose values share one schema.
    StrMap(Box<Schema>),
}

/// The wire name of a field: its override if declared, else the convention
/// applied to its declared name.
pub open spec fn field_wire(conv: Convention, f: FieldSchema) -> Seq<char> {
    match f.rename {
        Option::Some(w) => w@,
        Option::None => wire_of(conv, f.name@),
    }
}

/// Compute the wire name of a field.
pub fn wire_name(conv: Convention, f: &FieldSchema) -> (r: String)
    ensures
        r@ == field_wire(conv, *f),
{
    match &f.rename {
        Option::Some(w) => w.clone(),
        Option::None => apply_convention(conv, &f.name),
    }
}

/// No two fields of one record share a wire name.
pub open spec fn fields_wires_distinct(conv: Convention, fs: Seq<FieldSchema>) -> bool {
    forall|i: int, j: int|
        0 <= i < j < fs.len() ==> field_wire(conv, fs[i]) != field_wire(conv, fs[j])
}

/// No two variants of one union share a tag.
pub open spec fn tags_distinct(vs: Seq<VariantSchema>) -> bool {
    forall|i: int, j: int| 0 <= i < j < vs.len() ==> vs[i].tag@ != vs[j].tag@
}

/// A well-formed schema: within every record and every union variant the
/// wire names are pairwise distinct, and union tags are pairwise distinct.
pub open spec fn wf_schema(s: Schema) -> bool
    decreases s, 0int,
{
    match s {
        Schema::Bool => true,
        Schema::Int => true,
        Schema::Text => true,
        Schema::Custom(_) => true,
        Schema::List(inner) => wf_schema(*inner),
        Schema::Record(conv, fs) => fields_wires_distinct(conv, fs@) && wf_fields(fs@),
        Schema::Union(_, vs) => tags_distinct(vs@) && wf_variants(vs@),
        Schema::StrMap(inner) => wf_schema(*inner),
    }
}

pub open spec fn wf_fields(fs: Seq<FieldSchema>) -> bool
    decreases fs, 1int,
{
    if fs.len() == 0 {
        true
    } else {
        wf_schema(fs[0].schema) && wf_fields(fs.subrange(1, fs.len() as int))
    }
}

pub open spec fn wf_variants(vs: Seq<VariantSchema>) -> bool
    decreases vs, 1int,
{
    if vs.len() == 0 {
        true
    } else {
        fields_wires_distinct(vs[0].conv, vs[0].fields@) && wf_fields(vs[0].fields@)
            && wf_variants(vs.subrange(1, vs.len() as int))
    }
}

/// Every field schema of a well-formed field list is well-formed.
pub proof fn lemma_wf_fields(fs: Seq<FieldSchema>)
    requires
        wf_fields(fs),
    ensures
        forall|i: int| 0 <= i < fs.len() ==> wf_schema(#[trigger] fs[i].schema),
    decreases fs.len(),
{
    if fs.len() > 0 {
        lemma_wf_fields(fs.subrange(1, fs.len() as int));
        assert forall|i: int| 0 <= i < fs.len() implies wf_schema(#[trigger] fs[i].schema) by {
            if i > 0 {
                assert(fs[i] == fs.subrange(1, fs.len() as int)[i - 1]);
            }
        }
    }
}

/// Naming-convention bijection: when a record declares valid, pairwise
/// distinct field names and overrides none of them, the convention's
/// wire-name transform produces no collisions.
pub proof fn lemma_no_wire_collisions(conv: Convention, fs: Seq<FieldSchema>)
    requires
        forall|i: int| 0 <= i < fs.len() ==> (#[trigger] fs[i].rename) is None,
        forall|i: int| 0 <= i < fs.len() ==> is_name(#[trigger] fs[i].name@),
        forall|i: int, j: int| 0 <= i < j < fs.len() ==> fs[i].name@ != fs[j].name@,
    ensures
        fields_wires_distinct(conv, fs),
{
    assert forall|i: int, j: int|
        0 <= i < j < fs.len() implies field_wire(conv, fs[i]) != field_wire(conv, fs[j]) by {
        if field_wire(conv, fs[i]) == field_wire(conv, fs[j]) {
            assert(wire_of(conv, fs[i].name@) == wire_of(conv, fs[j].name@));
            lemma_wire_of_injective(conv, fs[i].name@, fs[j].name@);
        }
    }
}

} // verus!
