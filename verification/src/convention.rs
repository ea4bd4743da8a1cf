//! Naming conventions: pure transforms from a declared field name to its wire
//! name, applied identically on encode and decode. On the names a type may
//! declare (lower-case identifiers) the transform is injective, so no two
//! declared fields can collide on the wire.

use vstd::prelude::*;

verus! {

/// The wire-name transform a record schema applies to its field names.
#[derive(Clone, Copy, PartialEq, Eq, Structural, Debug)]
pub enum Convention {
    /// Field names pass through unchanged.
    Identity,
    /// Field names become SCREAMING_SNAKE_CASE: each ASCII lower-case letter
    /// is upper-cased, every other character stays.
    ScreamingSnake,
}

/// ASCII upper-casing of one character.
pub open spec fn upper_char(c: char) -> char {
    if 'a' <= c && c <= 'z' {
        ((c as u8) - 0x20) as char
    } else {
        c
    }
}

/// The SCREAMING_SNAKE_CASE transform of a name.
pub open spec fn screaming_of(s: Seq<char>) -> Seq<char> {
    s.map_values(|c: char| upper_char(c))
}

/// The wire name a convention gives to a declared field name.
pub open spec fn wire_of(conv: Convention, name: Seq<char>) -> Seq<char> {
    match conv {
        Convention::Identity => name,
        Convention::ScreamingSnake => screaming_of(name),
    }
}

/// A character that may appear in a declared field name.
pub open spec fn is_name_char(c: char) -> bool {
    ('a' <= c && c <= 'z') || ('0' <= c && c <= '9') || c == '_'
}

/// A declared field name: a lower-case identifier.
pub open spec fn is_name(s: Seq<char>) -> bool {
    forall|i: int| 0 <= i < s.len() ==> is_name_char(#[trigger] s[i])
}

/// Relies on `str::to_ascii_uppercase`: it maps each ASCII lower-case letter
/// of the string to its upper-case equivalent and keeps every other character.
#[verifier::external_body]
fn ascii_upper(s: &str) -> (r: String)
    ensures
        r@ == screaming_of(s@),
{
    s.to_ascii_uppercase()
}

/// Apply a convention to a declared field name.
pub fn apply_convention(conv: Convention, name: &String) -> (r: String)
    ensures
        r@ == wire_of(conv, name@),
{
    match conv {
        Convention::Identity => name.clone(),
        Convention::ScreamingSnake => ascii_upper(name.as_str()),
    }
}

/// Upper-casing is injective on name characters.
proof fn lemma_upper_char_injective(a: char, b: char)
    requires
        is_name_char(a),
        is_name_char(b),
        upper_char(a) == upper_char(b),
    ensures
        a == b,
{
}

/// Naming-convention bijection: on declared field names the wire-name
/// transform of any convention is injective, so distinct declared names
/// never collide after the transform.
pub proof fn lemma_wire_of_injective(conv: Convention, a: Seq<char>, b: Seq<char>)
    requires
        is_name(a),
        is_name(b),
        wire_of(conv, a) == wire_of(conv, b),
    ensures
        a == b,
{
    match conv {
        Convention::Identity => {},
        Convention::ScreamingSnake => {
            assert(screaming_of(a).len() == a.len());
            assert(screaming_of(b).len() == b.len());
            assert forall|i: int| 0 <= i < a.len() implies a[i] == b[i] by {
                assert(screaming_of(a)[i] == upper_char(a[i]));
                assert(screaming_of(b)[i] == upper_char(b[i]));
                lemma_upper_char_injective(a[i], b[i]);
            }
            assert(a =~= b);
        },
    }
}

} // verus!
