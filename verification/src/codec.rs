//! Custom codecs: conversion logic a domain type supplies in place of the
//! structural mapper. Two codecs are built in: a timestamp is carried on the
//! wire as whole milliseconds since the Unix epoch, and a full name as one
//! string holding the first and last name separated by a single space.

use vstd::prelude::*;
use vstd::string::StringExecFns;

use crate::error::{DErr, DecodeError, ValueKind};
use crate::value::{kind_of, val_of, Val, IrValue};

verus! {

/// Earliest wire timestamp: 0001-01-01T00:00:00 UTC, in milliseconds.
pub const TS_MIN_MILLIS: i64 = -62_135_596_800_000;

/// Latest wire timestamp: 9999-12-31T23:59:59.999 UTC, in milliseconds.
pub const TS_MAX_MILLIS: i64 = 253_402_300_799_999;

/// Milliseconds the timestamp codec can represent.
pub open spec fn ts_in_range(ms: int) -> bool {
    TS_MIN_MILLIS <= ms <= TS_MAX_MILLIS
}

/// A point in time: whole milliseconds since the Unix epoch.
#[derive(Clone, Copy, PartialEq, Eq, Structural, Debug)]
pub struct Timestamp {
    pub millis: i64,
}

impl Timestamp {
    /// A timestamp the codec can put on the wire.
    pub open spec fn wf(self) -> bool {
        ts_in_range(self.millis as int)
    }
}

/// A person's name, split into first and last. The codec can only carry it
/// on the wire when neither part contains a space.
#[derive(Clone, PartialEq, Eq, Debug)]
pub struct FullName {
    pub first: String,
    pub last: String,
}

impl FullName {
    /// A name the codec can put on the wire and get back unchanged.
    pub open spec fn wf(self) -> bool {
        !self.first@.contains(' ') && !self.last@.contains(' ')
    }
}

/// A custom codec: the tagged dispatch a registered type converts through.
#[derive(Clone, Copy, PartialEq, Eq, Structural, Debug)]
pub enum Codec {
    /// `Timestamp` as `IrValue::Int` milliseconds.
    TimestampMillis,
    /// `FullName` as one space-separated `IrValue::Text`.
    FullName,
}

/// Encode a timestamp as whole milliseconds on the wire.
pub fn serialize(t: &Timestamp) -> (v: IrValue)
    ensures
        val_of(v) == Val::Int(t.millis as int),
{
    IrValue::Int(t.millis)
}

/// Decode a timestamp from its wire form. A non-integer value is a shape
/// error; an integer outside the representable window is `OutOfRange`.
pub fn deserialize(v: &IrValue) -> (r: Result<Timestamp, DecodeError>)
    ensures
        match val_of(*v) {
            Val::Int(m) => if ts_in_range(m) {
                r == Ok::<Timestamp, DecodeError>(Timestamp { millis: m as i64 })
            } else {
                r == Err::<Timestamp, DecodeError>(DecodeError::OutOfRange)
            },
            _ => r == Err::<Timestamp, DecodeError>(
                DecodeError::UnexpectedShape {
                    expected: ValueKind::Int,
                    found: kind_of(val_of(*v)),
                },
            ),
        },
{
    match v {
        IrValue::Int(i) => {
            if TS_MIN_MILLIS <= *i && *i <= TS_MAX_MILLIS {
                Ok(Timestamp { millis: *i })
            } else {
                Err(DecodeError::OutOfRange)
            }
        },
        _ => Err(DecodeError::UnexpectedShape {
            expected: ValueKind::Int,
            found: v.kind(),
        }),
    }
}

/// Index of the first space in `s`, or `-1` when there is none.
pub open spec fn first_space(s: Seq<char>) -> int
    decreases s.len(),
{
    if s.len() == 0 {
        -1
    } else if s[0] == ' ' {
        0
    } else {
        let r = first_space(s.subrange(1, s.len() as int));
        if r < 0 {
            -1
        } else {
            r + 1
        }
    }
}

/// What decoding a full name from a text `s` yields: the two space-separated
/// tokens, or nothing when `s` does not hold exactly two.
pub open spec fn name_tokens(s: Seq<char>) -> Option<(Seq<char>, Seq<char>)> {
    let i = first_space(s);
    if i < 0 {
        Option::None
    } else {
        let a = s.subrange(0, i);
        let b = s.subrange(i + 1, s.len() as int);
        if b.contains(' ') {
            Option::None
        } else {
            Option::Some((a, b))
        }
    }
}

proof fn lemma_first_space_bounds(s: Seq<char>)
    ensures
        first_space(s) < s.len(),
        first_space(s) >= 0 ==> s[first_space(s)] == ' ',
        first_space(s) < 0 <==> !s.contains(' '),
        forall|j: int| 0 <= j < first_space(s) ==> s[j] != ' ',
        first_space(s) < 0 ==> first_space(s) == -1,
    decreases s.len(),
{
    if s.len() > 0 && s[0] != ' ' {
        let t = s.subrange(1, s.len() as int);
        lemma_first_space_bounds(t);
        if first_space(t) < 0 {
            assert forall|j: int| 0 <= j < s.len() implies s[j] != ' ' by {
                if j > 0 {
                    assert(s[j] == t[j - 1]);
                }
            }
            assert(!s.contains(' '));
        } else {
            assert(s.contains(' ')) by {
                assert(s[first_space(t) + 1] == t[first_space(t)]);
            }
            assert forall|j: int| 0 <= j < first_space(s) implies s[j] != ' ' by {
                if j > 0 {
                    assert(s[j] == t[j - 1]);
                }
            }
        }
    }
}

/// The first space of `a + " " + b` stands right after `a` when `a` itself
/// has no space.
proof fn lemma_first_space_concat(a: Seq<char>, b: Seq<char>)
    requires
        !a.contains(' '),
    ensures
        first_space(a + seq![' '] + b) == a.len(),
        (a + seq![' '] + b).subrange(0, a.len() as int) == a,
        (a + seq![' '] + b).subrange(a.len() as int + 1, (a + seq![' '] + b).len() as int) == b,
    decreases a.len(),
{
    let s = a + seq![' '] + b;
    if a.len() == 0 {
        assert(s[0] == ' ');
    } else {
        assert(s[0] == a[0]);
        assert(a[0] != ' ');
        let t = s.subrange(1, s.len() as int);
        let a1 = a.subrange(1, a.len() as int);
        assert(!a1.contains(' ')) by {
            if a1.contains(' ') {
                let k = choose|k: int| 0 <= k < a1.len() && a1[k] == ' ';
                assert(a[k + 1] == ' ');
            }
        }
        lemma_first_space_concat(a1, b);
        assert(t =~= a1 + seq![' '] + b);
        assert(first_space(s) == a.len());
    }
    assert(s.subrange(0, a.len() as int) =~= a);
    assert(s.subrange(a.len() as int + 1, s.len() as int) =~= b);
}

/// Relies on `str::split_once` with a space pattern: it splits at the first
/// space, the part before it holding none, and returns nothing when the
/// string has no space at all.
#[verifier::external_body]
fn split_first_space(s: &str) -> (r: Option<(String, String)>)
    ensures
        match r {
            Option::Some(p) => s@ == p.0@ + seq![' '] + p.1@ && !p.0@.contains(' '),
            Option::None => !s@.contains(' '),
        },
{
    s.split_once(' ').map(|(a, b)| (a.to_owned(), b.to_owned()))
}

/// Relies on `str::contains` with a char pattern: whether any character of
/// the string is that char.
#[verifier::external_body]
fn has_space(s: &str) -> (r: bool)
    ensures
        r == s@.contains(' '),
{
    s.contains(' ')
}

/// Encode a full name as one text value: first name, one space, last name.
pub fn encode_full_name(n: &FullName) -> (v: IrValue)
    ensures
        val_of(v) == Val::Text(n.first@ + seq![' '] + n.last@),
{
    proof {
        reveal_strlit(" ");
    }
    let mut s = n.first.clone();
    s.append(" ");
    s.append(n.last.as_str());
    proof {
        assert(s@ =~= n.first@ + seq![' '] + n.last@);
    }
    IrValue::Text(s)
}

/// Decode a full name from its wire form. A non-text value is a shape error;
/// a text without exactly two space-separated tokens breaks the codec's own
/// rule and is a semantic validation error.
pub fn decode_full_name(v: &IrValue) -> (r: Result<FullName, DecodeError>)
    ensures
        match val_of(*v) {
            Val::Text(s) => match name_tokens(s) {
                Option::Some(p) => r matches Ok(n) && n.first@ == p.0 && n.last@ == p.1,
                Option::None => r matches Err(e) && crate::error::derr_of(e)
                    == DErr::SemanticValidation("expected exactly two space-separated tokens"@),
            },
            _ => r == Err::<FullName, DecodeError>(
                DecodeError::UnexpectedShape {
                    expected: ValueKind::Text,
                    found: kind_of(val_of(*v)),
                },
            ),
        },
{
    match v {
        IrValue::Text(s) => {
            proof {
                lemma_first_space_bounds(s@);
            }
            match split_first_space(s.as_str()) {
                Option::Some((a, b)) => {
                    if has_space(b.as_str()) {
                        proof {
                            lemma_first_space_concat(a@, b@);
                        }
                        Err(DecodeError::SemanticValidation(
                            "expected exactly two space-separated tokens".to_owned(),
                        ))
                    } else {
                        proof {
                            lemma_first_space_concat(a@, b@);
                        }
                        Ok(FullName { first: a, last: b })
                    }
                },
                Option::None => Err(DecodeError::SemanticValidation(
                    "expected exactly two space-separated tokens".to_owned(),
                )),
            }
        },
        _ => Err(DecodeError::UnexpectedShape {
            expected: ValueKind::Text,
            found: v.kind(),
        }),
    }
}

/// Encoding a well-formed full name and decoding it again yields the same
/// tokens: the codec's own round trip.
pub proof fn lemma_full_name_round_trip(first: Seq<char>, last: Seq<char>)
    requires
        !first.contains(' '),
        !last.contains(' '),
    ensures
        name_tokens(first + seq![' '] + last) == Option::Some((first, last)),
{
    lemma_first_space_concat(first, last);
}

} // verus!
