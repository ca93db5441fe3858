//! The inferred kind of a column and the join that relaxes it.

use vstd::prelude::*;
use crate::text::{
    decode_utf8, float_text, from_bytes, int_of_bytes, is_float_text, lemma_integer_is_float, utf8_decode,
};

verus! {

#[derive(Clone, Copy, Debug, PartialEq, Eq, Structural)]
pub enum FieldType {
    Unknown,
    Null,
    Unicode,
    Float,
    Integer,
}

/// The type of a column before any sample is seen: the most specific one,
/// so that inference only relaxes as counter-examples come. A column that
/// holds only empty fields therefore reports `Integer`.
pub const INITIAL_TYPE: FieldType = FieldType::Integer;

/// The least specific type consistent with both: `Null` is the identity,
/// `Unknown` absorbs everything, integers relax to floats, numbers relax to
/// text.
pub open spec fn join(a: FieldType, b: FieldType) -> FieldType {
    match (a, b) {
        (FieldType::Null, x) => x,
        (x, FieldType::Null) => x,
        (FieldType::Unknown, _) => FieldType::Unknown,
        (_, FieldType::Unknown) => FieldType::Unknown,
        (FieldType::Unicode, _) => FieldType::Unicode,
        (_, FieldType::Unicode) => FieldType::Unicode,
        (FieldType::Float, _) => FieldType::Float,
        (_, FieldType::Float) => FieldType::Float,
        (FieldType::Integer, FieldType::Integer) => FieldType::Integer,
    }
}

/// The kind of one sample: empty is `Null`; bytes that are not UTF-8 are
/// `Unknown`; then `Integer` if it parses as a 64-bit integer, `Float` if
/// it is a decimal float, `Unicode` otherwise (both in std's grammars).
pub open spec fn sample_type(b: Seq<u8>) -> FieldType {
    if b.len() == 0 {
        FieldType::Null
    } else {
        match utf8_decode(b) {
            None => FieldType::Unknown,
            Some(_) => if int_of_bytes(b).is_some() {
                FieldType::Integer
            } else if float_text(b) {
                FieldType::Float
            } else {
                FieldType::Unicode
            },
        }
    }
}

/// The label under which a type is reported.
pub open spec fn type_label(t: FieldType) -> Seq<char> {
    match t {
        FieldType::Unknown => "Unknown"@,
        FieldType::Null => "NULL"@,
        FieldType::Unicode => "Unicode"@,
        FieldType::Float => "Float"@,
        FieldType::Integer => "Integer"@,
    }
}

impl FieldType {
    /// Infers the kind of one sample.
    pub fn from_sample(sample: &[u8]) -> (r: FieldType)
        ensures
            r == sample_type(sample@),
            r == FieldType::Null <==> sample@.len() == 0,
            r == FieldType::Integer ==> int_of_bytes(sample@).is_some() && float_text(sample@),
            r == FieldType::Float ==> float_text(sample@),
    {
        if sample.len() == 0 {
            return FieldType::Null;
        }
        match decode_utf8(sample) {
            None => FieldType::Unknown,
            Some(_) => {
                if from_bytes(sample).is_some() {
                    proof {
                        lemma_integer_is_float(sample@);
                    }
                    FieldType::Integer
                } else if is_float_text(sample) {
                    FieldType::Float
                } else {
                    FieldType::Unicode
                }
            },
        }
    }

    pub fn is_number(&self) -> (r: bool)
        ensures
            r == (*self == FieldType::Float || *self == FieldType::Integer),
    {
        *self == FieldType::Float || *self == FieldType::Integer
    }

    pub fn is_null(&self) -> (r: bool)
        ensures
            r == (*self == FieldType::Null),
    {
        *self == FieldType::Null
    }

    /// Relaxes this type by joining another into it.
    pub fn merge(&mut self, other: FieldType)
        ensures
            *final(self) == join(*old(self), other),
    {
        *self = match (*self, other) {
            (FieldType::Unicode, FieldType::Unicode) => FieldType::Unicode,
            (FieldType::Float, FieldType::Float) => FieldType::Float,
            (FieldType::Integer, FieldType::Integer) => FieldType::Integer,
            (FieldType::Null, any) | (any, FieldType::Null) => any,
            (FieldType::Unknown, _) | (_, FieldType::Unknown) => FieldType::Unknown,
            (FieldType::Float, FieldType::Integer) | (FieldType::Integer, FieldType::Float) => FieldType::Float,
            (FieldType::Unicode, FieldType::Float) | (FieldType::Float, FieldType::Unicode) => FieldType::Unicode,
            (FieldType::Unicode, FieldType::Integer) | (FieldType::Integer, FieldType::Unicode) => FieldType::Unicode,
        };
    }

    /// The label under which the type is reported.
    pub fn label(&self) -> (r: String)
        ensures
            r@ == type_label(*self),
    {
        let s = match self {
            FieldType::Unknown => "Unknown",
            FieldType::Null => "NULL",
            FieldType::Unicode => "Unicode",
            FieldType::Float => "Float",
            FieldType::Integer => "Integer",
        };
        s.to_owned()
    }
}

/// The join is commutative, associative and idempotent; `Null` is its
/// identity and `Unknown` absorbs every type.
pub proof fn lemma_join_laws(a: FieldType, b: FieldType, c: FieldType)
    ensures
        join(a, b) == join(b, a),
        join(join(a, b), c) == join(a, join(b, c)),
        join(a, a) == a,
        join(FieldType::Null, a) == a,
        join(FieldType::Unknown, a) == FieldType::Unknown,
{
}

} // verus!
