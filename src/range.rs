//! Minimum and maximum per domain: byte strings in lexicographic order and
//! 64-bit integers.

use vstd::prelude::*;
use crate::field_type::FieldType;
use crate::text::{
    bytes_le, bytes_to_text, copy_bytes, from_bytes, int_of_bytes, int_to_text, lemma_lex_antisymmetric, lemma_lex_reflexive,
    lemma_lex_total, lemma_lex_transitive, lex_le, lossy_text, decimal_text,
};

verus! {

/// `lo` is the least element of `set` in lexicographic order.
pub open spec fn least_bytes(set: Set<Seq<u8>>, lo: Seq<u8>) -> bool {
    set.contains(lo) && forall|x: Seq<u8>| set.contains(x) ==> lex_le(lo, x)
}

/// `hi` is the greatest element of `set` in lexicographic order.
pub open spec fn greatest_bytes(set: Set<Seq<u8>>, hi: Seq<u8>) -> bool {
    set.contains(hi) && forall|x: Seq<u8>| set.contains(x) ==> lex_le(x, hi)
}

pub open spec fn least_int(set: Set<int>, lo: int) -> bool {
    set.contains(lo) && forall|x: int| set.contains(x) ==> lo <= x
}

pub open spec fn greatest_int(set: Set<int>, hi: int) -> bool {
    set.contains(hi) && forall|x: int| set.contains(x) ==> x <= hi
}

/// Bounds of every non-empty sample as bytes, and of the integer value of
/// every sample added under a numeric type.
pub struct RangeTracker {
    pub strings: Option<(Vec<u8>, Vec<u8>)>,
    pub integers: Option<(i64, i64)>,
    /// The non-empty samples seen.
    pub seen_strings: Ghost<Set<Seq<u8>>>,
    /// The integer samples seen.
    pub seen_integers: Ghost<Set<int>>,
}

impl RangeTracker {
    pub open spec fn wf(&self) -> bool {
        &&& match self.strings {
            None => self.seen_strings@ == Set::<Seq<u8>>::empty(),
            Some((lo, hi)) => least_bytes(self.seen_strings@, lo@) && greatest_bytes(
                self.seen_strings@,
                hi@,
            ),
        }
        &&& match self.integers {
            None => self.seen_integers@ == Set::<int>::empty(),
            Some((lo, hi)) => least_int(self.seen_integers@, lo as int) && greatest_int(
                self.seen_integers@,
                hi as int,
            ),
        }
    }

    /// The bounds reported for a column of type `typ`: byte bounds for text,
    /// integer bounds for integers, none for other types.
    pub open spec fn shown(&self, typ: FieldType) -> Option<(Seq<char>, Seq<char>)> {
        match typ {
            FieldType::Unicode | FieldType::Unknown => match self.strings {
                Some((lo, hi)) => Some((lossy_text(lo@), lossy_text(hi@))),
                None => None,
            },
            FieldType::Integer => match self.integers {
                Some((lo, hi)) => Some((decimal_text(lo as int), decimal_text(hi as int))),
                None => None,
            },
            _ => None,
        }
    }

    pub fn new() -> (r: RangeTracker)
        ensures
            r.wf(),
            r.seen_strings@ == Set::<Seq<u8>>::empty(),
            r.seen_integers@ == Set::<int>::empty(),
    {
        RangeTracker {
            strings: None,
            integers: None,
            seen_strings: Ghost(Set::empty()),
            seen_integers: Ghost(Set::empty()),
        }
    }

    fn add_bytes(&mut self, sample: &[u8])
        requires
            old(self).wf(),
        ensures
            final(self).wf(),
            final(self).seen_strings@ == old(self).seen_strings@.insert(sample@),
            final(self).seen_integers@ == old(self).seen_integers@,
            final(self).integers == old(self).integers,
    {
        let ghost seen = self.seen_strings@.insert(sample@);
        match self.strings.take() {
            None => {
                assert(seen =~= set![sample@]);
                proof {
                    lemma_lex_reflexive(sample@);
                }
                self.strings = Some((copy_bytes(sample), copy_bytes(sample)));
            },
            Some((lo, hi)) => {
                let ghost (lo0, hi0) = (lo@, hi@);
                proof {
                    lemma_lex_total(sample@, lo0);
                    lemma_lex_total(sample@, hi0);
                    lemma_lex_reflexive(sample@);
                }
                let new_lo = if !bytes_le(lo.as_slice(), sample) {
                    assert forall|x: Seq<u8>| seen.contains(x) implies lex_le(sample@, x) by {
                        if x != sample@ {
                            lemma_lex_transitive(sample@, lo0, x);
                        }
                    }
                    copy_bytes(sample)
                } else {
                    assert forall|x: Seq<u8>| seen.contains(x) implies lex_le(lo0, x) by {}
                    lo
                };
                let new_hi = if !bytes_le(sample, hi.as_slice()) {
                    assert forall|x: Seq<u8>| seen.contains(x) implies lex_le(x, sample@) by {
                        if x != sample@ {
                            lemma_lex_transitive(x, hi0, sample@);
                        }
                    }
                    copy_bytes(sample)
                } else {
                    assert forall|x: Seq<u8>| seen.contains(x) implies lex_le(x, hi0) by {}
                    hi
                };
                assert(least_bytes(seen, new_lo@));
                assert(greatest_bytes(seen, new_hi@));
                self.strings = Some((new_lo, new_hi));
            },
        }
        self.seen_strings = Ghost(seen);
    }

    fn add_integer(&mut self, n: i64)
        requires
            old(self).wf(),
        ensures
            final(self).wf(),
            final(self).seen_integers@ == old(self).seen_integers@.insert(n as int),
            final(self).seen_strings@ == old(self).seen_strings@,
            final(self).strings == old(self).strings,
    {
        let ghost seen = self.seen_integers@.insert(n as int);
        match self.integers {
            None => {
                assert(seen =~= set![n as int]);
                self.integers = Some((n, n));
            },
            Some((lo, hi)) => {
                let new_lo = if n < lo {
                    n
                } else {
                    lo
                };
                let new_hi = if n > hi {
                    n
                } else {
                    hi
                };
                self.integers = Some((new_lo, new_hi));
            },
        }
        self.seen_integers = Ghost(seen);
    }

    /// Records one sample under the column's type `typ`. An empty sample
    /// changes nothing. Any other widens the byte bounds; under `Integer` it
    /// widens the integer bounds by its value, and under `Float` by
    /// `truncated`, its float value truncated toward zero, which the caller
    /// computes in floating point.
    pub fn add(&mut self, typ: FieldType, sample: &[u8], truncated: Option<i64>)
        requires
            old(self).wf(),
            typ == FieldType::Integer && sample@.len() > 0 ==> int_of_bytes(sample@).is_some(),
            typ == FieldType::Float && sample@.len() > 0 ==> truncated.is_some(),
        ensures
            final(self).wf(),
            sample@.len() == 0 ==> *final(self) == *old(self),
            typ != FieldType::Integer && typ != FieldType::Float ==> final(self).integers == old(
                self,
            ).integers,
            final(self).seen_strings@ == if sample@.len() > 0 {
                old(self).seen_strings@.insert(sample@)
            } else {
                old(self).seen_strings@
            },
            final(self).seen_integers@ == if typ == FieldType::Integer && sample@.len() > 0 {
                old(self).seen_integers@.insert(int_of_bytes(sample@).unwrap() as int)
            } else if typ == FieldType::Float && sample@.len() > 0 {
                old(self).seen_integers@.insert(truncated.unwrap() as int)
            } else {
                old(self).seen_integers@
            },
    {
        if sample.len() == 0 {
            return;
        }
        self.add_bytes(sample);
        if typ == FieldType::Integer {
            match from_bytes(sample) {
                Some(n) => self.add_integer(n),
                None => {},
            }
        } else if typ == FieldType::Float {
            match truncated {
                Some(n) => self.add_integer(n),
                None => {},
            }
        }
    }

    /// Widens these bounds by another tracker's.
    pub fn merge(&mut self, other: RangeTracker)
        requires
            old(self).wf(),
            other.wf(),
        ensures
            final(self).wf(),
            final(self).seen_strings@ == old(self).seen_strings@.union(other.seen_strings@),
            final(self).seen_integers@ == old(self).seen_integers@.union(other.seen_integers@),
    {
        let ghost strs = self.seen_strings@.union(other.seen_strings@);
        let ghost ints = self.seen_integers@.union(other.seen_integers@);
        match other.strings {
            None => {
                assert(strs =~= self.seen_strings@);
            },
            Some((olo, ohi)) => {
                match &mut self.strings {
                    None => {
                        assert(strs =~= other.seen_strings@);
                        self.strings = Some((olo, ohi));
                    },
                    Some((lo, hi)) => {
                        let ghost (lo0, hi0) = (lo@, hi@);
                        proof {
                            lemma_lex_total(olo@, lo0);
                            lemma_lex_total(ohi@, hi0);
                        }
                        if !bytes_le(lo.as_slice(), olo.as_slice()) {
                            assert forall|x: Seq<u8>| strs.contains(x) implies lex_le(olo@, x) by {
                                if self.seen_strings@.contains(x) {
                                    lemma_lex_transitive(olo@, lo0, x);
                                }
                            }
                            *lo = olo;
                        }
                        if !bytes_le(ohi.as_slice(), hi.as_slice()) {
                            assert forall|x: Seq<u8>| strs.contains(x) implies lex_le(x, ohi@) by {
                                if self.seen_strings@.contains(x) {
                                    lemma_lex_transitive(x, hi0, ohi@);
                                }
                            }
                            *hi = ohi;
                        }
                        assert forall|x: Seq<u8>| strs.contains(x) implies lex_le(lo@, x) by {
                            if other.seen_strings@.contains(x) && lo@ == lo0 {
                                lemma_lex_transitive(lo0, olo@, x);
                            }
                        }
                        assert forall|x: Seq<u8>| strs.contains(x) implies lex_le(x, hi@) by {
                            if other.seen_strings@.contains(x) && hi@ == hi0 {
                                lemma_lex_transitive(x, ohi@, hi0);
                            }
                        }
                    },
                }
            },
        }
        match other.integers {
            None => {
                assert(ints =~= self.seen_integers@);
            },
            Some((olo, ohi)) => {
                match self.integers {
                    None => {
                        assert(ints =~= other.seen_integers@);
                        self.integers = Some((olo, ohi));
                    },
                    Some((lo, hi)) => {
                        let new_lo = if olo < lo {
                            olo
                        } else {
                            lo
                        };
                        let new_hi = if ohi > hi {
                            ohi
                        } else {
                            hi
                        };
                        self.integers = Some((new_lo, new_hi));
                    },
                }
            },
        }
        self.seen_strings = Ghost(strs);
        self.seen_integers = Ghost(ints);
    }

    /// The bounds reported for a column of type `typ`.
    pub fn show(&self, typ: FieldType) -> (r: Option<(String, String)>)
        ensures
            r.is_some() == self.shown(typ).is_some(),
            r.is_some() ==> self.shown(typ) == Some((r.unwrap().0@, r.unwrap().1@)),
    {
        match typ {
            FieldType::Unicode | FieldType::Unknown => match &self.strings {
                Some((lo, hi)) => Some((bytes_to_text(lo.as_slice()), bytes_to_text(hi.as_slice()))),
                None => None,
            },
            FieldType::Integer => match self.integers {
                Some((lo, hi)) => Some((int_to_text(lo), int_to_text(hi))),
                None => None,
            },
            _ => None,
        }
    }
}

/// Two well-formed trackers that have seen the same samples report the
/// same bounds for type `t`, whatever order the samples came in; integer
/// bounds matter only to an `Integer` column.
pub proof fn lemma_bounds_determined(a: RangeTracker, b: RangeTracker, t: FieldType)
    requires
        a.wf(),
        b.wf(),
        a.seen_strings@ == b.seen_strings@,
        t == FieldType::Integer ==> a.seen_integers@ == b.seen_integers@,
    ensures
        a.shown(t) == b.shown(t),
{
    match (a.strings, b.strings) {
        (Some((alo, ahi)), Some((blo, bhi))) => {
            lemma_lex_antisymmetric(alo@, blo@);
            lemma_lex_antisymmetric(ahi@, bhi@);
        },
        _ => {},
    }
}

} // verus!
