//! The per-column aggregate: inferred type, range tracker and sample buffer
//! under one configuration, fed sample by sample and merged across chunks.

use vstd::prelude::*;
use crate::buffer::{frequency, is_mode_position, lemma_merged_distinct, lemma_merged_frequency, SampleBuffer};
use crate::field_type::{join, lemma_join_laws, sample_type, type_label, FieldType, INITIAL_TYPE};
use crate::range::{lemma_bounds_determined, RangeTracker};
use crate::text::{bytes_to_text, count_to_text, decimal_text, float_text, int_of_bytes, lossy_text};

verus! {

/// Which statistics a column aggregate computes.
#[derive(Clone, Copy, Debug, PartialEq, Eq, Structural)]
pub struct WhichStats {
    /// Count empty fields of numeric columns in the population of the mean
    /// and standard deviation.
    pub include_nulls: bool,
    pub range: bool,
    pub dist: bool,
    pub cardinality: bool,
    pub median: bool,
    pub mode: bool,
}

/// What the numeric side (mean, deviation, median and float bounds, which
/// are kept in floating point by the caller) must do with a sample.
#[derive(Clone, Copy, Debug, PartialEq, Eq, Structural)]
pub enum NumericFeed {
    /// Nothing: the column is not numeric, or a null that is not counted.
    Skip,
    /// Count one more member of the population, without a value.
    Null,
    /// Parse the sample as a number and add it; the column is integral.
    Integer,
    /// Parse the sample as a number and add it, also to the float bounds.
    Float,
}

/// The statistics that the caller keeps in floating point, already
/// rendered as text.
pub struct FloatSummary {
    /// Bounds of the float samples, for a column of type `Float`.
    pub min_max: Option<(String, String)>,
    /// `None` when no member of the population was seen.
    pub mean: Option<String>,
    pub stddev: Option<String>,
    pub median: Option<String>,
}

/// The type inferred from a sequence of samples, starting at the initial
/// type.
pub open spec fn type_of(s: Seq<Seq<u8>>) -> FieldType
    decreases s.len(),
{
    if s.len() == 0 {
        INITIAL_TYPE
    } else {
        join(type_of(s.drop_last()), sample_type(s.last()))
    }
}

/// The non-empty samples of a sequence.
pub open spec fn strings_of(s: Seq<Seq<u8>>) -> Set<Seq<u8>> {
    s.to_set().filter(|x: Seq<u8>| x.len() > 0)
}

/// The values of the integer samples of a sequence.
pub open spec fn integers_of(s: Seq<Seq<u8>>) -> Set<int>
    decreases s.len(),
{
    if s.len() == 0 {
        Set::empty()
    } else if sample_type(s.last()) == FieldType::Integer {
        integers_of(s.drop_last()).insert(int_of_bytes(s.last()).unwrap() as int)
    } else {
        integers_of(s.drop_last())
    }
}

/// What the numeric side does with a sample of type `st` once the column's
/// type has become `typ`.
pub open spec fn feed_for(typ: FieldType, st: FieldType, include_nulls: bool) -> NumericFeed {
    if typ != FieldType::Integer && typ != FieldType::Float {
        NumericFeed::Skip
    } else if st == FieldType::Null {
        if include_nulls {
            NumericFeed::Null
        } else {
            NumericFeed::Skip
        }
    } else if typ == FieldType::Float {
        NumericFeed::Float
    } else {
        NumericFeed::Integer
    }
}

pub open spec fn empty_text() -> Seq<char> {
    Seq::empty()
}

/// A statistic that may be undefined, as text: empty when undefined.
pub open spec fn optional_text(t: Option<String>) -> Seq<char> {
    match t {
        Some(x) => x@,
        None => empty_text(),
    }
}

fn render_optional(t: &Option<String>) -> (r: String)
    ensures
        r@ == optional_text(*t),
{
    match t {
        Some(x) => x.clone(),
        None => String::new(),
    }
}

/// The most frequent sample, the first to occur among equally frequent ones.
pub open spec fn mode_of(s: Seq<Seq<u8>>) -> Seq<u8> {
    s[choose|b: int| is_mode_position(s, b)]
}

pub proof fn lemma_type_of_not_null(s: Seq<Seq<u8>>)
    ensures
        type_of(s) != FieldType::Null,
    decreases s.len(),
{
    if s.len() > 0 {
        lemma_type_of_not_null(s.drop_last());
    }
}

/// The type inferred from two consecutive chunks is the join of the types
/// inferred from each.
pub proof fn lemma_type_of_concat(a: Seq<Seq<u8>>, b: Seq<Seq<u8>>)
    ensures
        type_of(a + b) == join(type_of(a), type_of(b)),
    decreases b.len(),
{
    lemma_type_of_not_null(a);
    if b.len() == 0 {
        assert(a + b =~= a);
    } else {
        assert((a + b).drop_last() =~= a + b.drop_last());
        lemma_type_of_concat(a, b.drop_last());
        lemma_join_laws(type_of(a), type_of(b.drop_last()), sample_type(b.last()));
    }
}

/// The integer samples of two consecutive chunks are those of each.
pub proof fn lemma_integers_of_concat(a: Seq<Seq<u8>>, b: Seq<Seq<u8>>)
    ensures
        integers_of(a + b) == integers_of(a).union(integers_of(b)),
    decreases b.len(),
{
    if b.len() == 0 {
        assert(a + b =~= a);
        assert(integers_of(a).union(integers_of(b)) =~= integers_of(a));
    } else {
        assert((a + b).drop_last() =~= a + b.drop_last());
        lemma_integers_of_concat(a, b.drop_last());
        assert(integers_of(a + b) =~= integers_of(a).union(integers_of(b)));
    }
}

/// The non-empty samples of two consecutive chunks are those of each.
pub proof fn lemma_strings_of_concat(a: Seq<Seq<u8>>, b: Seq<Seq<u8>>)
    ensures
        strings_of(a + b) == strings_of(a).union(strings_of(b)),
{
    lemma_merged_distinct(a, b);
    assert(strings_of(a + b) =~= strings_of(a).union(strings_of(b)));
}

/// Merging two chunks in either order infers the same type, tracks the same
/// bounds, and buffers the same values with the same frequencies, so the
/// type, bounds, cardinality and the frequency of the mode do not depend on
/// the order in which chunks are merged.
pub proof fn lemma_chunk_order_irrelevant(a: Seq<Seq<u8>>, b: Seq<Seq<u8>>)
    ensures
        type_of(a + b) == type_of(b + a),
        strings_of(a + b) == strings_of(b + a),
        integers_of(a + b) == integers_of(b + a),
        (a + b).to_set() == (b + a).to_set(),
        forall|x: Seq<u8>| frequency(a + b, x) == #[trigger] frequency(b + a, x),
{
    lemma_type_of_concat(a, b);
    lemma_type_of_concat(b, a);
    lemma_join_laws(type_of(a), type_of(b), type_of(b));
    lemma_strings_of_concat(a, b);
    lemma_strings_of_concat(b, a);
    assert(strings_of(a).union(strings_of(b)) =~= strings_of(b).union(strings_of(a)));
    lemma_integers_of_concat(a, b);
    lemma_integers_of_concat(b, a);
    assert(integers_of(a).union(integers_of(b)) =~= integers_of(b).union(integers_of(a)));
    lemma_merged_distinct(a, b);
    lemma_merged_distinct(b, a);
    assert(a.to_set().union(b.to_set()) =~= b.to_set().union(a.to_set()));
    assert forall|x: Seq<u8>| frequency(a + b, x) == #[trigger] frequency(b + a, x) by {
        lemma_merged_frequency(a, b, x);
        lemma_merged_frequency(b, a, x);
    }
}

/// Where the first mode stands is determined by the samples.
pub proof fn lemma_mode_position_unique(s: Seq<Seq<u8>>, b1: int, b2: int)
    requires
        is_mode_position(s, b1),
        is_mode_position(s, b2),
    ensures
        b1 == b2,
{
    if b1 < b2 {
        assert(crate::buffer::frequency(s, s[b1]) < crate::buffer::frequency(s, s[b2]));
    } else if b2 < b1 {
        assert(crate::buffer::frequency(s, s[b2]) < crate::buffer::frequency(s, s[b1]));
    }
}

pub struct Stats {
    pub typ: FieldType,
    pub minmax: Option<RangeTracker>,
    /// Serves both the mode and the cardinality.
    pub mode: Option<SampleBuffer>,
    pub which: WhichStats,
    /// Every sample absorbed so far, chunk after chunk.
    pub history: Ghost<Seq<Seq<u8>>>,
}

impl Stats {
    /// Each part is present exactly when configured, and each summarises the
    /// history. The integer bounds are pinned down while the column is of
    /// type `Integer`, the only type for which they are reported; under
    /// `Float` they also take truncated float values.
    pub open spec fn wf(&self) -> bool {
        &&& self.typ == type_of(self.history@)
        &&& self.minmax.is_some() == self.which.range
        &&& self.mode.is_some() == (self.which.mode || self.which.cardinality)
        &&& match self.minmax {
            Some(m) => m.wf() && m.seen_strings@ == strings_of(self.history@) && (self.typ
                == FieldType::Integer ==> m.seen_integers@ == integers_of(self.history@)),
            None => true,
        }
        &&& match self.mode {
            Some(b) => b.contents() == self.history@,
            None => true,
        }
    }

    /// The bounds reported: float bounds from the caller for a `Float`
    /// column, the tracker's otherwise.
    pub open spec fn bounds(&self, floats: FloatSummary) -> Seq<Seq<char>> {
        let shown = if self.typ == FieldType::Float {
            match floats.min_max {
                Some((lo, hi)) => Some((lo@, hi@)),
                None => None,
            }
        } else {
            match self.minmax {
                Some(m) => m.shown(self.typ),
                None => None,
            }
        };
        match shown {
            Some((lo, hi)) => seq![lo, hi],
            None => seq![empty_text(), empty_text()],
        }
    }

    pub open spec fn distribution(&self, floats: FloatSummary) -> Seq<Seq<char>> {
        if self.which.dist && (self.typ == FieldType::Integer || self.typ == FieldType::Float) {
            seq![optional_text(floats.mean), optional_text(floats.stddev)]
        } else {
            seq![empty_text(), empty_text()]
        }
    }

    pub open spec fn buffered(&self, floats: FloatSummary) -> Seq<Seq<char>> {
        let s = self.history@;
        let median = if self.which.median {
            seq![optional_text(floats.median)]
        } else {
            Seq::empty()
        };
        let mode = if self.which.mode {
            if s.len() == 0 {
                seq!["N/A"@]
            } else {
                seq![lossy_text(mode_of(s))]
            }
        } else {
            Seq::empty()
        };
        let card = if self.which.cardinality {
            if s.len() == 0 {
                seq![empty_text()]
            } else {
                seq![decimal_text(s.to_set().len() as int)]
            }
        } else {
            Seq::empty()
        };
        median + mode + card
    }

    /// The output record: type, min, max, mean, stddev, then median, mode
    /// and cardinality where configured.
    pub open spec fn record(&self, floats: FloatSummary) -> Seq<Seq<char>> {
        seq![type_label(self.typ)] + self.bounds(floats) + self.distribution(floats) + self.buffered(
            floats,
        )
    }

    /// A fresh aggregate: no sample seen, type `Integer`.
    pub fn new(which: WhichStats) -> (r: Stats)
        ensures
            r.wf(),
            r.which == which,
            r.history@ == Seq::<Seq<u8>>::empty(),
    {
        let minmax = if which.range {
            Some(RangeTracker::new())
        } else {
            None
        };
        let mode = if which.mode || which.cardinality {
            Some(SampleBuffer::new())
        } else {
            None
        };
        let r = Stats { typ: INITIAL_TYPE, minmax, mode, which, history: Ghost(Seq::empty()) };
        assert(strings_of(r.history@) =~= Set::<Seq<u8>>::empty());
        r
    }

    /// Absorbs one sample, and says what the numeric side must do with it.
    /// `truncated` is the sample's float value truncated toward zero, which
    /// the caller computes in floating point; it widens the integer bounds
    /// when the column has become `Float`.
    pub fn add(&mut self, sample: &[u8], truncated: Option<i64>) -> (feed: NumericFeed)
        requires
            old(self).wf(),
            float_text(sample@) ==> truncated.is_some(),
        ensures
            final(self).wf(),
            final(self).which == old(self).which,
            final(self).history@ == old(self).history@.push(sample@),
            final(self).typ == join(old(self).typ, sample_type(sample@)),
            feed == feed_for(final(self).typ, sample_type(sample@), old(self).which.include_nulls),
            feed == NumericFeed::Integer || feed == NumericFeed::Float ==> (sample_type(sample@)
                == FieldType::Integer || sample_type(sample@) == FieldType::Float),
    {
        let ghost h = self.history@.push(sample@);
        assert(h.drop_last() =~= self.history@);
        let st = FieldType::from_sample(sample);
        proof {
            lemma_type_of_not_null(self.history@);
        }
        self.typ.merge(st);
        match &mut self.minmax {
            Some(m) => {
                m.add(self.typ, sample, truncated);
                proof {
                    self.history@.lemma_push_to_set_commute(sample@);
                }
                assert(strings_of(h) =~= if sample@.len() > 0 {
                    strings_of(self.history@).insert(sample@)
                } else {
                    strings_of(self.history@)
                });
            },
            None => {},
        }
        match &mut self.mode {
            Some(b) => b.add(sample),
            None => {},
        }
        self.history = Ghost(h);
        if self.typ.is_number() {
            if st.is_null() {
                if self.which.include_nulls {
                    NumericFeed::Null
                } else {
                    NumericFeed::Skip
                }
            } else if self.typ == FieldType::Float {
                NumericFeed::Float
            } else {
                NumericFeed::Integer
            }
        } else {
            NumericFeed::Skip
        }
    }
}


impl Stats {
    /// Merges the aggregate of a later chunk of the same column into this
    /// one. Both must have been built under one configuration: merging
    /// aggregates of different configurations is a caller's error.
    pub fn merge(&mut self, other: Stats)
        requires
            old(self).wf(),
            other.wf(),
            old(self).which == other.which,
        ensures
            final(self).wf(),
            final(self).which == old(self).which,
            final(self).history@ == old(self).history@ + other.history@,
            final(self).typ == join(old(self).typ, other.typ),
    {
        let ghost (a, b) = (self.history@, other.history@);
        proof {
            lemma_type_of_concat(a, b);
            lemma_strings_of_concat(a, b);
            lemma_integers_of_concat(a, b);
            lemma_type_of_not_null(a);
            lemma_type_of_not_null(b);
        }
        let Stats { typ, minmax, mode, which: _, history: _ } = other;
        self.typ.merge(typ);
        match minmax {
            Some(o) => match &mut self.minmax {
                Some(m) => m.merge(o),
                None => {},
            },
            None => {},
        }
        match mode {
            Some(o) => match &mut self.mode {
                Some(m) => m.merge(o),
                None => {},
            },
            None => {},
        }
        self.history = Ghost(a + b);
    }

    /// Renders the record of this column, given what the caller kept in
    /// floating point.
    pub fn to_record(&self, floats: &FloatSummary) -> (r: Vec<String>)
        requires
            self.wf(),
        ensures
            r@.map_values(|x: String| x@) == self.record(*floats),
    {
        let ghost f = *floats;
        let mut r: Vec<String> = Vec::new();
        r.push(self.typ.label());
        let shown = if self.typ == FieldType::Float {
            match &floats.min_max {
                Some((lo, hi)) => Some((lo.clone(), hi.clone())),
                None => None,
            }
        } else {
            match &self.minmax {
                Some(m) => m.show(self.typ),
                None => None,
            }
        };
        match shown {
            Some((lo, hi)) => {
                r.push(lo);
                r.push(hi);
            },
            None => {
                r.push(String::new());
                r.push(String::new());
            },
        }
        assert(r@.map_values(|x: String| x@) =~= seq![type_label(self.typ)] + self.bounds(f));
        if self.which.dist && self.typ.is_number() {
            r.push(render_optional(&floats.mean));
            r.push(render_optional(&floats.stddev));
        } else {
            r.push(String::new());
            r.push(String::new());
        }
        let ghost head = seq![type_label(self.typ)] + self.bounds(f) + self.distribution(f);
        assert(r@.map_values(|x: String| x@) =~= head);
        let ghost s = self.history@;
        if self.which.median {
            r.push(render_optional(&floats.median));
        }
        match &self.mode {
            Some(b) => {
                if self.which.mode {
                    match b.mode_position() {
                        None => r.push("N/A".to_owned()),
                        Some(p) => {
                            proof {
                                lemma_mode_position_unique(s, p as int, choose|q: int| is_mode_position(s, q));
                            }
                            assert(b.items@[p as int]@ == mode_of(s));
                            r.push(bytes_to_text(b.items[p].as_slice()));
                        },
                    }
                }
                if self.which.cardinality {
                    if b.len() == 0 {
                        r.push(String::new());
                    } else {
                        r.push(count_to_text(b.cardinality()));
                    }
                }
            },
            None => {},
        }
        assert(r@.map_values(|x: String| x@) =~= head + self.buffered(f));
        r
    }
}

/// Two aggregates of one configuration that absorbed the same samples
/// report the same record. With `merge` appending histories, the merge of
/// the aggregates of consecutive chunks therefore reports what one pass
/// over all of them reports.
pub proof fn lemma_record_determined(x: Stats, y: Stats, floats: FloatSummary)
    requires
        x.wf(),
        y.wf(),
        x.which == y.which,
        x.history@ == y.history@,
    ensures
        x.record(floats) == y.record(floats),
{
    match (x.minmax, y.minmax) {
        (Some(a), Some(b)) => lemma_bounds_determined(a, b, x.typ),
        _ => {},
    }
}


/// Merging two chunks in either order gives the same record, but for the
/// mode, which among equally frequent values may differ.
pub proof fn lemma_merge_order_record(
    x: Stats,
    y: Stats,
    a: Seq<Seq<u8>>,
    b: Seq<Seq<u8>>,
    floats: FloatSummary,
)
    requires
        x.wf(),
        y.wf(),
        x.which == y.which,
        !x.which.mode,
        x.history@ == a + b,
        y.history@ == b + a,
    ensures
        x.record(floats) == y.record(floats),
{
    lemma_chunk_order_irrelevant(a, b);
    match (x.minmax, y.minmax) {
        (Some(p), Some(q)) => lemma_bounds_determined(p, q, x.typ),
        _ => {},
    }
    assert(x.bounds(floats) == y.bounds(floats));
    assert(x.buffered(floats) =~= y.buffered(floats));
}

/// The greatest frequency of a value is held by the mode.
proof fn lemma_mode_is_most_frequent(s: Seq<Seq<u8>>, x: Seq<u8>)
    requires
        s.contains(x),
    ensures
        frequency(s, x) <= frequency(s, mode_of(s)),
{
    let k = choose|k: int| 0 <= k < s.len() && s[k] == x;
    let b = choose|b: int| is_mode_position(s, b);
    crate::buffer::lemma_mode_exists(s);
    assert(frequency(s, s[k]) <= frequency(s, s[b]));
}

/// Merging two chunks in either order gives modes of the same frequency.
pub proof fn lemma_merge_order_mode(a: Seq<Seq<u8>>, b: Seq<Seq<u8>>)
    requires
        a.len() + b.len() > 0,
    ensures
        frequency(a + b, mode_of(a + b)) == frequency(b + a, mode_of(b + a)),
{
    let (s, t) = (a + b, b + a);
    lemma_chunk_order_irrelevant(a, b);
    crate::buffer::lemma_mode_exists(s);
    crate::buffer::lemma_mode_exists(t);
    let ms = mode_of(s);
    let mt = mode_of(t);
    assert(s.to_set().contains(ms));
    assert(t.to_set().contains(mt));
    lemma_mode_is_most_frequent(s, mt);
    lemma_mode_is_most_frequent(t, ms);
    assert(frequency(s, mt) == frequency(t, mt));
    assert(frequency(s, ms) == frequency(t, ms));
}

} // verus!
