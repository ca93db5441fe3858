//! An append-only buffer of byte-string samples, from which the mode and
//! the cardinality are extracted once all samples are in.

use vstd::prelude::*;
use crate::text::{
    bytes_eq, bytes_le, copy_bytes, lemma_lex_antisymmetric, lemma_lex_reflexive, lemma_lex_total,
    lemma_lex_transitive, lex_le,
};

verus! {

broadcast use vstd::seq_lib::group_to_multiset_ensures;

/// How often `x` occurs in `s`.
pub open spec fn frequency(s: Seq<Seq<u8>>, x: Seq<u8>) -> nat {
    s.to_multiset().count(x)
}

/// `b` is where the mode of `s` first occurs: no value is more frequent
/// than `s[b]`, and every value before `b` is strictly less frequent.
pub open spec fn is_mode_position(s: Seq<Seq<u8>>, b: int) -> bool {
    &&& 0 <= b < s.len()
    &&& forall|k: int| 0 <= k < s.len() ==> frequency(s, #[trigger] s[k]) <= frequency(s, s[b])
    &&& forall|k: int| 0 <= k < b ==> frequency(s, #[trigger] s[k]) < frequency(s, s[b])
}

proof fn lemma_best_in_prefix(s: Seq<Seq<u8>>, n: int) -> (b: int)
    requires
        1 <= n <= s.len(),
    ensures
        0 <= b < n,
        forall|k: int| 0 <= k < n ==> frequency(s, #[trigger] s[k]) <= frequency(s, s[b]),
        forall|k: int| 0 <= k < b ==> frequency(s, #[trigger] s[k]) < frequency(s, s[b]),
    decreases n,
{
    if n == 1 {
        0
    } else {
        let b = lemma_best_in_prefix(s, n - 1);
        if frequency(s, s[n - 1]) > frequency(s, s[b]) {
            n - 1
        } else {
            b
        }
    }
}

/// A non-empty sequence has a first mode.
pub proof fn lemma_mode_exists(s: Seq<Seq<u8>>)
    requires
        s.len() > 0,
    ensures
        exists|b: int| is_mode_position(s, b),
{
    let b = lemma_best_in_prefix(s, s.len() as int);
    assert(is_mode_position(s, b));
}

/// `s` is in ascending lexicographic order.
pub open spec fn ascending(s: Seq<Seq<u8>>) -> bool {
    forall|i: int, j: int| 0 <= i < j < s.len() ==> lex_le(#[trigger] s[i], #[trigger] s[j])
}

pub open spec fn views(v: Seq<Vec<u8>>) -> Seq<Seq<u8>> {
    v.map_values(|x: Vec<u8>| x@)
}

/// Relies on `slice::sort_unstable`: it permutes the items into ascending
/// order, and std orders byte vectors lexicographically.
#[verifier::external_body]
fn sort_samples(v: &mut Vec<Vec<u8>>)
    ensures
        views(final(v)@).to_multiset() == views(old(v)@).to_multiset(),
        ascending(views(final(v)@)),
{
    v.sort_unstable();
}

/// In ascending order, a value that occurs before `i` occurs just before it.
proof fn lemma_sorted_repeat(p: Seq<Seq<u8>>, i: int)
    requires
        ascending(p),
        0 <= i < p.len(),
    ensures
        p.subrange(0, i).contains(p[i]) <==> (i > 0 && p[i - 1] == p[i]),
{
    if p.subrange(0, i).contains(p[i]) {
        let k = choose|k: int| 0 <= k < i && p.subrange(0, i)[k] == p[i];
        if k < i - 1 {
            assert(lex_le(p[k], p[i - 1]));
            assert(lex_le(p[i - 1], p[i]));
            lemma_lex_antisymmetric(p[i - 1], p[i]);
        }
    }
    if i > 0 && p[i - 1] == p[i] {
        assert(p.subrange(0, i)[i - 1] == p[i]);
    }
}

/// Positions `lo..hi` of `p` hold `x`, and no other position does.
pub open spec fn brackets(p: Seq<Seq<u8>>, x: Seq<u8>, lo: int, hi: int) -> bool {
    &&& 0 <= lo <= hi <= p.len()
    &&& forall|k: int| 0 <= k < lo ==> p[k] != x
    &&& forall|k: int| lo <= k < hi ==> p[k] == x
    &&& forall|k: int| hi <= k < p.len() ==> p[k] != x
}

proof fn lemma_bracket_count(p: Seq<Seq<u8>>, x: Seq<u8>, lo: int, hi: int)
    requires
        brackets(p, x, lo, hi),
    ensures
        frequency(p, x) == hi - lo,
    decreases p.len(),
{
    if p.len() > 0 {
        let q = p.drop_last();
        assert(p =~= q.push(p.last()));
        q.to_multiset_ensures();
        if hi == p.len() && lo < hi {
            lemma_bracket_count(q, x, lo, hi - 1);
        } else if hi < p.len() {
            lemma_bracket_count(q, x, lo, hi);
        } else {
            lemma_bracket_count(q, x, lo - 1, hi - 1);
        }
    }
}

/// The first position of ascending `p` whose value is not below `x`.
fn lower_bound(p: &Vec<Vec<u8>>, x: &[u8]) -> (r: usize)
    requires
        ascending(views(p@)),
    ensures
        r <= p.len(),
        forall|k: int| 0 <= k < r ==> !lex_le(x@, #[trigger] views(p@)[k]),
        forall|k: int| r <= k < p.len() ==> lex_le(x@, #[trigger] views(p@)[k]),
{
    let ghost v = views(p@);
    let mut lo: usize = 0;
    let mut hi: usize = p.len();
    while lo < hi
        invariant
            lo <= hi <= p.len(),
            v == views(p@),
            ascending(v),
            forall|k: int| 0 <= k < lo ==> !lex_le(x@, #[trigger] v[k]),
            forall|k: int| hi <= k < p.len() ==> lex_le(x@, #[trigger] v[k]),
        decreases hi - lo,
    {
        let mid = lo + (hi - lo) / 2;
        assert(v[mid as int] == p@[mid as int]@);
        if bytes_le(x, p[mid].as_slice()) {
            assert forall|k: int| mid <= k < p.len() implies lex_le(x@, #[trigger] v[k]) by {
                if k > mid {
                    lemma_lex_transitive(x@, v[mid as int], v[k]);
                }
            }
            hi = mid;
        } else {
            assert forall|k: int| 0 <= k < mid + 1 implies !lex_le(x@, #[trigger] v[k]) by {
                if k < mid && lex_le(x@, v[k]) {
                    lemma_lex_transitive(x@, v[k], v[mid as int]);
                }
            }
            lo = mid + 1;
        }
    }
    lo
}

/// The first position of ascending `p` whose value is above `x`.
fn upper_bound(p: &Vec<Vec<u8>>, x: &[u8]) -> (r: usize)
    requires
        ascending(views(p@)),
    ensures
        r <= p.len(),
        forall|k: int| 0 <= k < r ==> lex_le(#[trigger] views(p@)[k], x@),
        forall|k: int| r <= k < p.len() ==> !lex_le(#[trigger] views(p@)[k], x@),
{
    let ghost v = views(p@);
    let mut lo: usize = 0;
    let mut hi: usize = p.len();
    while lo < hi
        invariant
            lo <= hi <= p.len(),
            v == views(p@),
            ascending(v),
            forall|k: int| 0 <= k < lo ==> lex_le(#[trigger] v[k], x@),
            forall|k: int| hi <= k < p.len() ==> !lex_le(#[trigger] v[k], x@),
        decreases hi - lo,
    {
        let mid = lo + (hi - lo) / 2;
        assert(v[mid as int] == p@[mid as int]@);
        if !bytes_le(p[mid].as_slice(), x) {
            assert forall|k: int| mid <= k < p.len() implies !lex_le(#[trigger] v[k], x@) by {
                if k > mid && lex_le(v[k], x@) {
                    lemma_lex_transitive(v[mid as int], v[k], x@);
                }
            }
            hi = mid;
        } else {
            assert forall|k: int| 0 <= k < mid + 1 implies lex_le(#[trigger] v[k], x@) by {
                if k < mid {
                    lemma_lex_transitive(v[k], v[mid as int], x@);
                }
            }
            lo = mid + 1;
        }
    }
    lo
}

/// How often `x` occurs in ascending `p`.
fn count_sorted(p: &Vec<Vec<u8>>, x: &[u8]) -> (r: usize)
    requires
        ascending(views(p@)),
    ensures
        r == frequency(views(p@), x@),
{
    let ghost v = views(p@);
    let lo = lower_bound(p, x);
    let hi = upper_bound(p, x);
    if hi < lo {
        proof {
            lemma_lex_total(x@, v[hi as int]);
        }
        assert(false);
    }
    assert forall|k: int| 0 <= k < v.len() implies (v[k] == x@) == (lo <= k < hi) by {
        lemma_lex_reflexive(x@);
        if lo <= k < hi {
            lemma_lex_antisymmetric(x@, v[k]);
        }
    }
    proof {
        lemma_bracket_count(v, x@, lo as int, hi as int);
    }
    hi - lo
}

pub struct SampleBuffer {
    pub items: Vec<Vec<u8>>,
}

impl SampleBuffer {
    /// The samples, in the order they were added.
    pub open spec fn contents(&self) -> Seq<Seq<u8>> {
        self.items@.map_values(|v: Vec<u8>| v@)
    }

    pub fn new() -> (r: SampleBuffer)
        ensures
            r.contents() == Seq::<Seq<u8>>::empty(),
    {
        let r = SampleBuffer { items: Vec::new() };
        assert(r.contents() =~= Seq::<Seq<u8>>::empty());
        r
    }

    pub fn len(&self) -> (r: usize)
        ensures
            r == self.contents().len(),
    {
        self.items.len()
    }

    pub fn add(&mut self, sample: &[u8])
        ensures
            final(self).contents() == old(self).contents().push(sample@),
    {
        self.items.push(copy_bytes(sample));
        assert(self.contents() =~= old(self).contents().push(sample@));
    }

    /// Appends another buffer's samples after these.
    pub fn merge(&mut self, other: SampleBuffer)
        ensures
            final(self).contents() == old(self).contents() + other.contents(),
    {
        let ghost added = other.contents();
        let mut other = other;
        self.items.append(&mut other.items);
        assert(self.contents() =~= old(self).contents() + added);
    }

    /// How often `x` occurs among the samples.
    pub fn count_of(&self, x: &[u8]) -> (r: usize)
        ensures
            r == frequency(self.contents(), x@),
    {
        let ghost c = self.contents();
        let mut n: usize = 0;
        let mut j: usize = 0;
        assert(c.subrange(0, 0) =~= Seq::<Seq<u8>>::empty());
        while j < self.items.len()
            invariant
                j <= self.items.len(),
                c == self.contents(),
                n <= j,
                n == frequency(c.subrange(0, j as int), x@),
            decreases self.items.len() - j,
        {
            assert(c.subrange(0, j + 1) =~= c.subrange(0, j as int).push(c[j as int]));
            if bytes_eq(self.items[j].as_slice(), x) {
                n = n + 1;
            }
            j = j + 1;
        }
        assert(c.subrange(0, j as int) =~= c);
        n
    }

    /// The samples in ascending order.
    fn sorted(&self) -> (r: Vec<Vec<u8>>)
        ensures
            views(r@).to_multiset() == self.contents().to_multiset(),
            ascending(views(r@)),
    {
        let mut r: Vec<Vec<u8>> = Vec::with_capacity(self.items.len());
        let mut i: usize = 0;
        while i < self.items.len()
            invariant
                i <= self.items.len(),
                views(r@) == self.contents().subrange(0, i as int),
            decreases self.items.len() - i,
        {
            let ghost before = r@;
            assert(views(before).len() == before.len());
            r.push(copy_bytes(self.items[i].as_slice()));
            assert(forall|k: int| 0 <= k < i ==> r@[k] == before[k]);
            assert(forall|k: int| 0 <= k < i ==> views(before)[k] == #[trigger] views(r@)[k]);
            i = i + 1;
            assert(views(r@) =~= self.contents().subrange(0, i as int));
        }
        assert(self.contents().subrange(0, i as int) =~= self.contents());
        sort_samples(&mut r);
        r
    }

    /// The number of distinct samples.
    pub fn cardinality(&self) -> (r: usize)
        ensures
            r == self.contents().to_set().len(),
    {
        let sorted = self.sorted();
        let ghost p = views(sorted@);
        let ghost c = self.contents();
        assert(p.to_set() =~= c.to_set()) by {
            assert forall|x: Seq<u8>| p.contains(x) <==> c.contains(x) by {
                p.to_multiset_ensures();
                c.to_multiset_ensures();
                assert(p.to_multiset().count(x) == c.to_multiset().count(x));
            }
        }
        let mut n: usize = 0;
        let mut i: usize = 0;
        assert(p.subrange(0, 0).to_set() =~= Set::<Seq<u8>>::empty());
        while i < sorted.len()
            invariant
                i <= sorted.len(),
                p == views(sorted@),
                ascending(p),
                n <= i,
                n == p.subrange(0, i as int).to_set().len(),
            decreases sorted.len() - i,
        {
            let ghost prefix = p.subrange(0, i as int);
            assert(p.subrange(0, i + 1) =~= prefix.push(p[i as int]));
            proof {
                prefix.lemma_push_to_set_commute(p[i as int]);
                vstd::seq_lib::seq_to_set_is_finite(prefix);
                lemma_sorted_repeat(p, i as int);
            }
            if i == 0 || !bytes_eq(sorted[i - 1].as_slice(), sorted[i].as_slice()) {
                n = n + 1;
            } else {
                assert(prefix.to_set().insert(p[i as int]) =~= prefix.to_set());
            }
            i = i + 1;
        }
        assert(p.subrange(0, i as int) =~= p);
        n
    }

    /// Where the most frequent sample first occurs; `None` when empty.
    pub fn mode_position(&self) -> (r: Option<usize>)
        ensures
            r.is_none() == (self.contents().len() == 0),
            r.is_some() ==> is_mode_position(self.contents(), r.unwrap() as int),
    {
        let ghost c = self.contents();
        if self.items.len() == 0 {
            return None;
        }
        let sorted = self.sorted();
        assert forall|x: Seq<u8>| frequency(views(sorted@), x) == #[trigger] frequency(c, x) by {}
        let mut best: usize = 0;
        let mut best_n: usize = count_sorted(&sorted, self.items[0].as_slice());
        let mut i: usize = 1;
        while i < self.items.len()
            invariant
                1 <= i <= self.items.len(),
                c == self.contents(),
                ascending(views(sorted@)),
                forall|x: Seq<u8>| frequency(views(sorted@), x) == #[trigger] frequency(c, x),
                best < i,
                best_n == frequency(c, c[best as int]),
                forall|k: int| 0 <= k < i ==> frequency(c, #[trigger] c[k]) <= best_n,
                forall|k: int| 0 <= k < best ==> frequency(c, #[trigger] c[k]) < best_n,
            decreases self.items.len() - i,
        {
            let n = count_sorted(&sorted, self.items[i].as_slice());
            if n > best_n {
                best = i;
                best_n = n;
            }
            i = i + 1;
        }
        Some(best)
    }

    /// The most frequent sample, the first to occur among equally frequent
    /// ones; `None` when empty.
    pub fn mode(&self) -> (r: Option<Vec<u8>>)
        ensures
            r.is_none() == (self.contents().len() == 0),
            r.is_some() ==> exists|b: int|
                is_mode_position(self.contents(), b) && r.unwrap()@ == self.contents()[b],
    {
        match self.mode_position() {
            None => None,
            Some(b) => Some(copy_bytes(self.items[b].as_slice())),
        }
    }
}

/// Merging buffers unites their distinct values: the cardinality after a
/// merge counts the values distinct across both operands.
pub proof fn lemma_merged_distinct(a: Seq<Seq<u8>>, b: Seq<Seq<u8>>)
    ensures
        (a + b).to_set() == a.to_set().union(b.to_set()),
{
    assert forall|x: Seq<u8>| (a + b).to_set().contains(x) <==> a.to_set().union(b.to_set()).contains(x) by {
        if (a + b).contains(x) {
            let k = choose|k: int| 0 <= k < (a + b).len() && (a + b)[k] == x;
            if k >= a.len() {
                assert(b[k - a.len()] == x);
            }
        }
        if a.contains(x) {
            let k = choose|k: int| 0 <= k < a.len() && a[k] == x;
            assert((a + b)[k] == x);
        }
        if b.contains(x) {
            let k = choose|k: int| 0 <= k < b.len() && b[k] == x;
            assert((a + b)[k + a.len()] == x);
        }
    }
    assert((a + b).to_set() =~= a.to_set().union(b.to_set()));
}

/// Merging buffers adds frequencies, so a mode taken after a merge has the
/// greatest frequency over the union of both operands.
pub proof fn lemma_merged_frequency(a: Seq<Seq<u8>>, b: Seq<Seq<u8>>, x: Seq<u8>)
    ensures
        frequency(a + b, x) == frequency(a, x) + frequency(b, x),
{
    vstd::seq_lib::lemma_multiset_commutative(a, b);
}

} // verus!
