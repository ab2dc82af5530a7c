//! Running `{min, max, sum, count}` statistics for one key.
//!
//! Values are signed fixed-point decimals scaled by 10, so they fit in
//! `i32`; the sum is widened to `i64`. With the observation count capped at
//! `MAX_COUNT`, the sum can never overflow its 64-bit accumulator.

use vstd::prelude::*;

verus! {

/// Largest observation count one aggregate may reach. Every observation
/// fits in 32 bits, so a sum of at most `MAX_COUNT` observations stays
/// within `i64`.
pub const MAX_COUNT: i64 = 0x1_0000_0000;

/// The mathematical content of an aggregate, free of machine types.
pub struct AggModel {
    pub min: int,
    pub max: int,
    pub sum: int,
    pub count: int,
}

pub open spec fn imin(a: int, b: int) -> int {
    if a <= b {
        a
    } else {
        b
    }
}

pub open spec fn imax(a: int, b: int) -> int {
    if a >= b {
        a
    } else {
        b
    }
}

/// The aggregate holding no observations.
pub open spec fn empty_agg() -> AggModel {
    AggModel { min: i32::MAX as int, max: i32::MIN as int, sum: 0, count: 0 }
}

/// The aggregate of a single observation.
pub open spec fn unit_agg(v: int) -> AggModel {
    AggModel { min: v, max: v, sum: v, count: 1 }
}

/// One observation folded into an aggregate.
pub open spec fn upd_agg(a: AggModel, v: int) -> AggModel {
    AggModel {
        min: imin(a.min, v),
        max: imax(a.max, v),
        sum: a.sum + v,
        count: a.count + 1,
    }
}

/// Elementwise combination of two aggregates of the same key.
pub open spec fn combine_agg(a: AggModel, b: AggModel) -> AggModel {
    AggModel {
        min: imin(a.min, b.min),
        max: imax(a.max, b.max),
        sum: a.sum + b.sum,
        count: a.count + b.count,
    }
}

/// Well-formedness of an aggregate: observations are 32-bit scaled values,
/// and the sum is bracketed by `count * min` and `count * max` (the
/// scaled-integer form of `min <= sum/count <= max`).
pub open spec fn agg_wf(a: AggModel) -> bool {
    &&& 0 <= a.count <= MAX_COUNT as int
    &&& a.count == 0 ==> a == empty_agg()
    &&& a.count > 0 ==> {
        &&& i32::MIN as int <= a.min <= a.max <= i32::MAX as int
        &&& a.count * a.min <= a.sum
        &&& a.sum <= a.count * a.max
    }
}

/// Combining aggregates is commutative: folding two partial results in
/// either order yields the same statistics.
pub proof fn lemma_combine_commutative(a: AggModel, b: AggModel)
    ensures
        combine_agg(a, b) == combine_agg(b, a),
{
}

/// Combining aggregates is associative: a fold over any grouping of
/// partial results yields the same statistics.
pub proof fn lemma_combine_associative(a: AggModel, b: AggModel, c: AggModel)
    ensures
        combine_agg(combine_agg(a, b), c) == combine_agg(a, combine_agg(b, c)),
{
}

/// The empty aggregate is the identity of combination.
pub proof fn lemma_combine_empty(a: AggModel)
    requires
        agg_wf(a),
    ensures
        combine_agg(empty_agg(), a) == a,
        combine_agg(a, empty_agg()) == a,
{
}

/// Folding one observation is the same as combining with the singleton
/// aggregate of that observation, so a one-pass scan and a merge of
/// per-partition scans agree per key.
pub proof fn lemma_update_is_combine_unit(a: AggModel, v: int)
    ensures
        upd_agg(a, v) == combine_agg(a, unit_agg(v)),
{
}

/// The one-pass aggregate of a sequence of observations: every value
/// folded, in order, into the empty aggregate.
pub open spec fn agg_of_seq(vs: Seq<int>) -> AggModel
    decreases vs.len(),
{
    if vs.len() == 0 {
        empty_agg()
    } else {
        upd_agg(agg_of_seq(vs.drop_last()), vs.last())
    }
}

proof fn lemma_agg_of_seq_bounds(vs: Seq<int>)
    ensures
        agg_of_seq(vs).min <= i32::MAX as int,
        agg_of_seq(vs).max >= i32::MIN as int,
    decreases vs.len(),
{
    if vs.len() > 0 {
        lemma_agg_of_seq_bounds(vs.drop_last());
    }
}

/// Aggregating a whole dataset in one pass equals aggregating its parts
/// and combining the partial results: the fold is a homomorphism onto
/// combination. With commutativity and associativity of combination, any
/// order or grouping of the parts yields the same statistics.
pub proof fn lemma_agg_of_seq_concat(s1: Seq<int>, s2: Seq<int>)
    ensures
        agg_of_seq(s1 + s2) == combine_agg(agg_of_seq(s1), agg_of_seq(s2)),
    decreases s2.len(),
{
    if s2.len() == 0 {
        assert(s1 + s2 =~= s1);
        lemma_agg_of_seq_bounds(s1);
        assert(combine_agg(agg_of_seq(s1), empty_agg()) == agg_of_seq(s1));
    } else {
        let s2p = s2.drop_last();
        let v = s2.last();
        assert((s1 + s2).drop_last() =~= s1 + s2p);
        assert((s1 + s2).last() == v);
        lemma_agg_of_seq_concat(s1, s2p);
        lemma_update_is_combine_unit(agg_of_seq(s2p), v);
        lemma_update_is_combine_unit(combine_agg(agg_of_seq(s1), agg_of_seq(s2p)), v);
        lemma_combine_associative(agg_of_seq(s1), agg_of_seq(s2p), unit_agg(v));
    }
}

/// Combination preserves well-formedness, provided the combined count
/// stays within `MAX_COUNT`.
pub proof fn lemma_combine_wf(a: AggModel, b: AggModel)
    requires
        agg_wf(a),
        agg_wf(b),
        a.count + b.count <= MAX_COUNT as int,
    ensures
        agg_wf(combine_agg(a, b)),
{
    let c = combine_agg(a, b);
    if a.count > 0 && b.count > 0 {
        assert(c.count * c.min <= c.sum && c.sum <= c.count * c.max) by (nonlinear_arith)
            requires
                a.count > 0,
                b.count > 0,
                a.count * a.min <= a.sum <= a.count * a.max,
                b.count * b.min <= b.sum <= b.count * b.max,
                c.min == imin(a.min, b.min),
                c.max == imax(a.max, b.max),
                c.sum == a.sum + b.sum,
                c.count == a.count + b.count,
        ;
    }
}

/// For every key with at least one observation, the mean lies between the
/// minimum and the maximum: `min <= sum / count <= max`.
pub proof fn lemma_aggregate_ordering(a: AggModel)
    requires
        agg_wf(a),
        a.count > 0,
    ensures
        a.min <= a.sum / a.count,
        a.sum / a.count <= a.max,
{
    assert(a.min <= a.sum / a.count && a.sum / a.count <= a.max) by (nonlinear_arith)
        requires
            a.count > 0,
            a.count * a.min <= a.sum,
            a.sum <= a.count * a.max,
    ;
}

/// Running statistics for one key. `name` holds the key's exact bytes:
/// the hash is only a bucket-selection shortcut, never key identity.
#[derive(Debug)]
pub struct Stats {
    pub name: Vec<u8>,
    pub min: i32,
    pub max: i32,
    pub sum: i64,
    pub count: i64,
}

impl Stats {
    /// The mathematical aggregate this record represents.
    pub open spec fn stats(&self) -> AggModel {
        AggModel {
            min: self.min as int,
            max: self.max as int,
            sum: self.sum as int,
            count: self.count as int,
        }
    }

    pub open spec fn wf(&self) -> bool {
        agg_wf(self.stats())
    }

    /// A fresh aggregate for `name` with no observations yet.
    pub fn new(name: &[u8]) -> (r: Stats)
        ensures
            r.name@ == name@,
            r.stats() == empty_agg(),
            r.wf(),
    {
        Stats {
            name: vstd::slice::slice_to_vec(name),
            min: i32::MAX,
            max: i32::MIN,
            sum: 0,
            count: 0,
        }
    }

    /// Folds one observation into the aggregate.
    pub fn update(&mut self, value: i32)
        requires
            old(self).wf(),
            old(self).count < MAX_COUNT,
        ensures
            final(self).wf(),
            final(self).name@ == old(self).name@,
            final(self).stats() == upd_agg(old(self).stats(), value as int),
    {
        proof {
            lemma_update_is_combine_unit(self.stats(), value as int);
            lemma_combine_wf(self.stats(), unit_agg(value as int));
            let a = old(self).stats();
            let v = value as int;
            assert(i64::MIN as int <= a.sum + v && a.sum + v <= i64::MAX as int)
                by (nonlinear_arith)
                requires
                    0 <= a.count < 0x1_0000_0000,
                    a.count == 0 ==> a.sum == 0,
                    a.count > 0 ==> a.count * a.min <= a.sum && a.sum <= a.count * a.max
                        && i32::MIN as int <= a.min && a.max <= i32::MAX as int,
                    i32::MIN as int <= v <= i32::MAX as int,
            ;
        }
        if value < self.min {
            self.min = value;
        }
        if value > self.max {
            self.max = value;
        }
        self.sum = self.sum + value as i64;
        self.count = self.count + 1;
    }

    /// An exact copy of this aggregate (key bytes included).
    pub fn duplicate(&self) -> (r: Stats)
        ensures
            r.name@ == self.name@,
            r.stats() == self.stats(),
    {
        Stats {
            name: vstd::slice::slice_to_vec(self.name.as_slice()),
            min: self.min,
            max: self.max,
            sum: self.sum,
            count: self.count,
        }
    }

    /// Combines another aggregate of the same key into this one.
    pub fn merge(&mut self, other: &Self)
        requires
            old(self).wf(),
            other.wf(),
            old(self).count + other.count <= MAX_COUNT,
        ensures
            final(self).wf(),
            final(self).name@ == old(self).name@,
            final(self).stats() == combine_agg(old(self).stats(), other.stats()),
    {
        proof {
            lemma_combine_wf(self.stats(), other.stats());
            let a = old(self).stats();
            let b = other.stats();
            assert(i64::MIN as int <= a.sum + b.sum && a.sum + b.sum <= i64::MAX as int)
                by (nonlinear_arith)
                requires
                    0 <= a.count,
                    0 <= b.count,
                    a.count + b.count <= 0x1_0000_0000,
                    a.count == 0 ==> a.sum == 0,
                    b.count == 0 ==> b.sum == 0,
                    a.count > 0 ==> a.count * a.min <= a.sum && a.sum <= a.count * a.max
                        && i32::MIN as int <= a.min && a.max <= i32::MAX as int,
                    b.count > 0 ==> b.count * b.min <= b.sum && b.sum <= b.count * b.max
                        && i32::MIN as int <= b.min && b.max <= i32::MAX as int,
            ;
        }
        if other.min < self.min {
            self.min = other.min;
        }
        if other.max > self.max {
            self.max = other.max;
        }
        self.sum = self.sum + other.sum;
        self.count = self.count + other.count;
    }
}

} // verus!
