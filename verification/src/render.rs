//! Rendering the final aggregates as `{key=min/mean/max, ...}` with one
//! fractional digit per number and entries sorted by key in
//! byte-lexicographic order.
//!
//! All numbers are scaled-by-10 integers; the mean is rounded half away
//! from zero. No floating point is involved anywhere.

use vstd::prelude::*;
use crate::agg::{AggModel, Stats};
use crate::hash_table::HashTable;

verus! {

/// The decimal digit character for `d`.
pub open spec fn digit_char(d: int) -> char {
    ((48 + d) as u8) as char
}

/// The decimal digits of a non-negative integer.
pub open spec fn dec_str(n: int) -> Seq<char>
    decreases n,
{
    if n < 10 {
        seq![digit_char(n)]
    } else {
        dec_str(n / 10).push(digit_char(n % 10))
    }
}

/// A scaled-by-10 integer rendered as a fixed-point decimal with one
/// fractional digit.
pub open spec fn fmt_fixed(v: int) -> Seq<char> {
    let mag = if v < 0 {
        -v
    } else {
        v
    };
    let sign: Seq<char> = if v < 0 {
        seq!['-']
    } else {
        Seq::empty()
    };
    sign + dec_str(mag / 10) + seq!['.'] + dec_str(mag % 10)
}

/// The scaled mean of an aggregate, rounded half away from zero.
pub open spec fn mean_scaled(sum: int, count: int) -> int
    recommends
        count > 0,
{
    let mag = if sum < 0 {
        -sum
    } else {
        sum
    };
    let q = (2 * mag + count) / (2 * count);
    if sum < 0 {
        -q
    } else {
        q
    }
}

/// One output entry: `key=min/mean/max`.
pub open spec fn render_stats(name: Seq<u8>, a: AggModel) -> Seq<char> {
    name.map_values(|b: u8| b as char) + seq!['='] + fmt_fixed(a.min) + seq!['/'] + fmt_fixed(
        mean_scaled(a.sum, a.count),
    ) + seq!['/'] + fmt_fixed(a.max)
}

/// Relies on `String::push` of std: it appends the given character to the
/// end of the string.
#[verifier::external_body]
fn push_char(s: &mut String, c: char)
    ensures
        final(s)@ == old(s)@.push(c),
{
    s.push(c);
}

/// Appends the decimal digits of `n`.
fn push_u64(s: &mut String, n: u64)
    ensures
        final(s)@ == old(s)@ + dec_str(n as int),
    decreases n,
{
    if n >= 10 {
        push_u64(s, n / 10);
    }
    let ghost mid = s@;
    push_char(s, ((48 + (n % 10)) as u8) as char);
    proof {
        if n < 10 {
            assert(s@ =~= old(s)@ + dec_str(n as int));
        } else {
            assert(mid == old(s)@ + dec_str(n as int / 10));
            assert(s@ =~= old(s)@ + dec_str(n as int));
        }
    }
}

/// Appends a scaled-by-10 integer as a fixed-point decimal.
fn push_fixed(s: &mut String, v: i64)
    requires
        v > i64::MIN,
    ensures
        final(s)@ == old(s)@ + fmt_fixed(v as int),
{
    if v < 0 {
        push_char(s, '-');
    }
    let mag: u64 = if v < 0 {
        (-v) as u64
    } else {
        v as u64
    };
    push_u64(s, mag / 10);
    push_char(s, '.');
    push_u64(s, mag % 10);
    proof {
        assert(s@ =~= old(s)@ + fmt_fixed(v as int));
    }
}

/// Byte-lexicographic strict order on keys.
pub open spec fn lex_lt(a: Seq<u8>, b: Seq<u8>) -> bool
    decreases a.len(),
{
    if b.len() == 0 {
        false
    } else if a.len() == 0 {
        true
    } else if a[0] < b[0] {
        true
    } else if a[0] > b[0] {
        false
    } else {
        lex_lt(a.subrange(1, a.len() as int), b.subrange(1, b.len() as int))
    }
}

/// Two distinct keys are strictly ordered one way or the other.
pub proof fn lemma_lex_connex(a: Seq<u8>, b: Seq<u8>)
    ensures
        a == b || lex_lt(a, b) || lex_lt(b, a),
    decreases a.len(),
{
    if a.len() == 0 && b.len() == 0 {
        assert(a =~= b);
    } else if a.len() > 0 && b.len() > 0 && a[0] == b[0] {
        let ta = a.subrange(1, a.len() as int);
        let tb = b.subrange(1, b.len() as int);
        lemma_lex_connex(ta, tb);
        if ta == tb {
            assert(ta.len() == a.len() - 1);
            assert(tb.len() == b.len() - 1);
            assert(a.len() == b.len());
            assert forall|i: int| 0 <= i < a.len() implies a[i] == b[i] by {
                if i > 0 {
                    assert(ta[i - 1] == a[i]);
                    assert(tb[i - 1] == b[i]);
                }
            }
            assert(a =~= b);
        }
    }
}

pub proof fn lemma_lex_trans(a: Seq<u8>, b: Seq<u8>, c: Seq<u8>)
    requires
        lex_lt(a, b),
        lex_lt(b, c),
    ensures
        lex_lt(a, c),
    decreases a.len(), b.len(), c.len(),
{
    if a.len() > 0 && b.len() > 0 && c.len() > 0 && a[0] == b[0] && b[0] == c[0] {
        lemma_lex_trans(
            a.subrange(1, a.len() as int),
            b.subrange(1, b.len() as int),
            c.subrange(1, c.len() as int),
        );
    }
}

/// The prefix `v[0..n]` is strictly sorted by key.
pub open spec fn sorted_upto(v: Seq<(u64, Stats)>, n: int) -> bool {
    forall|x: int, y: int|
        0 <= x < y < n ==> lex_lt((#[trigger] v[x]).1.name@, (#[trigger] v[y]).1.name@)
}

/// The scaled mean, computed exactly in wide integer arithmetic.
fn compute_mean(sum: i64, count: i64) -> (r: i64)
    requires
        count > 0,
        -(count as int) * 0x8000_0000 <= sum as int <= (count as int) * 0x7FFF_FFFF,
    ensures
        r as int == mean_scaled(sum as int, count as int),
        -0x8000_0000 <= r as int <= 0x8000_0000,
{
    let neg = sum < 0;
    let mag: u128 = if sum < 0 {
        (-(sum as i128)) as u128
    } else {
        sum as u128
    };
    let c: u128 = count as u128;
    proof {
        assert(mag as int <= c as int * 0x8000_0000) by (nonlinear_arith)
            requires
                c as int > 0,
                -(c as int * 0x8000_0000) <= sum as int <= c as int * 0x7FFF_FFFF,
                mag as int == (if (sum as int) < 0 {
                    -(sum as int)
                } else {
                    sum as int
                }),
        ;
        assert(2 * (mag as int) + c as int <= 2 * (c as int) * 0x8000_0000 + c as int)
            by (nonlinear_arith)
            requires
                mag as int <= c as int * 0x8000_0000,
        ;
    }
    let q: u128 = (2 * mag + c) / (2 * c);
    proof {
        assert(0 <= q as int <= 0x8000_0000) by (nonlinear_arith)
            requires
                c as int > 0,
                mag as int >= 0,
                mag as int <= c as int * 0x8000_0000,
                q as int == (2 * (mag as int) + c as int) / (2 * (c as int)),
        ;
    }
    if neg {
        -(q as i64)
    } else {
        q as i64
    }
}

impl Stats {
    /// Renders this aggregate as `key=min/mean/max`, each number with one
    /// fractional digit, the mean rounded half away from zero.
    pub fn to_string(&self) -> (r: String)
        requires
            self.wf(),
            self.count > 0,
        ensures
            r@ == render_stats(self.name@, self.stats()),
    {
        let mut s = String::new();
        let mut i: usize = 0;
        while i < self.name.len()
            invariant
                i <= self.name@.len(),
                s@ == self.name@.subrange(0, i as int).map_values(|b: u8| b as char),
            decreases self.name@.len() - i,
        {
            push_char(&mut s, self.name[i] as char);
            proof {
                assert(s@ =~= self.name@.subrange(0, i + 1).map_values(|b: u8| b as char));
            }
            i = i + 1;
        }
        proof {
            assert(self.name@.subrange(0, self.name@.len() as int) =~= self.name@);
        }
        push_char(&mut s, '=');
        push_fixed(&mut s, self.min as i64);
        push_char(&mut s, '/');
        proof {
            let a = self.stats();
            assert(-(a.count * 0x8000_0000) <= a.sum && a.sum <= a.count * 0x7FFF_FFFF)
                by (nonlinear_arith)
                requires
                    a.count > 0,
                    a.count * a.min <= a.sum <= a.count * a.max,
                    -0x8000_0000 <= a.min,
                    a.max <= 0x7FFF_FFFF,
            ;
        }
        let mean = compute_mean(self.sum, self.count);
        push_fixed(&mut s, mean);
        push_char(&mut s, '/');
        push_fixed(&mut s, self.max as i64);
        proof {
            assert(s@ =~= render_stats(self.name@, self.stats()));
        }
        s
    }
}

/// Byte-lexicographic strict comparison of two keys.
pub fn bytes_lt(a: &[u8], b: &[u8]) -> (r: bool)
    ensures
        r == lex_lt(a@, b@),
    decreases a@.len(),
{
    if b.len() == 0 {
        false
    } else if a.len() == 0 {
        true
    } else if a[0] < b[0] {
        true
    } else if a[0] > b[0] {
        false
    } else {
        bytes_lt(&a[1..a.len()], &b[1..b.len()])
    }
}

impl HashTable {
    /// Every entry of the table, sorted by key in byte-lexicographic
    /// order; each stored key appears exactly once, with its aggregate.
    pub fn sorted_entries(&self) -> (r: Vec<(u64, Stats)>)
        requires
            self.wf(),
        ensures
            forall|j: int|
                0 <= j < r@.len() ==> {
                    let e = #[trigger] r@[j];
                    &&& self@.contains_key(e.1.name@)
                    &&& e.1.stats() == self@[e.1.name@]
                    &&& e.1.wf()
                    &&& e.1.count > 0
                },
            forall|k: Seq<u8>|
                self@.contains_key(k) ==> exists|j: int|
                    0 <= j < r@.len() && (#[trigger] r@[j]).1.name@ == k,
            sorted_upto(r@, r@.len() as int),
    {
        let mut v = self.key_set();
        let mut i: usize = 1;
        while i < v.len()
            invariant
                self.wf(),
                forall|j: int|
                    0 <= j < v@.len() ==> {
                        let e = #[trigger] v@[j];
                        &&& self@.contains_key(e.1.name@)
                        &&& e.1.stats() == self@[e.1.name@]
                        &&& e.1.wf()
                        &&& e.1.count > 0
                    },
                forall|k: Seq<u8>|
                    self@.contains_key(k) ==> exists|j: int|
                        0 <= j < v@.len() && (#[trigger] v@[j]).1.name@ == k,
                forall|j1: int, j2: int|
                    0 <= j1 < v@.len() && 0 <= j2 < v@.len() && j1 != j2 ==> (
                    #[trigger] v@[j1]).1.name@ != (#[trigger] v@[j2]).1.name@,
                1 <= i,
                v@.len() > 0 ==> i <= v@.len(),
                v@.len() == 0 ==> i == 1,
                sorted_upto(v@, i as int),
            decreases v@.len() - i,
        {
            let ghost ov = v@;
            let e = v.remove(i);
            let ghost mid = v@;
            let mut p: usize = 0;
            while p < i && !bytes_lt(e.1.name.as_slice(), v[p].1.name.as_slice())
                invariant
                    p <= i,
                    i < ov.len(),
                    mid == ov.remove(i as int),
                    v@ == mid,
                    e == ov[i as int],
                    forall|j: int| 0 <= j < p ==> !lex_lt(e.1.name@, (#[trigger] mid[j]).1.name@),
                decreases i - p,
            {
                p = p + 1;
            }
            v.insert(p, e);
            proof {
                let nv = v@;
                assert forall|j: int| 0 <= j < nv.len() implies (#[trigger] nv[j]) == (if j
                    < p {
                    ov[j]
                } else if j == p {
                    ov[i as int]
                } else if j <= i {
                    ov[j - 1]
                } else {
                    ov[j]
                }) by {
                    assert(nv == mid.insert(p as int, e));
                    assert(mid == ov.remove(i as int));
                }
                // entries, completeness and distinctness carry over: the
                // new order is a permutation of the old one
                assert forall|k: Seq<u8>| self@.contains_key(k) implies exists|j: int|
                    0 <= j < nv.len() && (#[trigger] nv[j]).1.name@ == k by {
                    let w = choose|w: int| 0 <= w < ov.len() && (#[trigger] ov[w]).1.name@ == k;
                    if w == i as int {
                        assert(nv[p as int].1.name@ == k);
                    } else if w < p as int {
                        assert(nv[w].1.name@ == k);
                    } else if w < i as int {
                        assert(nv[w + 1].1.name@ == k);
                    } else {
                        assert(nv[w].1.name@ == k);
                    }
                }
                assert forall|j1: int, j2: int|
                    0 <= j1 < nv.len() && 0 <= j2 < nv.len() && j1 != j2 implies (
                #[trigger] nv[j1]).1.name@ != (#[trigger] nv[j2]).1.name@ by {}
                // sortedness of the prefix grows by one
                assert forall|x: int, y: int| 0 <= x < y < i + 1 implies lex_lt(
                    (#[trigger] nv[x]).1.name@,
                    (#[trigger] nv[y]).1.name@,
                ) by {
                    if y == p as int {
                        // x < p: e is not below ov[x], and keys differ
                        assert(!lex_lt(e.1.name@, ov[x].1.name@));
                        lemma_lex_connex(e.1.name@, ov[x].1.name@);
                    } else if x == p as int {
                        // p < y <= i: e is strictly below ov[p], which is
                        // below ov[y-1]
                        assert(p < i);
                        assert(lex_lt(e.1.name@, mid[p as int].1.name@));
                        if y - 1 > p {
                            lemma_lex_trans(e.1.name@, ov[p as int].1.name@, ov[y - 1].1.name@);
                        }
                    } else if x < p && y > p {
                        assert(!lex_lt(e.1.name@, ov[x].1.name@));
                        lemma_lex_connex(e.1.name@, ov[x].1.name@);
                        assert(lex_lt(ov[x].1.name@, e.1.name@));
                        if y <= i {
                            assert(p < i);
                            assert(lex_lt(e.1.name@, ov[p as int].1.name@));
                            if y - 1 > p {
                                lemma_lex_trans(
                                    e.1.name@,
                                    ov[p as int].1.name@,
                                    ov[y - 1].1.name@,
                                );
                            }
                            lemma_lex_trans(ov[x].1.name@, e.1.name@, nv[y].1.name@);
                        }
                    }
                }
            }
            i = i + 1;
        }
        v
    }
}

/// The first `n` entries rendered, each followed by `, ` unless it is
/// the last entry of the whole list.
pub open spec fn render_prefix(es: Seq<(u64, Stats)>, n: int) -> Seq<char>
    decreases n,
{
    if n <= 0 {
        Seq::empty()
    } else {
        let item = render_stats(es[n - 1].1.name@, es[n - 1].1.stats());
        let sep: Seq<char> = if n < es.len() {
            seq![',', ' ']
        } else {
            Seq::empty()
        };
        render_prefix(es, n - 1) + item + sep
    }
}

/// The whole output line for a sorted entry list.
pub open spec fn render_all(es: Seq<(u64, Stats)>) -> Seq<char> {
    seq!['{'] + render_prefix(es, es.len() as int) + seq!['}']
}

/// `es` is exactly the table `m`, sorted by key.
pub open spec fn sorted_view(m: Map<Seq<u8>, AggModel>, es: Seq<(u64, Stats)>) -> bool {
    &&& forall|j: int|
        0 <= j < es.len() ==> {
            let e = #[trigger] es[j];
            &&& m.contains_key(e.1.name@)
            &&& e.1.stats() == m[e.1.name@]
        }
    &&& forall|k: Seq<u8>|
        m.contains_key(k) ==> exists|j: int| 0 <= j < es.len() && (#[trigger] es[j]).1.name@ == k
    &&& sorted_upto(es, es.len() as int)
}

/// Renders the whole table: `{key=min/mean/max, ...}`, entries sorted by
/// key in byte-lexicographic order.
pub fn format_output(t: &HashTable) -> (r: String)
    requires
        t.wf(),
    ensures
        exists|es: Seq<(u64, Stats)>| #[trigger] sorted_view(t@, es) && r@ == render_all(es),
{
    let es = t.sorted_entries();
    proof {
        t.lemma_values_wf();
    }
    let mut s = String::new();
    push_char(&mut s, '{');
    let mut i: usize = 0;
    while i < es.len()
        invariant
            t.wf(),
            forall|j: int|
                0 <= j < es@.len() ==> {
                    let e = #[trigger] es@[j];
                    &&& t@.contains_key(e.1.name@)
                    &&& e.1.stats() == t@[e.1.name@]
                    &&& e.1.wf()
                    &&& e.1.count > 0
                },
            i <= es@.len(),
            s@ == seq!['{'] + render_prefix(es@, i as int),
        decreases es@.len() - i,
    {
        let item = es[i].1.to_string();
        s.append(item.as_str());
        if i + 1 < es.len() {
            push_char(&mut s, ',');
            push_char(&mut s, ' ');
        }
        proof {
            assert(s@ =~= seq!['{'] + render_prefix(es@, i + 1));
        }
        i = i + 1;
    }
    push_char(&mut s, '}');
    proof {
        assert(s@ =~= render_all(es@));
        assert(sorted_view(t@, es@));
    }
    s
}

} // verus!
