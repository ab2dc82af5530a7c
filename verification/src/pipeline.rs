//! The scan-and-aggregate pipeline over a byte arena.
//!
//! [`partition`] splits the arena into contiguous, newline-aligned slices;
//! [`scan_chunk`] parses one slice record by record into a fresh
//! [`HashTable`]; [`aggregate`] scans the whole arena in one pass. The
//! embedding program may run one `scan_chunk` per thread over the
//! partitions and fold the tables with [`HashTable::merge`];
//! [`lemma_scan_split`] shows that this yields exactly the one-pass result.

use vstd::prelude::*;
use crate::agg::{AggModel, unit_agg, upd_agg};
use crate::hash_table::HashTable;
use crate::parse::{ParseError, parse_record, parse_record_at, lemma_parse_advances, find_next,
    find_from, lemma_find_from};

verus! {

/// Inputs are limited to 16 GiB: every record is at least 5 bytes, so no
/// key can be observed more often than an aggregate's count may hold.
pub const MAX_INPUT_LEN: u64 = 0x4_0000_0000;

/// The outcome of scanning a byte range: the per-key aggregates and the
/// final cursor, or the offset of the first malformed record.
pub enum ScanResult {
    Done { m: Map<Seq<u8>, AggModel>, cursor: int },
    Fail { at: int },
}

impl ScanResult {
    /// The aggregate map of a completed scan.
    pub open spec fn map_of(self) -> Map<Seq<u8>, AggModel> {
        match self {
            ScanResult::Done { m, cursor: _ } => m,
            ScanResult::Fail { at: _ } => Map::empty(),
        }
    }

    /// The final cursor of a completed scan, or where a scan failed.
    pub open spec fn pos_of(self) -> int {
        match self {
            ScanResult::Done { m: _, cursor } => cursor,
            ScanResult::Fail { at } => at,
        }
    }
}

/// One observation folded into an aggregate map.
pub open spec fn upd_map(m: Map<Seq<u8>, AggModel>, k: Seq<u8>, v: int) -> Map<Seq<u8>, AggModel> {
    if m.contains_key(k) {
        m.insert(k, upd_agg(m[k], v))
    } else {
        m.insert(k, unit_agg(v))
    }
}

/// Scanning records from `pos` while the cursor is below `end`, folding
/// each observation into `acc`. Exactly the worker loop of the pipeline.
pub open spec fn scan(data: Seq<u8>, pos: int, end: int, acc: Map<Seq<u8>, AggModel>) -> ScanResult
    decreases (if pos < end {
        end - pos
    } else {
        0int
    }),
{
    if pos >= end {
        ScanResult::Done { m: acc, cursor: pos }
    } else {
        match parse_record_at(data, pos) {
            None => ScanResult::Fail { at: pos },
            Some((k, v, n)) => if n > pos {
                scan(data, n, end, upd_map(acc, k, v))
            } else {
                ScanResult::Fail { at: pos }
            },
        }
    }
}

/// Scans `data[start..end]` into a fresh table. `Ok` exactly when every
/// record parses, and then the table holds the scan's aggregate map;
/// otherwise the error carries the first malformed record's offset.
pub fn scan_chunk(data: &[u8], start: usize, end: usize) -> (r: Result<HashTable, ParseError>)
    requires
        start <= end <= data@.len(),
        data@.len() < MAX_INPUT_LEN,
    ensures
        match r {
            Ok(t) => {
                let s = scan(
                    data@,
                    start as int,
                    end as int,
                    Map::<Seq<u8>, AggModel>::empty(),
                );
                &&& t.wf()
                &&& s is Done
                &&& t@ == s.map_of()
            },
            Err(e) => {
                let s = scan(
                    data@,
                    start as int,
                    end as int,
                    Map::<Seq<u8>, AggModel>::empty(),
                );
                &&& s is Fail
                &&& e.offset as int == s.pos_of()
            },
        },
{
    let mut t = HashTable::new();
    let mut pos = start;
    while pos < end
        invariant
            t.wf(),
            start <= pos <= data@.len(),
            start <= end <= data@.len(),
            data@.len() < MAX_INPUT_LEN,
            scan(data@, start as int, end as int, Map::<Seq<u8>, AggModel>::empty()) == scan(
                data@,
                pos as int,
                end as int,
                t@,
            ),
            forall|k: Seq<u8>| t@.contains_key(k) ==> (#[trigger] t@[k]).count * 5 <= pos
                - start,
        decreases (if pos < end {
            end - pos
        } else {
            0int
        }),
    {
        match parse_record(data, pos) {
            None => {
                return Err(ParseError { offset: pos });
            },
            Some(rec) => {
                proof {
                    lemma_parse_advances(data@, pos as int);
                }
                let ghost pre = t@;
                let ghost kk = data@.subrange(rec.key_start as int, rec.key_end as int);
                let key = &data[rec.key_start..rec.key_end];
                t.insert_or_update(key, rec.value);
                proof {
                    assert(t@ == upd_map(pre, kk, rec.value as int));
                    assert(scan(data@, pos as int, end as int, pre) == scan(
                        data@,
                        rec.next as int,
                        end as int,
                        t@,
                    ));
                    assert forall|k: Seq<u8>| t@.contains_key(k) implies (
                    #[trigger] t@[k]).count * 5 <= rec.next - start by {
                        if k == kk {
                        } else {
                            assert(pre.contains_key(k) && t@[k] == pre[k]);
                        }
                    }
                }
                pos = rec.next;
            },
        }
    }
    Ok(t)
}

/// Scans the whole arena in one pass: the reference the parallel pipeline
/// is measured against.
pub fn aggregate(data: &[u8]) -> (r: Result<HashTable, ParseError>)
    requires
        data@.len() < MAX_INPUT_LEN,
    ensures
        match r {
            Ok(t) => {
                let s = scan(data@, 0, data@.len() as int, Map::<Seq<u8>, AggModel>::empty());
                &&& t.wf()
                &&& s is Done
                &&& t@ == s.map_of()
            },
            Err(e) => {
                let s = scan(data@, 0, data@.len() as int, Map::<Seq<u8>, AggModel>::empty());
                &&& s is Fail
                &&& e.offset as int == s.pos_of()
            },
        },
{
    scan_chunk(data, 0, data.len())
}

/// Splitting a scan at a consumed partition boundary changes nothing:
/// scanning `[a, c)` equals scanning `[a, e)` first (which consumes the
/// newline at `e`, leaving the cursor at `e + 1`) and going on from
/// `e + 1` with the accumulated map. With [`HashTable::merge`]'s contract
/// and the commutativity and associativity of aggregate combination, the
/// per-partition scans folded in any order equal the one-pass scan.
pub proof fn lemma_scan_split(data: Seq<u8>, a: int, e: int, c: int, acc: Map<Seq<u8>, AggModel>)
    requires
        0 <= a <= e,
        e + 1 <= c <= data.len(),
        scan(data, a, e, acc) is Done,
        scan(data, a, e, acc).pos_of() == e + 1,
    ensures
        scan(data, a, c, acc) == scan(data, e + 1, c, scan(data, a, e, acc).map_of()),
    decreases e - a,
{
    if a >= e {
        assert(scan(data, a, e, acc) == ScanResult::Done { m: acc, cursor: a });
        assert(false);
    } else {
        match parse_record_at(data, a) {
            None => {
                assert(scan(data, a, e, acc) == ScanResult::Fail { at: a });
                assert(false);
            },
            Some((k, v, n)) => {
                lemma_parse_advances(data, a);
                let acc2 = upd_map(acc, k, v);
                assert(scan(data, a, e, acc) == scan(data, n, e, acc2));
                assert(scan(data, a, c, acc) == scan(data, n, c, acc2));
                if n > e {
                    assert(scan(data, n, e, acc2) == ScanResult::Done { m: acc2, cursor: n });
                    assert(n == e + 1);
                } else {
                    lemma_scan_split(data, n, e, c, acc2);
                }
            },
        }
    }
}

/// A chunk scan that succeeds up to a newline boundary leaves its cursor
/// at the boundary's own newline consumed (`e + 1`), so
/// [`lemma_scan_split`] applies; the only other possibility is a cursor
/// exactly at `e`, and then the byte at `e` starts a record with an empty
/// key, on which the one-pass scan fails.
pub proof fn lemma_chunk_ends_at_boundary(data: Seq<u8>, a: int, e: int, acc: Map<Seq<u8>, AggModel>)
    requires
        0 <= a <= e < data.len(),
        data[e] == 10,
        scan(data, a, e, acc) is Done,
    ensures
        e <= scan(data, a, e, acc).pos_of() <= e + 1,
        scan(data, a, e, acc).pos_of() == e ==> parse_record_at(data, e) is None,
    decreases e - a,
{
    lemma_find_from(data, e, 59);
    let semi = find_from(data, e, 59);
    if semi < data.len() {
        assert(data[semi] == 59);
        assert(semi != e);
    }
    if a >= e {
        assert(scan(data, a, e, acc).pos_of() == e);
        assert(find_from(data, e, 10) == e);
    } else {
        match parse_record_at(data, a) {
            None => {
                assert(false);
            },
            Some((k, v, n)) => {
                lemma_parse_advances(data, a);
                lemma_find_from(data, a, 10);
                assert(find_from(data, a, 10) <= e);
                if n >= e {
                    assert(n <= e + 1);
                    if n == e {
                        assert(find_from(data, e, 10) == e);
                    }
                } else {
                    lemma_chunk_ends_at_boundary(data, n, e, upd_map(acc, k, v));
                }
            },
        }
    }
}

/// Splits `[0, len)` into contiguous, non-overlapping, newline-aligned
/// slices: each slice tentatively spans `len / parts` bytes and is cut at
/// the first newline at or after that point (or at the end of the data);
/// the byte after each cut (the separating newline) starts the next slice.
pub fn partition(data: &[u8], parts: usize) -> (r: Vec<(usize, usize)>)
    requires
        parts >= 1,
    ensures
        data@.len() == 0 ==> r@.len() == 0,
        data@.len() > 0 ==> r@.len() >= 1 && (#[trigger] r@[0]).0 == 0 && r@[r@.len() - 1].1
            + 1 >= data@.len(),
        forall|q: int| 0 <= q < r@.len() ==> (#[trigger] r@[q]).0 <= r@[q].1 <= data@.len(),
        forall|q: int|
            0 <= q < r@.len() ==> ((#[trigger] r@[q]).1 < data@.len() ==> data@[r@[q].1 as int]
                == 10),
        forall|q: int|
            0 <= q < r@.len() - 1 ==> (#[trigger] r@[q]).1 < data@.len() && r@[q + 1].0 == r@[
                q].1 + 1,
        forall|q: int|
            0 <= q < r@.len() ==> ((#[trigger] r@[q]).1 as int >= r@[q].0 + data@.len() as int
                / parts as int || r@[q].1 == data@.len()),
        forall|q: int, u: int|
            #![trigger r@[q], data@[u]]
            0 <= q < r@.len() && r@[q].0 + data@.len() as int / parts as int <= u < r@[q].1
                ==> data@[u] != 10,
{
    let len = data.len();
    let base = len / parts;
    let mut r: Vec<(usize, usize)> = Vec::new();
    let mut cursor: usize = 0;
    while cursor < len
        invariant
            len == data@.len(),
            base == data@.len() as int / parts as int,
            cursor <= len,
            len == 0 ==> r@.len() == 0,
            r@.len() == 0 ==> cursor == 0,
            r@.len() > 0 ==> r@[0].0 == 0,
            r@.len() > 0 ==> {
                let last = r@[r@.len() - 1];
                &&& (last.1 < len ==> cursor == last.1 + 1)
                &&& (last.1 == len ==> cursor == len)
            },
            forall|q: int| 0 <= q < r@.len() ==> (#[trigger] r@[q]).0 <= r@[q].1 <= len,
            forall|q: int|
                0 <= q < r@.len() ==> ((#[trigger] r@[q]).1 < len ==> data@[r@[q].1 as int]
                    == 10),
            forall|q: int|
                0 <= q < r@.len() - 1 ==> (#[trigger] r@[q]).1 < len && r@[q + 1].0 == r@[q].1
                    + 1,
            forall|q: int|
                0 <= q < r@.len() ==> ((#[trigger] r@[q]).1 as int >= r@[q].0 + base || r@[
                q].1 == len),
            forall|q: int, u: int|
                #![trigger r@[q], data@[u]]
                0 <= q < r@.len() && r@[q].0 + base <= u < r@[q].1 ==> data@[u] != 10,
        decreases len - cursor,
    {
        let tentative: usize = if base > len - cursor {
            len
        } else {
            cursor + base
        };
        let cut: usize = if tentative >= len {
            len
        } else {
            let f = find_next(data, tentative, 10);
            proof {
                lemma_find_from(data@, tentative as int, 10);
            }
            f
        };
        r.push((cursor, cut));
        cursor = if cut < len {
            cut + 1
        } else {
            len
        };
    }
    r
}

} // verus!
