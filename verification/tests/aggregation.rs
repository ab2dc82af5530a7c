use onebrc::agg::Stats;
use onebrc::hash_table::HashTable;
use onebrc::parse::{find_next, parse_record, parse_value};
use onebrc::pipeline::{aggregate, partition, scan_chunk};
use onebrc::render::{bytes_lt, format_output};

#[test]
fn end_to_end_three_records() {
    let data = b"A;10.0\nB;-5.5\nA;20.0\n";
    let t = aggregate(data).unwrap();
    assert_eq!(format_output(&t), "{A=10.0/15.0/20.0, B=-5.5/-5.5/-5.5}");
}

#[test]
fn end_to_end_single_record() {
    let t = aggregate(b"X;0.0\n").unwrap();
    assert_eq!(format_output(&t), "{X=0.0/0.0/0.0}");
}

#[test]
fn end_to_end_no_trailing_newline() {
    let t = aggregate(b"A;1.5\nB;2.5").unwrap();
    assert_eq!(format_output(&t), "{A=1.5/1.5/1.5, B=2.5/2.5/2.5}");
}

#[test]
fn empty_input_gives_empty_output() {
    let t = aggregate(b"").unwrap();
    assert_eq!(format_output(&t), "{}");
}

#[test]
fn negative_value_decodes_to_minus_three() {
    // `Y;-0.3` must decode to the scaled value -3, not +3
    let data = b"Y;-0.3\n";
    let rec = parse_record(data, 0).unwrap();
    assert_eq!(rec.value, -3);
    assert_eq!(&data[rec.key_start..rec.key_end], b"Y");
    assert_eq!(rec.next, 7);
}

#[test]
fn parse_value_cases() {
    assert_eq!(parse_value(b"0.0", 0, 3), Some(0));
    assert_eq!(parse_value(b"12.7", 0, 4), Some(127));
    assert_eq!(parse_value(b"-99.9", 0, 5), Some(-999));
    // largest magnitude that still fits a 32-bit scaled value
    assert_eq!(parse_value(b"214748364.7", 0, 11), Some(2147483647));
    assert_eq!(parse_value(b"214748364.8", 0, 11), None);
    assert_eq!(parse_value(b"99999999999999999999.9", 0, 22), None);
    // grammar violations
    assert_eq!(parse_value(b"", 0, 0), None);
    assert_eq!(parse_value(b"1.", 0, 2), None);
    assert_eq!(parse_value(b"1x.0", 0, 4), None);
    assert_eq!(parse_value(b"10", 0, 2), None);
    assert_eq!(parse_value(b"1.a", 0, 3), None);
    assert_eq!(parse_value(b"-.5", 0, 3), None);
}

#[test]
fn malformed_records_fail_with_offset() {
    // non-digit in the value region of the second record
    let e = aggregate(b"A;1.0\nB;x.0\n").unwrap_err();
    assert_eq!(e.offset, 6);
    // empty key
    let e = aggregate(b";1.0\n").unwrap_err();
    assert_eq!(e.offset, 0);
    // no delimiter at all
    let e = aggregate(b"abc\n").unwrap_err();
    assert_eq!(e.offset, 0);
    // newline before the delimiter
    let e = aggregate(b"ab\nc;1.0\n").unwrap_err();
    assert_eq!(e.offset, 0);
}

#[test]
fn find_next_semantics() {
    let data = b"ab;cd\nef";
    assert_eq!(find_next(data, 0, b';'), 2);
    assert_eq!(find_next(data, 3, b'\n'), 5);
    // absent target: the scan cuts at the end of the data
    assert_eq!(find_next(data, 6, b'\n'), 8);
    assert_eq!(find_next(data, 99, b'\n'), 8);
}

#[test]
fn partition_covers_the_arena() {
    let data = b"A;1.0\nB;2.0\nC;3.0\nD;4.0\n";
    for parts in 1..6usize {
        let chunks = partition(data, parts);
        assert!(!chunks.is_empty());
        assert_eq!(chunks[0].0, 0);
        for w in chunks.windows(2) {
            // the separating newline sits between consecutive slices
            assert_eq!(data[w[0].1], b'\n');
            assert_eq!(w[1].0, w[0].1 + 1);
        }
        for &(s, e) in &chunks {
            assert!(s <= e && e <= data.len());
            if e < data.len() {
                assert_eq!(data[e], b'\n');
            }
        }
        let last = chunks[chunks.len() - 1];
        assert!(last.1 + 1 >= data.len());
    }
}

#[test]
fn partition_of_empty_input_is_empty() {
    let chunks = partition(b"", 4);
    assert!(chunks.is_empty());
}

#[test]
fn partition_of_tiny_input_with_many_parts() {
    let data = b"A;1.0\n";
    let chunks = partition(data, 8);
    assert_eq!(chunks[0].0, 0);
    let last = chunks[chunks.len() - 1];
    assert!(last.1 + 1 >= data.len());
}

#[test]
fn merged_chunk_scans_match_one_pass() {
    let data = b"A;10.0\nB;-5.5\nA;20.0\nC;7.5\nB;0.5\n";
    let whole = aggregate(data).unwrap();
    for parts in 1..5usize {
        let chunks = partition(data, parts);
        let mut tables = Vec::new();
        for &(s, e) in &chunks {
            tables.push(scan_chunk(data, s, e).unwrap());
        }
        // fold forwards
        let mut total = HashTable::new();
        for t in &tables {
            assert!(total.merge(t));
        }
        assert_eq!(format_output(&total), format_output(&whole));
        // fold in reverse order: the result is identical
        let mut total_rev = HashTable::new();
        for t in tables.iter().rev() {
            assert!(total_rev.merge(t));
        }
        assert_eq!(format_output(&total_rev), format_output(&whole));
    }
}

#[test]
fn stats_update_and_merge() {
    let mut a = Stats::new(b"k");
    a.update(100);
    a.update(200);
    assert_eq!(a.min, 100);
    assert_eq!(a.max, 200);
    assert_eq!(a.sum, 300);
    assert_eq!(a.count, 2);
    let mut b = Stats::new(b"k");
    b.update(-50);
    b.merge(&a);
    assert_eq!(b.min, -50);
    assert_eq!(b.max, 200);
    assert_eq!(b.sum, 250);
    assert_eq!(b.count, 3);
    // mean lies between min and max, in scaled-integer terms
    assert!(b.count as i64 * b.min as i64 <= b.sum);
    assert!(b.sum <= b.count as i64 * b.max as i64);
}

#[test]
fn stats_merge_is_commutative() {
    let mut a = Stats::new(b"k");
    a.update(10);
    a.update(-20);
    let mut b = Stats::new(b"k");
    b.update(5);
    let mut a2 = a.duplicate();
    let mut b2 = b.duplicate();
    a.merge(&b);
    b2.merge(&a2);
    assert_eq!((a.min, a.max, a.sum, a.count), (b2.min, b2.max, b2.sum, b2.count));
    // and the empty aggregate is the identity of merging
    let empty = Stats::new(b"k");
    let before = (a2.min, a2.max, a2.sum, a2.count);
    a2.merge(&empty);
    assert_eq!((a2.min, a2.max, a2.sum, a2.count), before);
}

#[test]
fn stats_merge_is_associative() {
    let mut a = Stats::new(b"k");
    a.update(7);
    let mut b = Stats::new(b"k");
    b.update(-3);
    b.update(12);
    let mut c = Stats::new(b"k");
    c.update(0);
    // (a merged b) merged c
    let mut left = a.duplicate();
    left.merge(&b);
    left.merge(&c);
    // a merged (b merged c)
    let mut bc = b.duplicate();
    bc.merge(&c);
    let mut right = a.duplicate();
    right.merge(&bc);
    assert_eq!((left.min, left.max, left.sum, left.count), (right.min, right.max, right.sum,
        right.count));
}

#[test]
fn stats_merge_equals_one_pass() {
    let part1 = [10, -20, 30];
    let part2 = [5, 40];
    let mut a = Stats::new(b"k");
    for v in part1 {
        a.update(v);
    }
    let mut b = Stats::new(b"k");
    for v in part2 {
        b.update(v);
    }
    a.merge(&b);
    let mut whole = Stats::new(b"k");
    for v in part1.iter().chain(part2.iter()) {
        whole.update(*v);
    }
    assert_eq!((a.min, a.max, a.sum, a.count), (whole.min, whole.max, whole.sum, whole.count));
}

#[test]
fn stats_to_string_formats_one_fractional_digit() {
    let mut a = Stats::new(b"k");
    a.update(10);
    a.update(20);
    assert_eq!(a.to_string(), "k=1.0/1.5/2.0");
    let mut n = Stats::new(b"neg");
    n.update(-55);
    assert_eq!(n.to_string(), "neg=-5.5/-5.5/-5.5");
}

#[test]
fn colliding_hashes_stay_separate() {
    // `Aa` and `BB` collide under the multiplier-31 polynomial hash
    assert_eq!(
        onebrc::hash_table::Hash::hash(&&b"Aa"[..]),
        onebrc::hash_table::Hash::hash(&&b"BB"[..])
    );
    // with a single bucket, every key lands in the same bucket as well
    let mut t = HashTable::with_bucket_count(1);
    t.insert_or_update(b"Aa", 10);
    t.insert_or_update(b"BB", 20);
    t.insert_or_update(b"Aa", 30);
    let a = t.get(b"Aa").unwrap();
    assert_eq!((a.min, a.max, a.sum, a.count), (10, 30, 40, 2));
    let b = t.get(b"BB").unwrap();
    assert_eq!((b.min, b.max, b.sum, b.count), (20, 20, 20, 1));
    assert!(t.get(b"Ab").is_none());
}

#[test]
fn forced_resize_preserves_entries() {
    // one bucket and a zero threshold: every insert forces a resize
    let mut t = HashTable::with_bucket_count(1);
    let keys: Vec<String> = (0..200).map(|i| format!("key{}", i)).collect();
    for (i, k) in keys.iter().enumerate() {
        t.insert_or_update(k.as_bytes(), i as i32);
    }
    for (i, k) in keys.iter().enumerate() {
        let s = t.get(k.as_bytes()).unwrap();
        assert_eq!(s.min, i as i32);
        assert_eq!(s.max, i as i32);
        assert_eq!(s.sum, i as i64);
        assert_eq!(s.count, 1);
    }
    let entries = t.key_set();
    assert_eq!(entries.len(), 200);
}

#[test]
fn key_set_lists_each_key_once() {
    let mut t = HashTable::new();
    t.insert_or_update(b"x", 1);
    t.insert_or_update(b"y", 2);
    t.insert_or_update(b"x", 3);
    let mut names: Vec<Vec<u8>> = t.key_set().into_iter().map(|e| e.1.name).collect();
    names.sort();
    assert_eq!(names, vec![b"x".to_vec(), b"y".to_vec()]);
}

#[test]
fn sorted_entries_are_byte_lexicographic() {
    let mut t = HashTable::new();
    for k in ["pear", "apple", "Zebra", "ant", "apricot"] {
        t.insert_or_update(k.as_bytes(), 10);
    }
    let es = t.sorted_entries();
    let names: Vec<&[u8]> = es.iter().map(|e| e.1.name.as_slice()).collect();
    assert_eq!(names, vec![
        &b"Zebra"[..],
        &b"ant"[..],
        &b"apple"[..],
        &b"apricot"[..],
        &b"pear"[..],
    ]);
    for w in names.windows(2) {
        assert!(bytes_lt(w[0], w[1]));
    }
}

#[test]
fn merge_combines_shared_and_fresh_keys() {
    let mut a = HashTable::new();
    a.insert_or_update(b"k", 10);
    a.insert_or_update(b"only_a", 1);
    let mut b = HashTable::new();
    b.insert_or_update(b"k", 30);
    b.insert_or_update(b"only_b", 2);
    assert!(a.merge(&b));
    let s = a.get(b"k").unwrap();
    assert_eq!((s.min, s.max, s.sum, s.count), (10, 30, 40, 2));
    assert_eq!(a.get(b"only_a").unwrap().sum, 1);
    assert_eq!(a.get(b"only_b").unwrap().sum, 2);
}

#[test]
fn output_is_sorted_by_key() {
    let t = aggregate(b"m;1.0\na;2.0\nz;3.0\nb;4.0\n").unwrap();
    assert_eq!(
        format_output(&t),
        "{a=2.0/2.0/2.0, b=4.0/4.0/4.0, m=1.0/1.0/1.0, z=3.0/3.0/3.0}"
    );
}
