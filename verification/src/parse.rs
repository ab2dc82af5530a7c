//! Byte-level parsing of `<key>;<value>` records.
//!
//! A record is a non-empty key (no `;` or newline), a `;`, and a signed
//! fixed-point value with exactly one fractional digit (`-?[0-9]+\.[0-9]`),
//! terminated by a newline or the end of the byte range. The value decodes
//! to the source decimal scaled by 10, held exactly in integer arithmetic.

use vstd::prelude::*;

verus! {

/// A record that could not be parsed; `offset` is the byte position where
/// it starts.
#[derive(Debug)]
pub struct ParseError {
    pub offset: usize,
}

pub open spec fn is_digit(b: u8) -> bool {
    48 <= b <= 57
}

pub open spec fn all_digits(s: Seq<u8>) -> bool {
    forall|i: int| 0 <= i < s.len() ==> is_digit(#[trigger] s[i])
}

/// The integer written by a sequence of decimal digit characters.
pub open spec fn digits_val(s: Seq<u8>) -> int
    decreases s.len(),
{
    if s.len() == 0 {
        0
    } else {
        digits_val(s.drop_last()) * 10 + (s.last() - 48)
    }
}

proof fn lemma_digits_val_nonneg(s: Seq<u8>)
    requires
        all_digits(s),
    ensures
        digits_val(s) >= 0,
    decreases s.len(),
{
    if s.len() > 0 {
        assert(all_digits(s.drop_last()));
        lemma_digits_val_nonneg(s.drop_last());
    }
}

/// A digit string's value only grows as more digits are appended.
proof fn lemma_digits_val_prefix(s: Seq<u8>, n: int)
    requires
        all_digits(s),
        0 <= n <= s.len(),
    ensures
        digits_val(s.subrange(0, n)) <= digits_val(s),
    decreases s.len() - n,
{
    if n == s.len() {
        assert(s.subrange(0, n) =~= s);
    } else {
        let p = s.subrange(0, n);
        let q = s.subrange(0, n + 1);
        assert(q.drop_last() =~= p);
        assert(q.last() == s[n]);
        assert(all_digits(p));
        lemma_digits_val_nonneg(p);
        assert(digits_val(q) == digits_val(p) * 10 + (s[n] - 48));
        lemma_digits_val_prefix(s, n + 1);
    }
}

/// Whether the value region starts with the negation flag `-`.
pub open spec fn value_neg(s: Seq<u8>) -> bool {
    s.len() > 0 && s[0] == 45
}

/// The region with any negation flag removed.
pub open spec fn value_body(s: Seq<u8>) -> Seq<u8> {
    if value_neg(s) {
        s.subrange(1, s.len() as int)
    } else {
        s
    }
}

/// The fixed-point grammar: digits, one `.`, one fractional digit.
pub open spec fn valid_value(s: Seq<u8>) -> bool {
    let b = value_body(s);
    &&& b.len() >= 3
    &&& b[b.len() - 2] == 46
    &&& all_digits(b.subrange(0, b.len() - 2))
    &&& is_digit(b.last())
}

/// The unsigned scaled-by-10 value of the region.
pub open spec fn value_magnitude(s: Seq<u8>) -> int {
    let b = value_body(s);
    digits_val(b.subrange(0, b.len() - 2)) * 10 + (b.last() - 48)
}

/// The signed scaled-by-10 value of the region.
pub open spec fn decode_value(s: Seq<u8>) -> int {
    if value_neg(s) {
        -value_magnitude(s)
    } else {
        value_magnitude(s)
    }
}

/// A region parses when it matches the grammar and its magnitude fits the
/// 32-bit scaled representation.
pub open spec fn parses_value(s: Seq<u8>) -> bool {
    valid_value(s) && value_magnitude(s) <= i32::MAX as int
}

/// Decodes the value region `data[start..end]`: `Some` exactly when the
/// region matches the grammar and fits, and then the exact scaled value.
pub fn parse_value(data: &[u8], start: usize, end: usize) -> (r: Option<i32>)
    requires
        start <= end <= data@.len(),
    ensures
        match r {
            Some(v) => parses_value(data@.subrange(start as int, end as int)) && v as int
                == decode_value(data@.subrange(start as int, end as int)),
            None => !parses_value(data@.subrange(start as int, end as int)),
        },
{
    let ghost region = data@.subrange(start as int, end as int);
    let neg = end > start && data[start] == 45;
    let d: usize = if neg {
        start + 1
    } else {
        start
    };
    let ghost body = value_body(region);
    proof {
        assert(body =~= data@.subrange(d as int, end as int));
    }
    if end - d < 3 {
        return None;
    }
    if data[end - 2] != 46 {
        proof {
            assert(body[body.len() - 2] == data@[end - 2]);
        }
        return None;
    }
    let ghost intpart = body.subrange(0, body.len() - 2);
    proof {
        assert(intpart =~= data@.subrange(d as int, end - 2));
    }
    let mut acc: i64 = 0;
    let mut i: usize = d;
    while i < end - 2
        invariant
            d <= i <= end - 2,
            end <= data@.len(),
            d + 3 <= end,
            0 <= acc <= 214748364,
            intpart == data@.subrange(d as int, end - 2),
            body == data@.subrange(d as int, end as int),
            region == data@.subrange(start as int, end as int),
            body == value_body(region),
            intpart == body.subrange(0, body.len() - 2),
            acc == digits_val(data@.subrange(d as int, i as int)),
            all_digits(data@.subrange(d as int, i as int)),
        decreases end - i,
    {
        let c = data[i];
        proof {
            let pre = data@.subrange(d as int, i as int);
            let ext = data@.subrange(d as int, i + 1);
            assert(ext.drop_last() =~= pre);
            assert(ext.last() == data@[i as int]);
        }
        if c < 48 || c > 57 {
            proof {
                assert(intpart[i - d] == data@[i as int]);
                assert(!all_digits(intpart));
            }
            return None;
        }
        acc = acc * 10 + ((c - 48) as i64);
        i = i + 1;
        if acc > 214748364 {
            proof {
                // The digits so far already exceed what a 32-bit scaled
                // value can carry, so the whole region cannot fit.
                if parses_value(region) {
                    let pre = data@.subrange(d as int, i as int);
                    assert(pre =~= intpart.subrange(0, i - d));
                    lemma_digits_val_prefix(intpart, i - d);
                    lemma_digits_val_nonneg(intpart);
                    assert(digits_val(intpart) >= acc);
                    assert(value_magnitude(region) >= digits_val(intpart) * 10);
                    assert(digits_val(intpart) * 10 >= digits_val(intpart)) by (nonlinear_arith)
                        requires
                            digits_val(intpart) >= 0,
                    ;
                }
            }
            return None;
        }
    }
    let last = data[end - 1];
    proof {
        assert(body.last() == data@[end - 1]);
    }
    if last < 48 || last > 57 {
        return None;
    }
    proof {
        assert(data@.subrange(d as int, i as int) == intpart);
    }
    let m: i64 = acc * 10 + ((last - 48) as i64);
    if m > 2147483647 {
        return None;
    }
    proof {
        assert(valid_value(region));
        assert(value_magnitude(region) == m as int);
    }
    if neg {
        Some(-(m as i32))
    } else {
        Some(m as i32)
    }
}

/// The first index at or after `pos` holding `target`, or the length of
/// the data when there is none.
pub open spec fn find_from(data: Seq<u8>, pos: int, target: u8) -> int
    decreases data.len() - pos,
{
    if pos >= data.len() {
        data.len() as int
    } else if data[pos] == target {
        pos
    } else {
        find_from(data, pos + 1, target)
    }
}

pub proof fn lemma_find_from(data: Seq<u8>, pos: int, target: u8)
    requires
        0 <= pos <= data.len(),
    ensures
        pos <= find_from(data, pos, target) <= data.len(),
        find_from(data, pos, target) < data.len() ==> data[find_from(data, pos, target)]
            == target,
        forall|t: int| pos <= t < find_from(data, pos, target) ==> data[t] != target,
    decreases data.len() - pos,
{
    if pos < data.len() && data[pos] != target {
        lemma_find_from(data, pos + 1, target);
    }
}

/// The first index at or after `position` holding `target`, or
/// `data.len()` when no such byte remains: a scan cuts at the end of the
/// data when the target is absent.
pub fn find_next(data: &[u8], position: usize, target: u8) -> (r: usize)
    ensures
        r as int == find_from(data@, position as int, target),
{
    if position >= data.len() {
        return data.len();
    }
    let mut i: usize = position;
    while i < data.len()
        invariant
            position <= i <= data@.len(),
            forall|t: int| position <= t < i ==> data@[t] != target,
        decreases data@.len() - i,
    {
        if data[i] == target {
            proof {
                lemma_find_from(data@, position as int, target);
                let f = find_from(data@, position as int, target);
                if f < i as int {
                    assert(data@[f] == target);
                }
                if f > i as int {
                    assert(data@[i as int] != target);
                }
            }
            return i;
        }
        i = i + 1;
    }
    proof {
        lemma_find_from(data@, position as int, target);
        let f = find_from(data@, position as int, target);
        if f < data@.len() {
            assert(data@[f] == target);
        }
    }
    data.len()
}

/// Locates one record at `pos`, with an unconditional scan (no assumption
/// of a minimum key or value length):
/// the next `;` ends the key, the next newline or the end of the data
/// ends the value region, and the cursor advances past the newline.
pub open spec fn parse_record_at(data: Seq<u8>, pos: int) -> Option<(Seq<u8>, int, int)> {
    let semi = find_from(data, pos, 59);
    let nl = find_from(data, pos, 10);
    if semi >= data.len() || nl < semi || semi == pos {
        None
    } else {
        let region = data.subrange(semi + 1, nl);
        if !parses_value(region) {
            None
        } else {
            let next = if nl < data.len() {
                nl + 1
            } else {
                data.len() as int
            };
            Some((data.subrange(pos, semi), decode_value(region), next))
        }
    }
}

/// A parsed record advances the cursor by at least the minimal record
/// length, and never past the end of the data.
pub proof fn lemma_parse_advances(data: Seq<u8>, pos: int)
    requires
        0 <= pos <= data.len(),
        parse_record_at(data, pos) is Some,
    ensures
        ({
            let (k, v, n) = parse_record_at(data, pos)->Some_0;
            &&& pos + 5 <= n <= data.len()
            &&& k.len() >= 1
        }),
{
    let semi = find_from(data, pos, 59);
    let nl = find_from(data, pos, 10);
    lemma_find_from(data, pos, 59);
    lemma_find_from(data, pos, 10);
    assert(semi < data.len() && nl >= semi && semi > pos);
    assert(data[semi] == 59);
    if nl == semi {
        assert(data[nl] == 10);
        assert(false);
    }
    assert(nl > semi);
    let region = data.subrange(semi + 1, nl);
    assert(parses_value(region));
    let body = value_body(region);
    assert(body.len() >= 3);
    assert(region.len() >= body.len());
    assert(nl >= semi + 4);
}

/// One parsed record, by byte offsets into the scanned data.
#[derive(Debug)]
pub struct RawRecord {
    pub key_start: usize,
    pub key_end: usize,
    pub value: i32,
    pub next: usize,
}

/// Parses the record at `pos`: `Some` exactly when the record is well
/// formed, with the key bounds, the decoded value, and the next cursor.
pub fn parse_record(data: &[u8], pos: usize) -> (r: Option<RawRecord>)
    requires
        pos <= data@.len(),
    ensures
        match r {
            Some(rec) => {
                &&& parse_record_at(data@, pos as int) == Some(
                    (
                        data@.subrange(rec.key_start as int, rec.key_end as int),
                        rec.value as int,
                        rec.next as int,
                    ),
                )
                &&& rec.key_start == pos
                &&& pos < rec.key_end
                &&& rec.key_end < rec.next
                &&& rec.next <= data@.len()
            },
            None => parse_record_at(data@, pos as int) is None,
        },
{
    let len = data.len();
    let semi = find_next(data, pos, 59);
    let nl = find_next(data, pos, 10);
    proof {
        lemma_find_from(data@, pos as int, 59);
        lemma_find_from(data@, pos as int, 10);
    }
    if semi >= len || nl < semi || semi == pos {
        return None;
    }
    match parse_value(data, semi + 1, nl) {
        None => None,
        Some(v) => {
            let next = if nl < len {
                nl + 1
            } else {
                len
            };
            Some(RawRecord { key_start: pos, key_end: semi, value: v, next })
        },
    }
}

} // verus!
