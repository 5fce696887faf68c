//! Records of the instruction/memory trace that drives the core, and the line
//! format they are stored in: `prec R|W addr [data]`, whitespace-separated,
//! numbers in decimal.
use vstd::prelude::*;

verus! {

/// One memory reference, preceded by `prec` non-memory instructions.
#[derive(Clone, Copy, Debug, PartialEq, Eq, Structural)]
pub struct TraceRecord {
    pub addr: u64,
    pub prec: u64,
    pub is_write: bool,
}

/// A source of trace records, consumed strictly in order. A reader is a stream:
/// `record_at(i)` is the record that the `i`-th call from now on hands out.
pub trait TraceReader {
    spec fn record_at(&self, i: nat) -> TraceRecord;

    fn next_trace_record(&mut self) -> (r: TraceRecord)
        ensures
            r == old(self).record_at(0),
            forall|i: nat| #[trigger] final(self).record_at(i) == old(self).record_at(i + 1),
    ;
}

/// The records that `t` hands out, from its next one on.
pub open spec fn records_of<T: TraceReader>(t: &T) -> spec_fn(nat) -> TraceRecord {
    |i: nat| t.record_at(i)
}

/// A trace held in memory. Once its records are used up it hands out `filler`
/// forever, so the trace never ends.
pub struct VecTraceReader {
    pub records: Vec<TraceRecord>,
    pub pos: usize,
    pub filler: TraceRecord,
}

impl VecTraceReader {
    pub fn new(records: Vec<TraceRecord>, filler: TraceRecord) -> (r: VecTraceReader)
        ensures
            r.records@ == records@,
            r.pos == 0,
            r.filler == filler,
    {
        VecTraceReader { records, pos: 0, filler }
    }
}

impl TraceReader for VecTraceReader {
    open spec fn record_at(&self, i: nat) -> TraceRecord {
        if self.pos + i < self.records@.len() {
            self.records@[self.pos + i]
        } else {
            self.filler
        }
    }

    fn next_trace_record(&mut self) -> (r: TraceRecord) {
        if self.pos < self.records.len() {
            let r = self.records[self.pos];
            self.pos = self.pos + 1;
            r
        } else {
            self.filler
        }
    }
}

pub open spec fn is_space(b: u8) -> bool {
    b == 32 || b == 9 || b == 10 || b == 13
}

pub open spec fn is_digit(b: u8) -> bool {
    48 <= b <= 57
}

/// The first index from `i` on that holds no whitespace, or the length.
pub open spec fn skip_space(s: Seq<u8>, i: int) -> int
    decreases s.len() - i,
{
    if i < 0 || i >= s.len() {
        s.len() as int
    } else if !is_space(s[i]) {
        i
    } else {
        skip_space(s, i + 1)
    }
}

/// The first index from `i` on that holds whitespace, or the length.
pub open spec fn word_end(s: Seq<u8>, i: int) -> int
    decreases s.len() - i,
{
    if i < 0 || i >= s.len() {
        s.len() as int
    } else if is_space(s[i]) {
        i
    } else {
        word_end(s, i + 1)
    }
}

proof fn lemma_scan_bounds(s: Seq<u8>, i: int)
    requires
        0 <= i <= s.len(),
    ensures
        i <= skip_space(s, i) <= s.len(),
        i <= word_end(s, i) <= s.len(),
    decreases s.len() - i,
{
    if i < s.len() {
        lemma_scan_bounds(s, i + 1);
    }
}

/// The whitespace-separated words of `s` from index `i` on.
pub open spec fn words_from(s: Seq<u8>, i: int) -> Seq<Seq<u8>>
    decreases s.len() - i,
{
    let j = skip_space(s, i);
    if i < 0 || i >= s.len() || j >= s.len() {
        Seq::empty()
    } else {
        let k = word_end(s, j);
        if k <= i || k > s.len() {
            Seq::empty()
        } else {
            seq![s.subrange(j, k)] + words_from(s, k)
        }
    }
}

/// A non-empty run of decimal digits.
pub open spec fn is_decimal(s: Seq<u8>) -> bool {
    s.len() > 0 && forall|i: int| 0 <= i < s.len() ==> is_digit(#[trigger] s[i])
}

/// The value of a run of decimal digits.
pub open spec fn decimal_value(s: Seq<u8>) -> int
    decreases s.len(),
{
    if s.len() == 0 {
        0
    } else {
        decimal_value(s.drop_last()) * 10 + (s.last() - 48)
    }
}

/// A decimal number that fits in 64 bits.
pub open spec fn is_u64_decimal(s: Seq<u8>) -> bool {
    is_decimal(s) && decimal_value(s) <= u64::MAX
}

/// The record that a trace line holds: three or four words, the first a count,
/// the second `R` or `W`, the third an address; a fourth is ignored.
pub open spec fn record_of(line: Seq<u8>) -> Option<TraceRecord> {
    let w = words_from(line, 0);
    if (w.len() == 3 || w.len() == 4) && is_u64_decimal(w[0]) && is_u64_decimal(w[2]) && (w[1]
        == seq![82u8] || w[1] == seq![87u8]) {
        Some(
            TraceRecord {
                addr: decimal_value(w[2]) as u64,
                prec: decimal_value(w[0]) as u64,
                is_write: w[1] == seq![87u8],
            },
        )
    } else {
        None
    }
}

proof fn lemma_prefix_value_bound(s: Seq<u8>, i: int)
    requires
        is_decimal(s),
        0 <= i <= s.len(),
    ensures
        decimal_value(s.take(i)) <= decimal_value(s),
    decreases s.len(),
{
    if i < s.len() {
        let t = s.drop_last();
        assert(t.take(i) =~= s.take(i));
        if t.len() > 0 {
            assert(is_decimal(t)) by {
                assert forall|k: int| 0 <= k < t.len() implies is_digit(#[trigger] t[k]) by {
                    assert(t[k] == s[k]);
                }
            }
            lemma_prefix_value_bound(t, i);
            lemma_value_nonneg(t);
        } else {
            assert(t.take(i) =~= Seq::<u8>::empty());
        }
        assert(is_digit(s[s.len() - 1]));
    } else {
        assert(s.take(i) =~= s);
    }
}

proof fn lemma_value_nonneg(s: Seq<u8>)
    requires
        forall|i: int| 0 <= i < s.len() ==> is_digit(#[trigger] s[i]),
    ensures
        decimal_value(s) >= 0,
    decreases s.len(),
{
    if s.len() > 0 {
        let t = s.drop_last();
        assert forall|k: int| 0 <= k < t.len() implies is_digit(#[trigger] t[k]) by {
            assert(t[k] == s[k]);
        }
        lemma_value_nonneg(t);
        assert(is_digit(s[s.len() - 1]));
    }
}

/// Reads `s[start..end]` as a decimal number, if it is one that fits in 64 bits.
fn parse_u64(s: &[u8], start: usize, end: usize) -> (r: Option<u64>)
    requires
        start <= end <= s@.len(),
    ensures
        r == if is_u64_decimal(s@.subrange(start as int, end as int)) {
            Some(decimal_value(s@.subrange(start as int, end as int)) as u64)
        } else {
            None::<u64>
        },
{
    let ghost w = s@.subrange(start as int, end as int);
    if start == end {
        return None;
    }
    let mut v: u64 = 0;
    let mut i: usize = start;
    while i < end
        invariant
            start <= i <= end <= s@.len(),
            w == s@.subrange(start as int, end as int),
            forall|k: int| 0 <= k < i - start ==> is_digit(#[trigger] w[k]),
            v == decimal_value(w.take(i - start)),
        decreases end - i,
    {
        let b = s[i];
        let ghost t = w.take(i - start + 1);
        proof {
            assert(t.drop_last() =~= w.take(i - start));
            assert(t.last() == b);
        }
        if b < 48 || b > 57 {
            assert(!is_decimal(w)) by {
                assert(w[i - start] == b);
            }
            return None;
        }
        let d = (b - 48) as u64;
        if v > (u64::MAX - d) / 10 {
            proof {
                assert(decimal_value(t) > u64::MAX) by (nonlinear_arith)
                    requires
                        decimal_value(t) == v * 10 + d,
                        v > (u64::MAX - d) / 10,
                        0 <= d <= 9,
                ;
                if is_decimal(w) {
                    lemma_prefix_value_bound(w, i - start + 1);
                }
            }
            return None;
        }
        assert(v * 10 + d <= u64::MAX) by (nonlinear_arith)
            requires
                v <= (u64::MAX - d) / 10,
                0 <= d <= 9,
        ;
        v = v * 10 + d;
        i = i + 1;
    }
    assert(w.take(end - start) =~= w);
    Some(v)
}

/// Splits `line` into the spans of its whitespace-separated words.
fn word_spans(line: &[u8]) -> (r: Vec<(usize, usize)>)
    ensures
        r@.len() == words_from(line@, 0).len(),
        forall|k: int|
            0 <= k < r@.len() ==> {
                &&& (#[trigger] r@[k]).0 <= r@[k].1 <= line@.len()
                &&& line@.subrange(r@[k].0 as int, r@[k].1 as int) == words_from(line@, 0)[k]
            },
{
    let s = line;
    let n = s.len();
    let mut spans: Vec<(usize, usize)> = Vec::new();
    let mut i: usize = 0;
    while i < n
        invariant
            n == s@.len(),
            i <= n,
            words_from(s@, 0) == spans@.map_values(
                |p: (usize, usize)| s@.subrange(p.0 as int, p.1 as int),
            ) + words_from(s@, i as int),
            forall|k: int|
                0 <= k < spans@.len() ==> (#[trigger] spans@[k]).0 <= spans@[k].1 <= i,
        decreases n - i,
    {
        let ghost i0 = i as int;
        let mut j: usize = i;
        while j < n && (s[j] == 32 || s[j] == 9 || s[j] == 10 || s[j] == 13)
            invariant
                i0 <= j <= n,
                n == s@.len(),
                skip_space(s@, i0) == skip_space(s@, j as int),
            decreases n - j,
        {
            j = j + 1;
        }
        if j >= n {
            assert(words_from(s@, i0) =~= Seq::<Seq<u8>>::empty());
            i = n;
        } else {
            let mut k: usize = j;
            while k < n && !(s[k] == 32 || s[k] == 9 || s[k] == 10 || s[k] == 13)
                invariant
                    j <= k <= n,
                    n == s@.len(),
                    word_end(s@, j as int) == word_end(s@, k as int),
                decreases n - k,
            {
                k = k + 1;
            }
            proof {
                lemma_scan_bounds(s@, j as int);
                assert(skip_space(s@, j as int) == j);
                assert(word_end(s@, j as int) == k);
                assert(k > j);
                assert(words_from(s@, i0) == seq![s@.subrange(j as int, k as int)] + words_from(
                    s@,
                    k as int,
                ));
            }
            let ghost before = spans@;
            spans.push((j, k));
            proof {
                let f = |p: (usize, usize)| s@.subrange(p.0 as int, p.1 as int);
                assert(spans@.map_values(f) =~= before.map_values(f).push(
                    s@.subrange(j as int, k as int),
                ));
                assert(words_from(s@, 0) =~= spans@.map_values(f) + words_from(s@, k as int));
            }
            i = k;
        }
    }
    proof {
        assert(words_from(s@, n as int) =~= Seq::<Seq<u8>>::empty());
        let f = |p: (usize, usize)| s@.subrange(p.0 as int, p.1 as int);
        assert(words_from(s@, 0) =~= spans@.map_values(f));
        assert forall|k: int| 0 <= k < spans@.len() implies s@.subrange(
            (#[trigger] spans@[k]).0 as int,
            spans@[k].1 as int,
        ) == words_from(s@, 0)[k] by {
            assert(spans@.map_values(f)[k] == f(spans@[k]));
        }
    }
    spans
}

/// Reads one trace line. `None` when the line does not hold a record.
pub fn parse_trace_line(line: &[u8]) -> (r: Option<TraceRecord>)
    ensures
        r == record_of(line@),
{
    let spans = word_spans(line);
    let ghost w = words_from(line@, 0);
    if spans.len() != 3 && spans.len() != 4 {
        return None;
    }
    let (p0, p1) = spans[0];
    let (k0, k1) = spans[1];
    let (a0, a1) = spans[2];
    let prec = parse_u64(line, p0, p1);
    let addr = parse_u64(line, a0, a1);
    let is_r = k1 - k0 == 1 && line[k0] == 82;
    let is_w = k1 - k0 == 1 && line[k0] == 87;
    proof {
        let kind = line@.subrange(k0 as int, k1 as int);
        assert(kind == w[1]);
        if k1 - k0 == 1 {
            assert(kind[0] == line@[k0 as int]);
        }
        assert(is_r <==> kind =~= seq![82u8]);
        assert(is_w <==> kind =~= seq![87u8]);
    }
    match (prec, addr) {
        (Some(p), Some(a)) => {
            if is_r || is_w {
                Some(TraceRecord { addr: a, prec: p, is_write: is_w })
            } else {
                None
            }
        },
        _ => None,
    }
}

} // verus!
