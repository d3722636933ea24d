//! Coverage histograms: folding a by-total abacus into per-coverage counts,
//! the tab-separated form of a histogram, and the combinatorial growth
//! formula derived from it.

use vstd::prelude::*;
use crate::abacus::AbacusByTotal;
use crate::bytes::{find_byte, find_from, split_on, split_range_on};
use crate::dec::{
    all_digits,
    dec_digits,
    dec_value,
    format_usize,
    lemma_dec_digits_wf,
    lemma_dec_round_trip,
    parse_usize_range,
    push_digits,
};
use crate::util::{CountError, CountType, MAX_GROUPS};

verus! {

/// Sum of a sequence of machine words, over the mathematical integers.
pub open spec fn seq_sum(s: Seq<usize>) -> nat
    decreases s.len(),
{
    if s.len() == 0 {
        0
    } else {
        (seq_sum(s.drop_last()) + s.last()) as nat
    }
}

/// How many of the first `upto` entries of `s` equal `v`.
pub open spec fn count_eq(s: Seq<u16>, v: int, upto: int) -> nat
    decreases upto,
{
    if upto <= 0 {
        0
    } else {
        count_eq(s, v, upto - 1) + if s[upto - 1] == v {
            1nat
        } else {
            0nat
        }
    }
}

/// Every entry is at most the sum.
proof fn lemma_sum_element(s: Seq<usize>, i: int)
    requires
        0 <= i < s.len(),
    ensures
        s[i] <= seq_sum(s),
    decreases s.len(),
{
    if i == s.len() - 1 {
    } else {
        lemma_sum_element(s.drop_last(), i);
    }
}

/// Raising one entry by one raises the sum by one.
proof fn lemma_sum_update(s: Seq<usize>, i: int, v: usize)
    requires
        0 <= i < s.len(),
    ensures
        seq_sum(s.update(i, v)) == seq_sum(s) - s[i] + v,
    decreases s.len(),
{
    if i == s.len() - 1 {
        assert(s.update(i, v).drop_last() =~= s.drop_last());
    } else {
        assert(s.update(i, v).drop_last() =~= s.drop_last().update(i, v));
        lemma_sum_update(s.drop_last(), i, v);
    }
}

/// A coverage histogram: `coverage[k]` counts the items that exactly `k`
/// groups cover, for `k` in `0..=G`.
#[derive(Debug)]
pub struct Hist {
    pub count_type: CountType,
    pub coverage: Vec<usize>,
}

impl Hist {
    /// Folds a by-total abacus into a histogram, each item adding one to the
    /// bucket of its coverage. The total over all buckets equals the number
    /// of items: nothing is lost or invented.
    pub fn from_abacus(ab: &AbacusByTotal, count_type: CountType) -> (r: Hist)
        requires
            ab.groups@.len() <= MAX_GROUPS,
            forall|i: int|
                0 <= i < ab.countable@.len() ==> (#[trigger] ab.countable@[i]) as nat
                    <= ab.groups@.len(),
        ensures
            r.count_type == count_type,
            r.coverage@.len() == ab.groups@.len() + 1,
            forall|v: int|
                0 <= v <= ab.groups@.len() ==> (#[trigger] r.coverage@[v]) as nat == count_eq(
                    ab.countable@,
                    v,
                    ab.countable@.len() as int,
                ),
            seq_sum(r.coverage@) == ab.countable@.len(),
    {
        let g = ab.groups.len();
        let mut coverage: Vec<usize> = Vec::new();
        let mut z: usize = 0;
        while z < g + 1
            invariant
                z <= g + 1,
                g <= MAX_GROUPS,
                coverage@.len() == z,
                forall|v: int| 0 <= v < z ==> (#[trigger] coverage@[v]) == 0,
                seq_sum(coverage@) == 0,
            decreases g + 1 - z,
        {
            let ghost cprev = coverage@;
            coverage.push(0);
            proof {
                assert(coverage@.drop_last() =~= cprev);
                assert(coverage@.last() == 0usize);
            }
            z = z + 1;
        }
        proof {
            assert forall|v: int| 0 <= v <= g implies (#[trigger] coverage@[v]) as nat == count_eq(
                ab.countable@,
                v,
                0,
            ) by {}
        }
        let n = ab.countable.len();
        let mut i: usize = 0;
        while i < n
            invariant
                i <= n,
                n == ab.countable@.len(),
                coverage@.len() == g + 1,
                forall|q: int|
                    0 <= q < ab.countable@.len() ==> (#[trigger] ab.countable@[q]) as nat <= g,
                forall|v: int|
                    0 <= v <= g ==> (#[trigger] coverage@[v]) as nat == count_eq(
                        ab.countable@,
                        v,
                        i as int,
                    ),
                seq_sum(coverage@) == i,
            decreases n - i,
        {
            let c = ab.countable[i] as usize;
            assert(c <= g);
            let ghost cov0 = coverage@;
            let cur = coverage[c];
            proof {
                lemma_sum_element(cov0, c as int);
            }
            coverage[c] = cur + 1;
            proof {
                assert(coverage@ =~= cov0.update(c as int, (cur + 1) as usize));
                lemma_sum_update(cov0, c as int, (cur + 1) as usize);
                assert forall|v: int| 0 <= v <= g implies (#[trigger] coverage@[v]) as nat
                    == count_eq(ab.countable@, v, i as int + 1) by {
                    assert(count_eq(ab.countable@, v, i as int + 1) == count_eq(
                        ab.countable@,
                        v,
                        i as int,
                    ) + if ab.countable@[i as int] == v {
                        1nat
                    } else {
                        0nat
                    });
                }
            }
            i = i + 1;
        }
        Hist { count_type, coverage }
    }
}

/// The tab-separated name of a count type.
pub open spec fn count_type_name(t: CountType) -> Seq<u8> {
    match t {
        CountType::Node => seq![110u8, 111u8, 100u8, 101u8],
        CountType::Edge => seq![101u8, 100u8, 103u8, 101u8],
        CountType::Bp => seq![98u8, 112u8],
    }
}

/// The header line of a histogram file: `coverage<TAB><count type>`.
pub open spec fn hist_header(t: CountType) -> Seq<u8> {
    seq![99u8, 111u8, 118u8, 101u8, 114u8, 97u8, 103u8, 101u8, 9u8] + count_type_name(t)
}

/// The body lines for buckets `k..`: `<k><TAB><count>` each, newline-ended.
pub open spec fn hist_lines(cov: Seq<usize>, k: int) -> Seq<u8>
    decreases cov.len() - k,
{
    if k < 0 || k >= cov.len() {
        Seq::<u8>::empty()
    } else {
        dec_digits(k as nat) + seq![9u8] + dec_digits(cov[k] as nat) + seq![10u8] + hist_lines(
            cov,
            k + 1,
        )
    }
}

/// The whole tab-separated form of a histogram.
pub open spec fn hist_tsv(t: CountType, cov: Seq<usize>) -> Seq<u8> {
    hist_header(t) + seq![10u8] + hist_lines(cov, 0)
}

/// A byte string without a line feed.
pub open spec fn no_lf(s: Seq<u8>) -> bool {
    forall|j: int| 0 <= j < s.len() ==> (#[trigger] s[j]) != 10u8
}

/// Writes the histogram in its tab-separated form: a header naming the count
/// type, then one `k<TAB>count` line per bucket.
impl Hist {
    pub fn to_tsv(&self) -> (r: Vec<u8>)
        ensures
            r@ == hist_tsv(self.count_type, self.coverage@),
    {
        let mut out: Vec<u8> = Vec::new();
        out.push(99u8);
        out.push(111u8);
        out.push(118u8);
        out.push(101u8);
        out.push(114u8);
        out.push(97u8);
        out.push(103u8);
        out.push(101u8);
        out.push(9u8);
        match self.count_type {
            CountType::Node => {
                out.push(110u8);
                out.push(111u8);
                out.push(100u8);
                out.push(101u8);
            },
            CountType::Edge => {
                out.push(101u8);
                out.push(100u8);
                out.push(103u8);
                out.push(101u8);
            },
            CountType::Bp => {
                out.push(98u8);
                out.push(112u8);
            },
        }
        out.push(10u8);
        proof {
            assert(out@ =~= hist_header(self.count_type) + seq![10u8]);
        }
        let ghost head = out@;
        let g1 = self.coverage.len();
        let mut k: usize = 0;
        proof {
            assert(head + hist_lines(self.coverage@, 0) =~= head + hist_lines(self.coverage@, 0));
        }
        while k < g1
            invariant
                k <= g1,
                g1 == self.coverage@.len(),
                head == hist_header(self.count_type) + seq![10u8],
                head + hist_lines(self.coverage@, 0) == out@ + hist_lines(
                    self.coverage@,
                    k as int,
                ),
            decreases g1 - k,
        {
            let ghost out0 = out@;
            push_digits(k, &mut out);
            out.push(9u8);
            push_digits(self.coverage[k], &mut out);
            out.push(10u8);
            proof {
                assert(out@ =~= out0 + (dec_digits(k as nat) + seq![9u8] + dec_digits(
                    self.coverage@[k as int] as nat,
                ) + seq![10u8]));
                assert(out0 + hist_lines(self.coverage@, k as int) =~= out@ + hist_lines(
                    self.coverage@,
                    k as int + 1,
                ));
            }
            k = k + 1;
        }
        proof {
            assert(hist_lines(self.coverage@, g1 as int) =~= Seq::<u8>::empty());
            assert(out@ + Seq::<u8>::empty() =~= out@);
            assert(out@ =~= hist_tsv(self.count_type, self.coverage@));
        }
        out
    }
}

/// Reads the body lines `lines[i..]` as buckets `k..`: every line must be
/// `<k><TAB><count>` with a canonical bucket number, and the lines must end
/// with the empty segment a final newline leaves.
pub open spec fn parse_hist_from(lines: Seq<Seq<u8>>, i: int, k: nat) -> Result<
    Seq<usize>,
    CountError,
>
    decreases lines.len() - i,
{
    if i < 0 || i >= lines.len() {
        Err(CountError::FormatError(i as usize))
    } else if i == lines.len() - 1 {
        if lines[i].len() == 0 {
            Ok(Seq::<usize>::empty())
        } else {
            Err(CountError::FormatError((i + 1) as usize))
        }
    } else {
        let line = lines[i];
        match find_from(line, 0, line.len() as int, 9u8) {
            None => Err(CountError::FormatError((i + 1) as usize)),
            Some(t) => {
                let left = line.subrange(0, t);
                let right = line.subrange(t + 1, line.len() as int);
                if left == dec_digits(k) && right.len() > 0 && all_digits(right) && dec_value(
                    right,
                ) <= usize::MAX {
                    match parse_hist_from(lines, i + 1, k + 1) {
                        Err(e) => Err(e),
                        Ok(rest) => Ok(seq![dec_value(right) as usize] + rest),
                    }
                } else {
                    Err(CountError::FormatError((i + 1) as usize))
                }
            },
        }
    }
}

/// The histogram a tab-separated byte string denotes.
pub open spec fn spec_parse_hist(data: Seq<u8>) -> Result<(CountType, Seq<usize>), CountError> {
    let lines = split_on(data, 10u8);
    if lines.len() < 2 {
        Err(CountError::FormatError(1))
    } else if lines[0] == hist_header(CountType::Node) {
        match parse_hist_from(lines, 1, 0) {
            Err(e) => Err(e),
            Ok(cov) => Ok((CountType::Node, cov)),
        }
    } else if lines[0] == hist_header(CountType::Edge) {
        match parse_hist_from(lines, 1, 0) {
            Err(e) => Err(e),
            Ok(cov) => Ok((CountType::Edge, cov)),
        }
    } else if lines[0] == hist_header(CountType::Bp) {
        match parse_hist_from(lines, 1, 0) {
            Err(e) => Err(e),
            Ok(cov) => Ok((CountType::Bp, cov)),
        }
    } else {
        Err(CountError::FormatError(1))
    }
}

/// The header line as a fresh byte string.
fn header_bytes(t: CountType) -> (r: Vec<u8>)
    ensures
        r@ == hist_header(t),
{
    let mut out: Vec<u8> = Vec::new();
    out.push(99u8);
    out.push(111u8);
    out.push(118u8);
    out.push(101u8);
    out.push(114u8);
    out.push(97u8);
    out.push(103u8);
    out.push(101u8);
    out.push(9u8);
    match t {
        CountType::Node => {
            out.push(110u8);
            out.push(111u8);
            out.push(100u8);
            out.push(101u8);
        },
        CountType::Edge => {
            out.push(101u8);
            out.push(100u8);
            out.push(103u8);
            out.push(101u8);
        },
        CountType::Bp => {
            out.push(98u8);
            out.push(112u8);
        },
    }
    proof {
        assert(out@ =~= hist_header(t));
    }
    out
}

impl Hist {
    /// Reads a histogram back from its tab-separated form.
    pub fn from_tsv(data: &Vec<u8>) -> (r: Result<Hist, CountError>)
        ensures
            match r {
                Ok(h) => spec_parse_hist(data@) == Ok::<(CountType, Seq<usize>), CountError>(
                    (h.count_type, h.coverage@),
                ),
                Err(e) => spec_parse_hist(data@) == Err::<(CountType, Seq<usize>), CountError>(e),
            },
    {
        let lines = split_range_on(data, 0, data.len(), 10u8);
        let ghost linesv = split_on(data@, 10u8);
        proof {
            assert(data@.subrange(0, data@.len() as int) =~= data@);
        }
        let nl = lines.len();
        if nl < 2 {
            return Err(CountError::FormatError(1));
        }
        let hn = header_bytes(CountType::Node);
        let he = header_bytes(CountType::Edge);
        let hb = header_bytes(CountType::Bp);
        let count_type: CountType = if crate::bytes::bytes_eq(&lines[0], &hn) {
            CountType::Node
        } else if crate::bytes::bytes_eq(&lines[0], &he) {
            CountType::Edge
        } else if crate::bytes::bytes_eq(&lines[0], &hb) {
            CountType::Bp
        } else {
            assert(linesv[0] == lines@[0]@);
            return Err(CountError::FormatError(1));
        };
        assert(linesv[0] == lines@[0]@);
        proof {
            assert(hist_header(CountType::Node)[9] == 110u8);
            assert(hist_header(CountType::Edge)[9] == 101u8);
            assert(hist_header(CountType::Bp)[9] == 98u8);
            assert(hist_header(CountType::Node).len() == 13);
            assert(hist_header(CountType::Edge).len() == 13);
            assert(hist_header(CountType::Bp).len() == 11);
        }
        let ghost dispatch: Result<(CountType, Seq<usize>), CountError> = match parse_hist_from(
            linesv,
            1,
            0,
        ) {
            Ok(cov) => Ok((count_type, cov)),
            Err(e) => Err(e),
        };
        assert(spec_parse_hist(data@) == dispatch);
        let mut coverage: Vec<usize> = Vec::new();
        let mut i: usize = 1;
        proof {
            assert(coverage@ + parse_hist_from(linesv, 1, 0)->Ok_0 =~= parse_hist_from(
                linesv,
                1,
                0,
            )->Ok_0);
        }
        while i < nl - 1
            invariant
                1 <= i <= nl - 1,
                nl == lines@.len(),
                nl >= 2,
                linesv == lines@.map_values(|v: Vec<u8>| v@),
                linesv == split_on(data@, 10u8),
                spec_parse_hist(data@) == (match parse_hist_from(linesv, 1, 0) {
                    Ok(cov) => Ok::<(CountType, Seq<usize>), CountError>((count_type, cov)),
                    Err(e) => Err::<(CountType, Seq<usize>), CountError>(e),
                }),
                coverage@.len() == i - 1,
                match parse_hist_from(linesv, i as int, (i - 1) as nat) {
                    Ok(rest) => parse_hist_from(linesv, 1, 0) == Ok::<Seq<usize>, CountError>(
                        coverage@ + rest,
                    ),
                    Err(e) => parse_hist_from(linesv, 1, 0) == Err::<Seq<usize>, CountError>(e),
                },
            decreases nl - i,
        {
            let line = &lines[i];
            assert(linesv[i as int] == line@);
            let n = line.len();
            let t = match find_byte(line, 0, n, 9u8) {
                None => {
                    return Err(CountError::FormatError(i + 1));
                },
                Some(t) => t,
            };
            proof {
                crate::bytes::lemma_find_from(line@, 0, n as int, 9u8);
            }
            let left = crate::bytes::copy_range(line, 0, t);
            let kd = format_usize(i - 1);
            if !crate::bytes::bytes_eq(&left, &kd) {
                return Err(CountError::FormatError(i + 1));
            }
            let v = match parse_usize_range(line, t + 1, n) {
                None => {
                    return Err(CountError::FormatError(i + 1));
                },
                Some(v) => v,
            };
            let ghost cov0 = coverage@;
            coverage.push(v);
            proof {
                let rest1 = parse_hist_from(linesv, i as int + 1, i as nat);
                match rest1 {
                    Err(_) => {},
                    Ok(s1) => {
                        assert(cov0 + (seq![v] + s1) =~= coverage@ + s1);
                    },
                }
            }
            i = i + 1;
        }
        assert(i == nl - 1);
        let last = &lines[i];
        assert(linesv[i as int] == last@);
        if last.len() != 0 {
            return Err(CountError::FormatError(i + 1));
        }
        proof {
            assert(parse_hist_from(linesv, i as int, (i - 1) as nat) == Ok::<
                Seq<usize>,
                CountError,
            >(Seq::<usize>::empty()));
            assert(coverage@ + Seq::<usize>::empty() =~= coverage@);
        }
        Ok(Hist { count_type, coverage })
    }
}

proof fn lemma_find_from_is(s: Seq<u8>, from: int, end: int, b: u8, i: int)
    requires
        0 <= from <= i < end <= s.len(),
        s[i] == b,
        forall|j: int| from <= j < i ==> s[j] != b,
    ensures
        find_from(s, from, end, b) == Some(i),
    decreases i - from,
{
    if from < i {
        lemma_find_from_is(s, from + 1, end, b, i);
    }
}

/// Splitting at the first newline peels one newline-free line off.
proof fn lemma_split_first(s: Seq<u8>, a: Seq<u8>, b: Seq<u8>)
    requires
        s == a + seq![10u8] + b,
        no_lf(a),
    ensures
        split_on(s, 10u8) == seq![a] + split_on(b, 10u8),
{
    assert(s[a.len() as int] == 10u8);
    assert forall|j: int| 0 <= j < a.len() implies s[j] != 10u8 by {
        assert(s[j] == a[j]);
    }
    lemma_find_from_is(s, 0, s.len() as int, 10u8, a.len() as int);
    assert(s.subrange(0, a.len() as int) =~= a);
    assert(s.skip(a.len() as int + 1) =~= b);
}

proof fn lemma_no_lf_digits(n: nat)
    ensures
        no_lf(dec_digits(n)),
        forall|j: int|
            0 <= j < dec_digits(n).len() ==> (#[trigger] dec_digits(n)[j]) != 9u8,
{
    lemma_dec_digits_wf(n);
}

/// A parse of the tail does not depend on lines before it.
proof fn lemma_parse_shift(x: Seq<u8>, rest: Seq<Seq<u8>>, i: int, k: nat)
    requires
        0 <= i,
        parse_hist_from(rest, i, k) is Ok,
    ensures
        parse_hist_from(seq![x] + rest, i + 1, k) == parse_hist_from(rest, i, k),
    decreases rest.len() - i,
{
    let lines = seq![x] + rest;
    assert(lines[i + 1] == rest[i]);
    if i < rest.len() && i != rest.len() - 1 {
        let line = rest[i];
        match find_from(line, 0, line.len() as int, 9u8) {
            None => {},
            Some(t) => {
                let right = line.subrange(t + 1, line.len() as int);
                if line.subrange(0, t) == dec_digits(k) && right.len() > 0 && all_digits(right)
                    && dec_value(right) <= usize::MAX {
                    lemma_parse_shift(x, rest, i + 1, k + 1);
                }
            },
        }
    }
}

/// Reading back the body lines for buckets `k..` gives those buckets.
proof fn lemma_hist_lines_round(cov: Seq<usize>, k: int)
    requires
        0 <= k <= cov.len(),
        cov.len() <= usize::MAX,
    ensures
        split_on(hist_lines(cov, k), 10u8).len() == cov.len() - k + 1,
        parse_hist_from(split_on(hist_lines(cov, k), 10u8), 0, k as nat) == Ok::<
            Seq<usize>,
            CountError,
        >(cov.skip(k)),
    decreases cov.len() - k,
{
    if k == cov.len() {
        let e = hist_lines(cov, k);
        assert(e =~= Seq::<u8>::empty());
        crate::bytes::lemma_find_from(e, 0, e.len() as int, 10u8);
        assert(split_on(e, 10u8) == seq![e]);
        assert(cov.skip(k) =~= Seq::<usize>::empty());
    } else {
        let dk = dec_digits(k as nat);
        let dv = dec_digits(cov[k] as nat);
        let linek = dk + seq![9u8] + dv;
        let tail = hist_lines(cov, k + 1);
        lemma_no_lf_digits(k as nat);
        lemma_no_lf_digits(cov[k] as nat);
        lemma_dec_digits_wf(k as nat);
        lemma_dec_digits_wf(cov[k] as nat);
        assert(no_lf(linek)) by {
            assert forall|j: int| 0 <= j < linek.len() implies (#[trigger] linek[j]) != 10u8 by {
                if j < dk.len() {
                    assert(linek[j] == dk[j]);
                } else if j == dk.len() {
                    assert(linek[j] == 9u8);
                } else {
                    assert(linek[j] == dv[j - dk.len() - 1]);
                }
            }
        }
        assert(hist_lines(cov, k) =~= linek + seq![10u8] + tail);
        lemma_split_first(hist_lines(cov, k), linek, tail);
        lemma_hist_lines_round(cov, k + 1);
        let rest_lines = split_on(tail, 10u8);
        let lines = split_on(hist_lines(cov, k), 10u8);
        assert(lines == seq![linek] + rest_lines);
        assert(lines.len() == cov.len() - k + 1);
        assert(lines[0] == linek);
        lemma_find_from_is(linek, 0, linek.len() as int, 9u8, dk.len() as int);
        assert(linek.subrange(0, dk.len() as int) =~= dk);
        let right = linek.subrange(dk.len() as int + 1, linek.len() as int);
        assert(right =~= dv);
        lemma_dec_round_trip(cov[k] as nat);
        assert(dec_value(right) == cov[k]);
        lemma_parse_shift(linek, rest_lines, 0, (k + 1) as nat);
        assert(parse_hist_from(lines, 1, (k + 1) as nat) == Ok::<Seq<usize>, CountError>(
            cov.skip(k + 1),
        ));
        assert(parse_hist_from(lines, 0, k as nat) == Ok::<Seq<usize>, CountError>(
            seq![cov[k]] + cov.skip(k + 1),
        ));
        assert(seq![cov[k]] + cov.skip(k + 1) =~= cov.skip(k));
    }
}

/// Reading back the tab-separated form of a histogram gives the histogram,
/// bit for bit: the serialiser and the parser are exact inverses.
pub proof fn lemma_hist_tsv_round_trip(t: CountType, cov: Seq<usize>)
    requires
        cov.len() <= usize::MAX,
    ensures
        spec_parse_hist(hist_tsv(t, cov)) == Ok::<(CountType, Seq<usize>), CountError>((t, cov)),
{
    let head = hist_header(t);
    let body = hist_lines(cov, 0);
    assert(no_lf(head)) by {
        let name = count_type_name(t);
        assert forall|j: int| 0 <= j < head.len() implies (#[trigger] head[j]) != 10u8 by {
            if j < 9 {
                assert(head[j] == seq![99u8, 111u8, 118u8, 101u8, 114u8, 97u8, 103u8, 101u8, 9u8][
                j]);
            } else {
                assert(head[j] == name[j - 9]);
            }
        }
    }
    assert(hist_tsv(t, cov) =~= head + seq![10u8] + body);
    lemma_split_first(hist_tsv(t, cov), head, body);
    lemma_hist_lines_round(cov, 0);
    let lines = split_on(hist_tsv(t, cov), 10u8);
    let body_lines = split_on(body, 10u8);
    assert(lines == seq![head] + body_lines);
    assert(lines.len() >= 2);
    assert(lines[0] == head);
    assert(hist_header(CountType::Node)[9] == 110u8);
    assert(hist_header(CountType::Edge)[9] == 101u8);
    assert(hist_header(CountType::Bp)[9] == 98u8);
    lemma_parse_shift(head, body_lines, 0, 0);
    assert(parse_hist_from(lines, 1, 0) == Ok::<Seq<usize>, CountError>(cov.skip(0)));
    assert(cov.skip(0) =~= cov);
}

} // verus!
