//! GFA1 record parsing and the two streaming passes of the counting core.
//! All functions work on byte strings that the caller has read; the first
//! pass builds the `GraphIndex`, the second deposits path/walk items into an
//! `ItemTable` under subset coordinate filters.

use rayon::iter::ParallelIterator;
use rayon::slice::ParallelSlice;
use vstd::prelude::*;
use crate::abacus::{
    counted_from,
    effective_ivs,
    map_find,
    map_find_vec,
    spec_subpath_map,
    table_models,
    ItemTable,
    build_subpath_map,
};
use crate::bytes::{
    clone_bytes,
    copy_range,
    find3_from,
    find_byte,
    find_byte3,
    find_from,
    split_on,
    split_on2,
    split_range_on,
};
use crate::dec::{all_digits, dec_value, parse_usize_range};
use crate::graph::{
    seq_index_of,
    GraphIndex,
    GraphIndexV,
    PathSegment,
    PathSegmentV,
    spec_parse_path_segment,
};
use crate::util::CountError;

verus! {

pub const TAB: u8 = 9;
pub const LF: u8 = 10;
pub const CR: u8 = 13;

/// End of the tab-delimited field that starts at `from`: the next tab,
/// carriage return or line feed, or the line's end.
pub open spec fn field_end(line: Seq<u8>, from: int) -> int {
    match find3_from(line, from, line.len() as int, TAB, LF, CR) {
        Some(i) => i,
        None => line.len() as int,
    }
}

/// Exec twin of [`field_end`].
pub fn field_end_at(line: &Vec<u8>, from: usize) -> (r: usize)
    requires
        from <= line@.len(),
    ensures
        r == field_end(line@, from as int),
        from <= r <= line@.len(),
{
    proof {
        crate::bytes::lemma_find3_from(line@, from as int, line@.len() as int, TAB, LF, CR);
    }
    match find_byte3(line, from, line.len(), TAB, LF, CR) {
        Some(i) => i,
        None => line.len(),
    }
}

/// An `S` record: the segment's name and the byte length of its sequence
/// field. `None` when the record has fewer than three fields.
pub open spec fn spec_parse_segment(line: Seq<u8>) -> Option<(Seq<u8>, int)> {
    match find_from(line, 0, line.len() as int, TAB) {
        None => None,
        Some(t0) => match find_from(line, t0 + 1, line.len() as int, TAB) {
            None => None,
            Some(t1) => {
                let e = field_end(line, t1 + 1);
                Some((line.subrange(t0 + 1, t1), e - (t1 + 1)))
            },
        },
    }
}

/// Reads an `S` record: segment name and sequence length in bytes.
pub fn parse_segment_line(line: &Vec<u8>) -> (r: Option<(Vec<u8>, usize)>)
    ensures
        match r {
            Some((name, l)) => spec_parse_segment(line@) == Some((name@, l as int)),
            None => spec_parse_segment(line@) is None,
        },
{
    let n = line.len();
    let t0 = match find_byte(line, 0, n, TAB) {
        None => {
            return None;
        },
        Some(t) => t,
    };
    proof {
        crate::bytes::lemma_find_from(line@, 0, n as int, TAB);
    }
    let t1 = match find_byte(line, t0 + 1, n, TAB) {
        None => {
            return None;
        },
        Some(t) => t,
    };
    proof {
        crate::bytes::lemma_find_from(line@, t0 + 1 as int, n as int, TAB);
    }
    let name = copy_range(line, t0 + 1, t1);
    let e = field_end_at(line, t1 + 1);
    Some((name, e - (t1 + 1)))
}

pub open spec fn orient_key(b: u8) -> u8 {
    if b == 43u8 {
        62u8
    } else {
        60u8
    }
}

/// Whether a field is exactly `+` or `-`.
pub open spec fn is_orient_field(f: Seq<u8>) -> bool {
    f.len() == 1 && (f[0] == 43u8 || f[0] == 45u8)
}

/// An `L` record: the canonical edge key `(>|<, src, >|<, dst)` as one byte
/// string, orientations mapped `+` to `>` and `-` to `<`. `None` when fields
/// are missing or an orientation field is not exactly `+` or `-`.
pub open spec fn spec_parse_link(line: Seq<u8>) -> Option<Seq<u8>> {
    match find_from(line, 0, line.len() as int, TAB) {
        None => None,
        Some(t0) => match find_from(line, t0 + 1, line.len() as int, TAB) {
            None => None,
            Some(t1) => match find_from(line, t1 + 1, line.len() as int, TAB) {
                None => None,
                Some(t2) => {
                    let src = line.subrange(t0 + 1, t1);
                    let o1 = line.subrange(t1 + 1, t2);
                    let t3 = field_end(line, t2 + 1);
                    let dst = line.subrange(t2 + 1, t3);
                    let e = field_end(line, t3 + 1);
                    let o2 = if t3 < line.len() {
                        line.subrange(t3 + 1, e)
                    } else {
                        Seq::<u8>::empty()
                    };
                    if is_orient_field(o1) && is_orient_field(o2) {
                        Some(seq![orient_key(o1[0])] + src + seq![orient_key(o2[0])] + dst)
                    } else {
                        None
                    }
                },
            },
        },
    }
}

/// Reads an `L` record into its canonical edge key.
pub fn parse_link_line(line: &Vec<u8>) -> (r: Option<Vec<u8>>)
    ensures
        match r {
            Some(key) => spec_parse_link(line@) == Some(key@),
            None => spec_parse_link(line@) is None,
        },
{
    let n = line.len();
    let t0 = match find_byte(line, 0, n, TAB) {
        None => {
            return None;
        },
        Some(t) => t,
    };
    proof {
        crate::bytes::lemma_find_from(line@, 0, n as int, TAB);
    }
    let t1 = match find_byte(line, t0 + 1, n, TAB) {
        None => {
            return None;
        },
        Some(t) => t,
    };
    proof {
        crate::bytes::lemma_find_from(line@, t0 + 1 as int, n as int, TAB);
    }
    let t2 = match find_byte(line, t1 + 1, n, TAB) {
        None => {
            return None;
        },
        Some(t) => t,
    };
    proof {
        crate::bytes::lemma_find_from(line@, t1 + 1 as int, n as int, TAB);
    }
    let t3 = field_end_at(line, t2 + 1);
    let e = if t3 < n {
        field_end_at(line, t3 + 1)
    } else {
        t3
    };
    let o1_ok = t2 - (t1 + 1) == 1 && (line[t1 + 1] == 43u8 || line[t1 + 1] == 45u8);
    let o2_ok = t3 < n && e - (t3 + 1) == 1 && (line[t3 + 1] == 43u8 || line[t3 + 1] == 45u8);
    proof {
        let o1 = line@.subrange(t1 + 1 as int, t2 as int);
        assert(o1_ok == is_orient_field(o1));
        if t3 < n {
            let o2 = line@.subrange(t3 + 1 as int, e as int);
            assert((e - (t3 + 1) == 1 && (line@[t3 + 1 as int] == 43u8 || line@[t3 + 1 as int]
                == 45u8)) == is_orient_field(o2));
        } else {
            assert(!is_orient_field(Seq::<u8>::empty()));
        }
    }
    if !(o1_ok && o2_ok) {
        return None;
    }
    let mut key: Vec<u8> = Vec::new();
    key.push(if line[t1 + 1] == 43u8 {
        62u8
    } else {
        60u8
    });
    let mut i: usize = t0 + 1;
    while i < t1
        invariant
            t0 + 1 <= i <= t1 <= line@.len(),
            key@ == seq![orient_key(line@[t1 + 1 as int])] + line@.subrange(
                t0 + 1 as int,
                i as int,
            ),
        decreases t1 - i,
    {
        key.push(line[i]);
        assert(key@ =~= seq![orient_key(line@[t1 + 1 as int])] + line@.subrange(
            t0 + 1 as int,
            i as int + 1,
        ));
        i = i + 1;
    }
    key.push(if line[t3 + 1] == 43u8 {
        62u8
    } else {
        60u8
    });
    let ghost mid = seq![orient_key(line@[t1 + 1 as int])] + line@.subrange(
        t0 + 1 as int,
        t1 as int,
    ) + seq![orient_key(line@[t3 + 1 as int])];
    assert(key@ =~= mid);
    let mut j: usize = t2 + 1;
    while j < t3
        invariant
            t2 + 1 <= j <= t3 <= line@.len(),
            key@ == mid + line@.subrange(t2 + 1 as int, j as int),
        decreases t3 - j,
    {
        key.push(line[j]);
        assert(key@ =~= mid + line@.subrange(t2 + 1 as int, j as int + 1));
        j = j + 1;
    }
    proof {
        let src = line@.subrange(t0 + 1 as int, t1 as int);
        let dst = line@.subrange(t2 + 1 as int, t3 as int);
        assert(key@ =~= seq![orient_key(line@[t1 + 1 as int])] + src + seq![
            orient_key(line@[t3 + 1 as int]),
        ] + dst);
        let o1 = line@.subrange(t1 + 1 as int, t2 as int);
        let o2 = line@.subrange(t3 + 1 as int, e as int);
        assert(o1[0] == line@[t1 + 1 as int]);
        assert(o2[0] == line@[t3 + 1 as int]);
    }
    Some(key)
}

/// A `P` record header: the path's segment and the index where the body
/// starts. `None` when the record has fewer than three fields or the name is
/// malformed.
pub open spec fn spec_parse_p_header(line: Seq<u8>) -> Option<(PathSegmentV, int)> {
    match find_from(line, 0, line.len() as int, TAB) {
        None => None,
        Some(t0) => match find_from(line, t0 + 1, line.len() as int, TAB) {
            None => None,
            Some(t1) => match spec_parse_path_segment(line.subrange(t0 + 1, t1)) {
                None => None,
                Some(ps) => Some((ps, t1 + 1)),
            },
        },
    }
}

/// Reads a `P` record header: the path's segment and where its body starts.
pub fn parse_path_identifier(line: &Vec<u8>) -> (r: Option<(PathSegment, usize)>)
    ensures
        match r {
            Some((ps, body)) => spec_parse_p_header(line@) == Some((ps@, body as int)) && body
                <= line@.len(),
            None => spec_parse_p_header(line@) is None,
        },
{
    let n = line.len();
    let t0 = match find_byte(line, 0, n, TAB) {
        None => {
            return None;
        },
        Some(t) => t,
    };
    proof {
        crate::bytes::lemma_find_from(line@, 0, n as int, TAB);
    }
    let t1 = match find_byte(line, t0 + 1, n, TAB) {
        None => {
            return None;
        },
        Some(t) => t,
    };
    proof {
        crate::bytes::lemma_find_from(line@, t0 + 1 as int, n as int, TAB);
    }
    let name = copy_range(line, t0 + 1, t1);
    match PathSegment::from_bytes(&name) {
        None => None,
        Some(ps) => {
            assert(t1 + 1 <= n);
            Some((ps, t1 + 1))
        },
    }
}

/// A `W` record header: sample, haplotype, sequence id, optional coordinates
/// (`*` means absent), and the index where the body starts. `None` when a
/// field is missing or a coordinate field is neither `*` nor a number.
pub open spec fn spec_parse_w_header(line: Seq<u8>) -> Option<(PathSegmentV, int)> {
    match find_from(line, 0, line.len() as int, TAB) {
        None => None,
        Some(t0) => match find_from(line, t0 + 1, line.len() as int, TAB) {
            None => None,
            Some(t1) => match find_from(line, t1 + 1, line.len() as int, TAB) {
                None => None,
                Some(t2) => match find_from(line, t2 + 1, line.len() as int, TAB) {
                    None => None,
                    Some(t3) => match find_from(line, t3 + 1, line.len() as int, TAB) {
                        None => None,
                        Some(t4) => match find_from(line, t4 + 1, line.len() as int, TAB) {
                            None => None,
                            Some(t5) => {
                                let sample = line.subrange(t0 + 1, t1);
                                let hap = line.subrange(t1 + 1, t2);
                                let seqid = line.subrange(t2 + 1, t3);
                                let f4 = line.subrange(t3 + 1, t4);
                                let f5 = line.subrange(t4 + 1, t5);
                                match (spec_walk_coord(f4), spec_walk_coord(f5)) {
                                    (Some(st), Some(en)) => Some(
                                        (
                                            PathSegmentV {
                                                sample: sample,
                                                haplotype: Some(hap),
                                                seqid: Some(seqid),
                                                start: st,
                                                end: en,
                                            },
                                            t5 + 1,
                                        ),
                                    ),
                                    _ => None,
                                }
                            },
                        },
                    },
                },
            },
        },
    }
}

/// A walk coordinate field: `*` denotes an unknown coordinate, otherwise the
/// field must be a number that fits the machine word.
pub open spec fn spec_walk_coord(f: Seq<u8>) -> Option<Option<usize>> {
    if f.len() == 1 && f[0] == 42u8 {
        Some(None)
    } else if f.len() > 0 && all_digits(f) && dec_value(f) <= usize::MAX {
        Some(Some(dec_value(f) as usize))
    } else {
        None
    }
}

/// Reads one walk coordinate field from `line[from..end]`.
fn parse_walk_coord(line: &Vec<u8>, from: usize, end: usize) -> (r: Option<Option<usize>>)
    requires
        from <= end <= line@.len(),
    ensures
        r == spec_walk_coord(line@.subrange(from as int, end as int)),
{
    let ghost f = line@.subrange(from as int, end as int);
    if end - from == 1 && line[from] == 42u8 {
        assert(f.len() == 1 && f[0] == 42u8);
        return Some(None);
    }
    assert(!(f.len() == 1 && f[0] == 42u8));
    match parse_usize_range(line, from, end) {
        Some(v) => Some(Some(v)),
        None => None,
    }
}

/// Reads a `W` record header: the walk's segment and where its body starts.
pub fn parse_walk_identifier(line: &Vec<u8>) -> (r: Option<(PathSegment, usize)>)
    ensures
        match r {
            Some((ps, body)) => spec_parse_w_header(line@) == Some((ps@, body as int)) && body
                <= line@.len(),
            None => spec_parse_w_header(line@) is None,
        },
{
    let n = line.len();
    let t0 = match find_byte(line, 0, n, TAB) {
        None => {
            return None;
        },
        Some(t) => t,
    };
    proof {
        crate::bytes::lemma_find_from(line@, 0, n as int, TAB);
    }
    let t1 = match find_byte(line, t0 + 1, n, TAB) {
        None => {
            return None;
        },
        Some(t) => t,
    };
    proof {
        crate::bytes::lemma_find_from(line@, t0 + 1 as int, n as int, TAB);
    }
    let t2 = match find_byte(line, t1 + 1, n, TAB) {
        None => {
            return None;
        },
        Some(t) => t,
    };
    proof {
        crate::bytes::lemma_find_from(line@, t1 + 1 as int, n as int, TAB);
    }
    let t3 = match find_byte(line, t2 + 1, n, TAB) {
        None => {
            return None;
        },
        Some(t) => t,
    };
    proof {
        crate::bytes::lemma_find_from(line@, t2 + 1 as int, n as int, TAB);
    }
    let t4 = match find_byte(line, t3 + 1, n, TAB) {
        None => {
            return None;
        },
        Some(t) => t,
    };
    proof {
        crate::bytes::lemma_find_from(line@, t3 + 1 as int, n as int, TAB);
    }
    let t5 = match find_byte(line, t4 + 1, n, TAB) {
        None => {
            return None;
        },
        Some(t) => t,
    };
    proof {
        crate::bytes::lemma_find_from(line@, t4 + 1 as int, n as int, TAB);
    }
    let st = match parse_walk_coord(line, t3 + 1, t4) {
        None => {
            return None;
        },
        Some(c) => c,
    };
    let en = match parse_walk_coord(line, t4 + 1, t5) {
        None => {
            return None;
        },
        Some(c) => c,
    };
    let sample = copy_range(line, t0 + 1, t1);
    let hap = copy_range(line, t1 + 1, t2);
    let seqid = copy_range(line, t2 + 1, t3);
    let ps = PathSegment::new(sample, Some(hap), Some(seqid), st, en);
    Some((ps, t5 + 1))
}

/// Tells a path-body separator: the comma between oriented segment tokens.
pub fn is_comma(x: u8) -> (r: bool)
    ensures
        r == (x == 44u8),
{
    x == 44
}

/// Tells a walk-body separator: a `<` or `>` orientation byte.
pub fn is_walk_sep(x: u8) -> (r: bool)
    ensures
        r == (x == 60u8 || x == 62u8),
{
    x == 60 || x == 62
}

/// Relies on rayon's `ParallelSlice::par_split`: parallel subslices separated
/// by elements matching the predicate, gathered in order; the same segments as
/// a sequential split, empty segments included.
#[verifier::external_body]
fn par_split_commas(data: &Vec<u8>) -> (r: Vec<Vec<u8>>)
    ensures
        r@.map_values(|v: Vec<u8>| v@) == split_on(data@, 44u8),
{
    data.as_slice().par_split(|x: &u8| is_comma(*x)).map(|s: &[u8]| s.to_vec()).collect()
}

/// Relies on rayon's `ParallelSlice::par_split`: parallel subslices separated
/// by elements matching the predicate, gathered in order; the same segments as
/// a sequential split, empty segments included.
#[verifier::external_body]
fn par_split_walk_steps(data: &Vec<u8>) -> (r: Vec<Vec<u8>>)
    ensures
        r@.map_values(|v: Vec<u8>| v@) == split_on2(data@, 60u8, 62u8),
{
    data.as_slice().par_split(|x: &u8| is_walk_sep(*x)).map(|s: &[u8]| s.to_vec()).collect()
}

/// The node id of one path-body token `name+` or `name-`.
pub open spec fn spec_path_token_id(g: GraphIndexV, tok: Seq<u8>) -> Option<u32> {
    if tok.len() < 1 {
        None
    } else if tok.last() != 43u8 && tok.last() != 45u8 {
        None
    } else {
        match g.node_id_of(tok.drop_last()) {
            None => None,
            Some(i) => Some(i as u32),
        }
    }
}

/// The node ids of the path-body tokens `toks[i..]`; `None` when a token is
/// malformed or names an unknown node.
pub open spec fn path_ids_from(g: GraphIndexV, toks: Seq<Seq<u8>>, i: int) -> Option<Seq<u32>>
    decreases toks.len() - i,
{
    if i < 0 || i >= toks.len() {
        Some(Seq::<u32>::empty())
    } else {
        match spec_path_token_id(g, toks[i]) {
            None => None,
            Some(id) => match path_ids_from(g, toks, i + 1) {
                None => None,
                Some(rest) => Some(seq![id] + rest),
            },
        }
    }
}

/// The node ids of the walk-body tokens `toks[i..]` (each a bare node name);
/// `None` when a token names an unknown node.
pub open spec fn walk_ids_from(g: GraphIndexV, toks: Seq<Seq<u8>>, i: int) -> Option<Seq<u32>>
    decreases toks.len() - i,
{
    if i < 0 || i >= toks.len() {
        Some(Seq::<u32>::empty())
    } else {
        match g.node_id_of(toks[i]) {
            None => None,
            Some(id) => match walk_ids_from(g, toks, i + 1) {
                None => None,
                Some(rest) => Some(seq![id as u32] + rest),
            },
        }
    }
}

/// Maps path-body tokens to node ids; `walk` selects the bare-name form.
fn body_ids(g: &GraphIndex, toks: &Vec<Vec<u8>>, walk: bool) -> (r: Option<Vec<u32>>)
    requires
        g@.wf(),
    ensures
        ({
            let tv = toks@.map_values(|v: Vec<u8>| v@);
            let spec = if walk {
                walk_ids_from(g@, tv, 0)
            } else {
                path_ids_from(g@, tv, 0)
            };
            match r {
                Some(v) => spec == Some(v@) && forall|j: int|
                    0 <= j < v@.len() ==> (#[trigger] v@[j]) < g@.node_names.len(),
                None => spec is None,
            }
        }),
{
    let ghost tv = toks@.map_values(|v: Vec<u8>| v@);
    let n = toks.len();
    let mut out: Vec<u32> = Vec::new();
    let mut i: usize = 0;
    while i < n
        invariant
            i <= n,
            n == toks@.len(),
            g@.wf(),
            tv == toks@.map_values(|v: Vec<u8>| v@),
            forall|j: int| 0 <= j < out@.len() ==> (#[trigger] out@[j]) < g@.node_names.len(),
            ({
                let spec = if walk {
                    walk_ids_from(g@, tv, 0)
                } else {
                    path_ids_from(g@, tv, 0)
                };
                let rest = if walk {
                    walk_ids_from(g@, tv, i as int)
                } else {
                    path_ids_from(g@, tv, i as int)
                };
                match rest {
                    None => spec is None,
                    Some(s) => spec == Some(out@ + s),
                }
            }),
        decreases n - i,
    {
        let tok = &toks[i];
        assert(tv[i as int] == tok@);
        let id: Option<u32> = if walk {
            g.node_id(tok)
        } else {
            let tl = tok.len();
            if tl < 1 {
                None
            } else {
                let o = tok[tl - 1];
                if o != 43u8 && o != 45u8 {
                    None
                } else {
                    let name = copy_range(tok, 0, tl - 1);
                    assert(name@ =~= tok@.drop_last());
                    g.node_id(&name)
                }
            }
        };
        proof {
            match id {
                Some(v) => {
                    crate::graph::lemma_seq_index_of(g@.node_names, if walk {
                        tv[i as int]
                    } else {
                        tv[i as int].drop_last()
                    }, 0);
                },
                None => {},
            }
        }
        match id {
            None => {
                return None;
            },
            Some(v) => {
                let ghost out0 = out@;
                out.push(v);
                proof {
                    let rest1 = if walk {
                        walk_ids_from(g@, tv, i as int + 1)
                    } else {
                        path_ids_from(g@, tv, i as int + 1)
                    };
                    match rest1 {
                        None => {},
                        Some(s1) => {
                            assert(out0 + (seq![v] + s1) =~= out@ + s1);
                        },
                    }
                }
            },
        }
        i = i + 1;
    }
    proof {
        assert(out@ + Seq::<u32>::empty() =~= out@);
    }
    Some(out)
}

/// Walks a body's node ids along the path, collecting those the subset
/// intervals admit.
fn collect_counted(
    sids: &Vec<u32>,
    node_len: &Vec<u32>,
    p0: usize,
    ivs: &Vec<(usize, usize)>,
) -> (r: Vec<u32>)
    requires
        forall|j: int| 0 <= j < sids@.len() ==> (#[trigger] sids@[j]) < node_len@.len(),
    ensures
        r@ == counted_from(sids@, node_len@, p0 as nat, ivs@),
{
    let ghost target = counted_from(sids@, node_len@, p0 as nat, ivs@);
    let n = sids.len();
    let m = ivs.len();
    let mut out: Vec<u32> = Vec::new();
    let mut p: u128 = p0 as u128;
    let mut c: usize = 0;
    let mut k: usize = 0;
    proof {
        assert(sids@.skip(0) =~= sids@);
        assert(Seq::<u32>::empty() + target =~= target);
        assert(0int * (u32::MAX as int) == 0) by (nonlinear_arith);
    }
    while k < n
        invariant
            k <= n,
            c <= m,
            n == sids@.len(),
            m == ivs@.len(),
            forall|j: int| 0 <= j < sids@.len() ==> (#[trigger] sids@[j]) < node_len@.len(),
            p <= u64::MAX + (k as int) * (u32::MAX as int),
            forall|j: int| 0 <= j < c ==> (#[trigger] ivs@[j]).1 <= p,
            target == out@ + counted_from(sids@.skip(k as int), node_len@, p as nat, ivs@),
        decreases n - k,
    {
        let id = sids[k];
        let l: u32 = node_len[id as usize];
        proof {
            assert(p + l <= u64::MAX + (k as int) * (u32::MAX as int) + u32::MAX);
            assert(u64::MAX + (k as int) * (u32::MAX as int) + u32::MAX == u64::MAX + (k as int
                + 1) * (u32::MAX as int)) by (nonlinear_arith);
            assert((k as int + 1) * (u32::MAX as int) <= (n as int) * (u32::MAX as int)) by (
            nonlinear_arith)
                requires
                    k as int + 1 <= n as int,
            ;
            assert((n as int) * (u32::MAX as int) <= usize::MAX * (u32::MAX as int)) by (
            nonlinear_arith)
                requires
                    n <= usize::MAX,
            ;
        }
        while c < m
            invariant
                c <= m,
                m == ivs@.len(),
                forall|j: int| 0 <= j < c ==> (#[trigger] ivs@[j]).1 <= p,
            ensures
                c <= m,
                forall|j: int| 0 <= j < c ==> (#[trigger] ivs@[j]).1 <= p,
                c < m ==> ivs@[c as int].1 > p,
            decreases m - c,
        {
            if (ivs[c].1 as u128) > p {
                break ;
            }
            c = c + 1;
        }
        proof {
            crate::abacus::lemma_active_idx_skip(ivs@, c as int, p as nat);
        }
        let covered: bool = if c < m {
            assert(crate::abacus::active_idx(ivs@, c as int, p as nat) == Some(c as int));
            (ivs[c].0 as u128) <= p && p + (l as u128) <= (ivs[c].1 as u128)
        } else {
            assert(crate::abacus::active_idx(ivs@, c as int, p as nat) is None);
            false
        };
        assert(covered == crate::abacus::covered_node(ivs@, p as nat, l as nat));
        let ghost out0 = out@;
        if covered {
            out.push(id);
        }
        proof {
            let suf = sids@.skip(k as int);
            assert(suf[0] == id);
            assert(suf.skip(1) =~= sids@.skip(k as int + 1));
            if covered {
                assert(out0 + (seq![id] + counted_from(
                    sids@.skip(k as int + 1),
                    node_len@,
                    (p + l) as nat,
                    ivs@,
                )) =~= out@ + counted_from(
                    sids@.skip(k as int + 1),
                    node_len@,
                    (p + l) as nat,
                    ivs@,
                ));
            }
        }
        p = p + (l as u128);
        k = k + 1;
    }
    proof {
        assert(sids@.skip(n as int) =~= Seq::<u32>::empty());
        assert(out@ + Seq::<u32>::empty() =~= out@);
    }
    out
}

/// The admitted node ids of a `P` record's body, or `None` when a token is
/// malformed or names an unknown node.
pub open spec fn spec_path_counted(
    g: GraphIndexV,
    line: Seq<u8>,
    body_start: int,
    p0: nat,
    ivs: Seq<(usize, usize)>,
) -> Option<Seq<u32>> {
    let body = line.subrange(body_start, field_end(line, body_start));
    match path_ids_from(g, split_on(body, 44u8), 0) {
        None => None,
        Some(ids) => Some(counted_from(ids, g.node_len, p0, ivs)),
    }
}

/// The admitted node ids of a `W` record's body: the leading orientation byte
/// is consumed, the rest splits on `<`/`>`. An empty body holds no items.
pub open spec fn spec_walk_counted(
    g: GraphIndexV,
    line: Seq<u8>,
    body_start: int,
    p0: nat,
    ivs: Seq<(usize, usize)>,
) -> Option<Seq<u32>> {
    let e = field_end(line, body_start);
    if body_start >= e {
        Some(Seq::<u32>::empty())
    } else {
        let body = line.subrange(body_start + 1, e);
        match walk_ids_from(g, split_on2(body, 60u8, 62u8), 0) {
            None => None,
            Some(ids) => Some(counted_from(ids, g.node_len, p0, ivs)),
        }
    }
}

/// Scans a `P` record's body under the subset intervals and deposits the
/// admitted items as one more path of the table.
pub fn parse_path_seq(
    line: &Vec<u8>,
    body_start: usize,
    graph: &GraphIndex,
    p0: usize,
    ivs: &Vec<(usize, usize)>,
    lineno: usize,
    table: &mut ItemTable,
    Ghost(bodies): Ghost<Seq<Seq<u32>>>,
) -> (r: Result<(), CountError>)
    requires
        graph@.wf(),
        body_start <= line@.len(),
        table_models(old(table)@, bodies),
    ensures
        ({
            let spec = spec_path_counted(graph@, line@, body_start as int, p0 as nat, ivs@);
            match r {
                Ok(_) => spec is Some && table_models(final(table)@, bodies.push(spec->0)),
                Err(e) => spec is None && e == CountError::FormatError(lineno) && final(table)@
                    == old(table)@,
            }
        }),
{
    let e = field_end_at(line, body_start);
    let body = copy_range(line, body_start, e);
    let toks = par_split_commas(&body);
    match body_ids(graph, &toks, false) {
        None => Err(CountError::FormatError(lineno)),
        Some(ids) => {
            let counted = collect_counted(&ids, &graph.node_len, p0, ivs);
            table.deposit(&counted, Ghost(bodies));
            Ok(())
        },
    }
}

/// Scans a `W` record's body under the subset intervals and deposits the
/// admitted items as one more path of the table.
pub fn parse_walk_seq(
    line: &Vec<u8>,
    body_start: usize,
    graph: &GraphIndex,
    p0: usize,
    ivs: &Vec<(usize, usize)>,
    lineno: usize,
    table: &mut ItemTable,
    Ghost(bodies): Ghost<Seq<Seq<u32>>>,
) -> (r: Result<(), CountError>)
    requires
        graph@.wf(),
        body_start <= line@.len(),
        table_models(old(table)@, bodies),
    ensures
        ({
            let spec = spec_walk_counted(graph@, line@, body_start as int, p0 as nat, ivs@);
            match r {
                Ok(_) => spec is Some && table_models(final(table)@, bodies.push(spec->0)),
                Err(e) => spec is None && e == CountError::FormatError(lineno) && final(table)@
                    == old(table)@,
            }
        }),
{
    let e = field_end_at(line, body_start);
    if body_start >= e {
        let counted: Vec<u32> = Vec::new();
        proof {
            assert(counted_from(counted@, graph@.node_len, p0 as nat, ivs@) =~= Seq::<
                u32,
            >::empty());
        }
        table.deposit(&counted, Ghost(bodies));
        return Ok(());
    }
    let body = copy_range(line, body_start + 1, e);
    let toks = par_split_walk_steps(&body);
    match body_ids(graph, &toks, true) {
        None => Err(CountError::FormatError(lineno)),
        Some(ids) => {
            let counted = collect_counted(&ids, &graph.node_len, p0, ivs);
            table.deposit(&counted, Ghost(bodies));
            Ok(())
        },
    }
}

/// The start offset of a path along its own coordinates: the start when both
/// coordinates are present, zero otherwise.
pub open spec fn start_offset(ps: PathSegmentV) -> nat {
    match (ps.start, ps.end) {
        (Some(a), Some(b)) => a as nat,
        _ => 0,
    }
}

/// The second pass folded over `lines[i..]`: the admitted items of every `P`
/// and `W` body under the subset map, one entry per path in source order.
pub open spec fn nodecount_from(
    lines: Seq<Seq<u8>>,
    i: int,
    g: GraphIndexV,
    has_subset: bool,
    m: Seq<(PathSegmentV, Seq<(usize, usize)>)>,
    acc: Seq<Seq<u32>>,
) -> Result<Seq<Seq<u32>>, CountError>
    decreases lines.len() - i,
{
    if i < 0 || i >= lines.len() {
        Ok(acc)
    } else {
        let line = lines[i];
        if line.len() > 0 && line[0] == 80u8 {
            match spec_parse_p_header(line) {
                None => Err(CountError::FormatError((i + 1) as usize)),
                Some((ps, body)) => {
                    let ivs = effective_ivs(has_subset, m, ps);
                    match spec_path_counted(g, line, body, start_offset(ps), ivs) {
                        None => Err(CountError::FormatError((i + 1) as usize)),
                        Some(c) => nodecount_from(lines, i + 1, g, has_subset, m, acc.push(c)),
                    }
                },
            }
        } else if line.len() > 0 && line[0] == 87u8 {
            match spec_parse_w_header(line) {
                None => Err(CountError::FormatError((i + 1) as usize)),
                Some((ps, body)) => {
                    let ivs = effective_ivs(has_subset, m, ps);
                    match spec_walk_counted(g, line, body, start_offset(ps), ivs) {
                        None => Err(CountError::FormatError((i + 1) as usize)),
                        Some(c) => nodecount_from(lines, i + 1, g, has_subset, m, acc.push(c)),
                    }
                },
            }
        } else {
            nodecount_from(lines, i + 1, g, has_subset, m, acc)
        }
    }
}

/// Whether the subset map names a path with the one full-range interval.
pub open spec fn full_range_for(
    m: Seq<(PathSegmentV, Seq<(usize, usize)>)>,
    ps: PathSegmentV,
) -> bool {
    map_find(m, ps, 0) is Some && m[map_find(m, ps, 0)->0].1 == seq![(0usize, usize::MAX)]
}

/// Whether a line is either no path record or one whose path the subset map
/// covers whole.
pub open spec fn line_fully_subset(
    m: Seq<(PathSegmentV, Seq<(usize, usize)>)>,
    line: Seq<u8>,
) -> bool {
    if line.len() > 0 && line[0] == 80u8 {
        match spec_parse_p_header(line) {
            None => true,
            Some((ps, _)) => full_range_for(m, ps),
        }
    } else if line.len() > 0 && line[0] == 87u8 {
        match spec_parse_w_header(line) {
            None => true,
            Some((ps, _)) => full_range_for(m, ps),
        }
    } else {
        true
    }
}

/// A subset that is the union of all paths equals no subset: when the map
/// names every path of the stream with the full range, the second pass counts
/// exactly what it counts with no subset at all.
pub proof fn lemma_union_subset_is_no_subset(
    lines: Seq<Seq<u8>>,
    i: int,
    g: GraphIndexV,
    m: Seq<(PathSegmentV, Seq<(usize, usize)>)>,
    acc: Seq<Seq<u32>>,
)
    requires
        forall|j: int| i <= j < lines.len() ==> line_fully_subset(m, #[trigger] lines[j]),
    ensures
        nodecount_from(lines, i, g, true, m, acc) == nodecount_from(lines, i, g, false, m, acc),
    decreases lines.len() - i,
{
    if 0 <= i < lines.len() {
        let line = lines[i];
        assert(line_fully_subset(m, line));
        if line.len() > 0 && line[0] == 80u8 {
            match spec_parse_p_header(line) {
                None => {},
                Some((ps, body)) => {
                    crate::abacus::lemma_full_subset_like_none(m, ps);
                    match spec_path_counted(g, line, body, start_offset(ps), effective_ivs(
                        true,
                        m,
                        ps,
                    )) {
                        None => {},
                        Some(c) => {
                            lemma_union_subset_is_no_subset(lines, i + 1, g, m, acc.push(c));
                        },
                    }
                },
            }
        } else if line.len() > 0 && line[0] == 87u8 {
            match spec_parse_w_header(line) {
                None => {},
                Some((ps, body)) => {
                    crate::abacus::lemma_full_subset_like_none(m, ps);
                    match spec_walk_counted(g, line, body, start_offset(ps), effective_ivs(
                        true,
                        m,
                        ps,
                    )) {
                        None => {},
                        Some(c) => {
                            lemma_union_subset_is_no_subset(lines, i + 1, g, m, acc.push(c));
                        },
                    }
                },
            }
        } else {
            lemma_union_subset_is_no_subset(lines, i + 1, g, m, acc);
        }
    }
}

/// Second streaming pass for node counting: reads every `P` and `W` body
/// under the subset filter and fills the sharded count table, one prefix-sum
/// entry per path.
pub fn parse_gfa_nodecount(
    data: &Vec<u8>,
    graph: &GraphIndex,
    subset_coords: Option<&Vec<PathSegment>>,
) -> (r: Result<ItemTable, CountError>)
    requires
        graph@.wf(),
    ensures
        ({
            let lines = split_on(data@, LF);
            let m = match subset_coords {
                Some(c) => spec_subpath_map(c@.map_values(|p: PathSegment| p@)),
                None => Seq::<(PathSegmentV, Seq<(usize, usize)>)>::empty(),
            };
            let spec = nodecount_from(
                lines,
                0,
                graph@,
                subset_coords is Some,
                m,
                Seq::<Seq<u32>>::empty(),
            );
            match r {
                Ok(t) => spec is Ok && table_models(t@, spec->Ok_0),
                Err(e) => spec == Err::<Seq<Seq<u32>>, CountError>(e),
            }
        }),
{
    let lines = split_range_on(data, 0, data.len(), LF);
    let ghost linesv = split_on(data@, LF);
    proof {
        assert(data@.subrange(0, data@.len() as int) =~= data@);
    }
    let has_subset = match subset_coords {
        Some(_) => true,
        None => false,
    };
    let submap: Vec<(PathSegment, Vec<(usize, usize)>)> = match subset_coords {
        Some(c) => build_subpath_map(c),
        None => Vec::new(),
    };
    let ghost mv = match subset_coords {
        Some(c) => spec_subpath_map(c@.map_values(|p: PathSegment| p@)),
        None => Seq::<(PathSegmentV, Seq<(usize, usize)>)>::empty(),
    };
    proof {
        if subset_coords is None {
            assert(crate::abacus::submap_view(submap@) =~= mv);
        }
    }
    let full: Vec<(usize, usize)> = vec![(0usize, usize::MAX)];
    assert(full@ =~= seq![(0usize, usize::MAX)]);
    let none_ivs: Vec<(usize, usize)> = Vec::new();
    let mut table = ItemTable::new();
    let ghost mut bodies = Seq::<Seq<u32>>::empty();
    let n = lines.len();
    let mut i: usize = 0;
    while i < n
        invariant
            i <= n,
            n == lines@.len(),
            linesv == lines@.map_values(|v: Vec<u8>| v@),
            linesv == split_on(data@, LF),
            graph@.wf(),
            has_subset == (subset_coords is Some),
            mv == (match subset_coords {
                Some(c) => spec_subpath_map(c@.map_values(|p: PathSegment| p@)),
                None => Seq::<(PathSegmentV, Seq<(usize, usize)>)>::empty(),
            }),
            full@ == seq![(0usize, usize::MAX)],
            none_ivs@ == Seq::<(usize, usize)>::empty(),
            crate::abacus::submap_view(submap@) == mv,
            table_models(table@, bodies),
            nodecount_from(linesv, 0, graph@, has_subset, mv, Seq::<Seq<u32>>::empty())
                == nodecount_from(linesv, i as int, graph@, has_subset, mv, bodies),
        decreases n - i,
    {
        let line = &lines[i];
        assert(linesv[i as int] == line@);
        let first: u8 = if line.len() > 0 {
            line[0]
        } else {
            0
        };
        if line.len() > 0 && (first == 80u8 || first == 87u8) {
            let header = if first == 80u8 {
                parse_path_identifier(line)
            } else {
                parse_walk_identifier(line)
            };
            match header {
                None => {
                    return Err(CountError::FormatError(i + 1));
                },
                Some((ps, body_start)) => {
                    let p0: usize = match ps.coords() {
                        Some(c) => c.0,
                        None => 0,
                    };
                    assert(p0 as nat == start_offset(ps@));
                    let ghost ivsv = effective_ivs(has_subset, mv, ps@);
                    let entry: Option<usize> = if has_subset {
                        map_find_vec(&submap, &ps)
                    } else {
                        None
                    };
                    proof {
                        if has_subset {
                            crate::abacus::lemma_map_find(mv, ps@, 0);
                        }
                    }
                    let ivs: &Vec<(usize, usize)> = if !has_subset {
                        &full
                    } else {
                        match entry {
                            Some(j) => &submap[j].1,
                            None => &none_ivs,
                        }
                    };
                    assert(ivs@ == ivsv);
                    let res = if first == 80u8 {
                        parse_path_seq(line, body_start, graph, p0, ivs, i + 1, &mut table, Ghost(bodies))
                    } else {
                        parse_walk_seq(line, body_start, graph, p0, ivs, i + 1, &mut table, Ghost(bodies))
                    };
                    match res {
                        Err(e) => {
                            return Err(e);
                        },
                        Ok(_) => {
                            proof {
                                bodies = bodies.push(
                                    if first == 80u8 {
                                        spec_path_counted(
                                            graph@,
                                            line@,
                                            body_start as int,
                                            p0 as nat,
                                            ivsv,
                                        )->0
                                    } else {
                                        spec_walk_counted(
                                            graph@,
                                            line@,
                                            body_start as int,
                                            p0 as nat,
                                            ivsv,
                                        )->0
                                    },
                                );
                            }
                        },
                    }
                },
            }
        }
        i = i + 1;
    }
    Ok(table)
}

/// Whether `s` starts with `prefix`.
pub open spec fn starts_with(s: Seq<u8>, prefix: Seq<u8>) -> bool {
    s.len() >= prefix.len() && s.subrange(0, prefix.len() as int) == prefix
}

/// Exec twin of [`starts_with`].
pub fn starts_with_bytes(s: &Vec<u8>, prefix: &Vec<u8>) -> (r: bool)
    ensures
        r == starts_with(s@, prefix@),
{
    let pl = prefix.len();
    if s.len() < pl {
        return false;
    }
    let head = copy_range(s, 0, pl);
    crate::bytes::bytes_eq(&head, prefix)
}

/// A BED header row: it begins `browser `, `track ` or `#`.
pub open spec fn bed_is_header(name: Seq<u8>) -> bool {
    ||| starts_with(name, seq![98u8, 114u8, 111u8, 119u8, 115u8, 101u8, 114u8, 32u8])
    ||| starts_with(name, seq![116u8, 114u8, 97u8, 99u8, 107u8, 32u8])
    ||| (name.len() > 0 && name[0] == 35u8)
}

/// A numeric tab field: non-empty digits whose value fits the machine word.
pub open spec fn spec_num_field(f: Seq<u8>) -> Option<usize> {
    if f.len() > 0 && all_digits(f) && dec_value(f) <= usize::MAX {
        Some(dec_value(f) as usize)
    } else {
        None
    }
}

/// The intervals of one BED12 row: block `j` spans
/// `[start + blockStart_j, start + blockStart_j + blockSize_j)`.
pub open spec fn bed_blocks_from(
    ps: PathSegmentV,
    start: usize,
    sizes: Seq<Seq<u8>>,
    bstarts: Seq<Seq<u8>>,
    j: int,
    bc: int,
    lineno: usize,
) -> Result<Seq<PathSegmentV>, CountError>
    decreases bc - j,
{
    if j < 0 || j >= bc {
        Ok(Seq::<PathSegmentV>::empty())
    } else {
        match (
            spec_num_field(crate::dec::trim(sizes[j])),
            spec_num_field(crate::dec::trim(bstarts[j])),
        ) {
            (Some(size), Some(bst)) => {
                if start + bst + size <= usize::MAX {
                    match bed_blocks_from(ps, start, sizes, bstarts, j + 1, bc, lineno) {
                        Err(e) => Err(e),
                        Ok(rest) => Ok(
                            seq![
                                PathSegmentV {
                                    start: Some((start + bst) as usize),
                                    end: Some((start + bst + size) as usize),
                                    ..ps
                                },
                            ] + rest,
                        ),
                    }
                } else {
                    Err(CountError::FormatError(lineno))
                }
            },
            _ => Err(CountError::FormatError(lineno)),
        }
    }
}

/// What one BED row contributes to the accumulated segments.
pub open spec fn bed_step(line: Seq<u8>, lineno: usize, acc: Seq<PathSegmentV>) -> Result<
    Seq<PathSegmentV>,
    CountError,
> {
    if line.len() == 0 {
        Ok(acc)
    } else {
        let cols = split_on(line, 9u8);
        let name = cols[0];
        if bed_is_header(name) {
            Ok(acc)
        } else {
            match spec_parse_path_segment(name) {
                None => Err(CountError::FormatError(lineno)),
                Some(ps) => {
                    if cols.len() == 1 {
                        Ok(acc.push(ps))
                    } else if cols.len() == 2 {
                        Err(CountError::FormatError(lineno))
                    } else {
                        match (spec_num_field(cols[1]), spec_num_field(cols[2])) {
                            (Some(s), Some(e)) => {
                                let base = PathSegmentV { start: Some(s), end: Some(e), ..ps };
                                if cols.len() < 12 {
                                    Ok(acc.push(base))
                                } else {
                                    match spec_num_field(cols[9]) {
                                        None => Err(CountError::FormatError(lineno)),
                                        Some(bc) => {
                                            let sizes = split_on(cols[10], 44u8);
                                            let bstarts = split_on(cols[11], 44u8);
                                            if bc > sizes.len() || bc > bstarts.len() {
                                                Err(CountError::FormatError(lineno))
                                            } else {
                                                match bed_blocks_from(
                                                    ps,
                                                    s,
                                                    sizes,
                                                    bstarts,
                                                    0,
                                                    bc as int,
                                                    lineno,
                                                ) {
                                                    Err(e2) => Err(e2),
                                                    Ok(blocks) => Ok(acc + blocks),
                                                }
                                            }
                                        },
                                    }
                                }
                            },
                            _ => Err(CountError::FormatError(lineno)),
                        }
                    }
                },
            }
        }
    }
}

/// What the BED rows `lines[i..]` contribute: per row one segment (or one per
/// block for a twelve-column row), headers and empty rows skipped.
pub open spec fn bed_from(lines: Seq<Seq<u8>>, i: int, acc: Seq<PathSegmentV>) -> Result<
    Seq<PathSegmentV>,
    CountError,
>
    decreases lines.len() - i,
{
    if i < 0 || i >= lines.len() {
        Ok(acc)
    } else {
        match bed_step(lines[i], (i + 1) as usize, acc) {
            Err(e) => Err(e),
            Ok(acc2) => bed_from(lines, i + 1, acc2),
        }
    }
}

/// Reads one numeric tab field, whitespace-trimmed.
fn num_field_trimmed(f: &Vec<u8>) -> (r: Option<usize>)
    ensures
        r == spec_num_field(crate::dec::trim(f@)),
{
    let t = crate::dec::trim_bytes(f);
    proof {
        assert(t@.subrange(0, t@.len() as int) =~= t@);
    }
    parse_usize_range(&t, 0, t.len())
}

/// Reads one numeric tab field as it stands.
fn num_field(f: &Vec<u8>) -> (r: Option<usize>)
    ensures
        r == spec_num_field(f@),
{
    proof {
        assert(f@.subrange(0, f@.len() as int) =~= f@);
    }
    parse_usize_range(f, 0, f.len())
}

/// Appends the block intervals of one BED12 row.
fn bed_blocks_exec(
    ps: &PathSegment,
    s: usize,
    sizes: &Vec<Vec<u8>>,
    bstarts: &Vec<Vec<u8>>,
    bc: usize,
    lineno: usize,
    acc: &mut Vec<PathSegment>,
) -> (r: Result<(), CountError>)
    requires
        bc <= sizes@.len(),
        bc <= bstarts@.len(),
    ensures
        ({
            let spec = bed_blocks_from(
                ps@,
                s,
                sizes@.map_values(|v: Vec<u8>| v@),
                bstarts@.map_values(|v: Vec<u8>| v@),
                0,
                bc as int,
                lineno,
            );
            match r {
                Ok(_) => spec is Ok && final(acc)@.map_values(|p: PathSegment| p@) == old(
                    acc,
                )@.map_values(|p: PathSegment| p@) + spec->Ok_0,
                Err(e) => spec == Err::<Seq<PathSegmentV>, CountError>(e),
            }
        }),
{
    let ghost sizesv = sizes@.map_values(|v: Vec<u8>| v@);
    let ghost bstartsv = bstarts@.map_values(|v: Vec<u8>| v@);
    let ghost psv = ps@;
    let ghost acc0 = old(acc)@.map_values(|p: PathSegment| p@);
    let mut j: usize = 0;
    proof {
        assert(acc@.map_values(|p: PathSegment| p@) =~= acc0);
    }
    while j < bc
        invariant
            j <= bc,
            bc <= sizes@.len(),
            bc <= bstarts@.len(),
            psv == ps@,
            sizesv == sizes@.map_values(|v: Vec<u8>| v@),
            bstartsv == bstarts@.map_values(|v: Vec<u8>| v@),
            match bed_blocks_from(psv, s, sizesv, bstartsv, j as int, bc as int, lineno) {
                Ok(rest) => bed_blocks_from(psv, s, sizesv, bstartsv, 0, bc as int, lineno)
                    is Ok && acc0 + bed_blocks_from(
                    psv,
                    s,
                    sizesv,
                    bstartsv,
                    0,
                    bc as int,
                    lineno,
                )->Ok_0 == acc@.map_values(|p: PathSegment| p@) + rest,
                Err(e2) => bed_blocks_from(psv, s, sizesv, bstartsv, 0, bc as int, lineno)
                    == Err::<Seq<PathSegmentV>, CountError>(e2),
            },
        decreases bc - j,
    {
        let size = match num_field_trimmed(&sizes[j]) {
            None => {
                return Err(CountError::FormatError(lineno));
            },
            Some(v) => v,
        };
        let bst = match num_field_trimmed(&bstarts[j]) {
            None => {
                return Err(CountError::FormatError(lineno));
            },
            Some(v) => v,
        };
        if usize::MAX - s < bst || usize::MAX - s - bst < size {
            return Err(CountError::FormatError(lineno));
        }
        let mut blk = ps.duplicate();
        blk.start = Some(s + bst);
        blk.end = Some(s + bst + size);
        let ghost blkv = blk@;
        let ghost accp = acc@.map_values(|p: PathSegment| p@);
        acc.push(blk);
        proof {
            assert(acc@.map_values(|p: PathSegment| p@) =~= accp.push(blkv));
            match bed_blocks_from(psv, s, sizesv, bstartsv, j as int + 1, bc as int, lineno) {
                Err(_) => {},
                Ok(rest1) => {
                    assert(accp + (seq![blkv] + rest1) =~= accp.push(blkv) + rest1);
                },
            }
        }
        j = j + 1;
    }
    proof {
        assert(bed_blocks_from(psv, s, sizesv, bstartsv, bc as int, bc as int, lineno) == Ok::<
            Seq<PathSegmentV>,
            CountError,
        >(Seq::<PathSegmentV>::empty()));
        assert(acc@.map_values(|p: PathSegment| p@) + Seq::<PathSegmentV>::empty()
            =~= acc@.map_values(|p: PathSegment| p@));
    }
    Ok(())
}

/// Handles one BED row, appending what it contributes.
fn bed_row(
    line: &Vec<u8>,
    lineno: usize,
    hdr_browser: &Vec<u8>,
    hdr_track: &Vec<u8>,
    acc: &mut Vec<PathSegment>,
) -> (r: Result<(), CountError>)
    requires
        hdr_browser@ == seq![98u8, 114u8, 111u8, 119u8, 115u8, 101u8, 114u8, 32u8],
        hdr_track@ == seq![116u8, 114u8, 97u8, 99u8, 107u8, 32u8],
    ensures
        ({
            let spec = bed_step(line@, lineno, old(acc)@.map_values(|p: PathSegment| p@));
            match r {
                Ok(_) => spec == Ok::<Seq<PathSegmentV>, CountError>(
                    final(acc)@.map_values(|p: PathSegment| p@),
                ),
                Err(e) => spec == Err::<Seq<PathSegmentV>, CountError>(e),
            }
        }),
{
    let ghost acc0 = acc@.map_values(|p: PathSegment| p@);
    if line.len() == 0 {
        return Ok(());
    }
    let cols = split_range_on(line, 0, line.len(), 9u8);
    proof {
        assert(line@.subrange(0, line@.len() as int) =~= line@);
        crate::bytes::lemma_split_on_len(line@, 9u8);
    }
    let name = &cols[0];
    assert(name@ == split_on(line@, 9u8)[0]);
    let is_hdr = {
        let b1 = starts_with_bytes(name, hdr_browser);
        let b2 = starts_with_bytes(name, hdr_track);
        let b3 = name.len() > 0 && name[0] == 35u8;
        b1 || b2 || b3
    };
    assert(is_hdr == bed_is_header(name@));
    if is_hdr {
        return Ok(());
    }
    let ps = match PathSegment::from_bytes(name) {
        None => {
            return Err(CountError::FormatError(lineno));
        },
        Some(ps) => ps,
    };
    if cols.len() == 1 {
        let ghost psv = ps@;
        acc.push(ps);
        proof {
            assert(acc@.map_values(|p: PathSegment| p@) =~= acc0.push(psv));
        }
        return Ok(());
    }
    if cols.len() == 2 {
        return Err(CountError::FormatError(lineno));
    }
    let s = match num_field(&cols[1]) {
        None => {
            return Err(CountError::FormatError(lineno));
        },
        Some(v) => v,
    };
    let e = match num_field(&cols[2]) {
        None => {
            return Err(CountError::FormatError(lineno));
        },
        Some(v) => v,
    };
    if cols.len() < 12 {
        let mut base = ps.duplicate();
        base.start = Some(s);
        base.end = Some(e);
        let ghost bv = base@;
        acc.push(base);
        proof {
            assert(acc@.map_values(|p: PathSegment| p@) =~= acc0.push(bv));
        }
        return Ok(());
    }
    let bc = match num_field(&cols[9]) {
        None => {
            return Err(CountError::FormatError(lineno));
        },
        Some(v) => v,
    };
    let sizes = split_range_on(&cols[10], 0, cols[10].len(), 44u8);
    let bstarts = split_range_on(&cols[11], 0, cols[11].len(), 44u8);
    proof {
        assert(cols[10 as int]@.subrange(0, cols[10 as int]@.len() as int) =~= cols[10 as int]@);
        assert(cols[11 as int]@.subrange(0, cols[11 as int]@.len() as int) =~= cols[11 as int]@);
    }
    if bc > sizes.len() || bc > bstarts.len() {
        return Err(CountError::FormatError(lineno));
    }
    match bed_blocks_exec(&ps, s, &sizes, &bstarts, bc, lineno, acc) {
        Err(e2) => Err(e2),
        Ok(_) => Ok(()),
    }
}

/// Reads a subset or exclusion list: one-column path names (coordinates
/// allowed in the name), three-column rows with explicit start and end, or
/// twelve-column BED rows contributing one interval per block. Rows may mix;
/// header rows and empty rows are skipped.
pub fn parse_bed(data: &Vec<u8>) -> (r: Result<Vec<PathSegment>, CountError>)
    ensures
        ({
            let spec = bed_from(split_on(data@, LF), 0, Seq::<PathSegmentV>::empty());
            match r {
                Ok(v) => spec == Ok::<Seq<PathSegmentV>, CountError>(
                    v@.map_values(|p: PathSegment| p@),
                ),
                Err(e) => spec == Err::<Seq<PathSegmentV>, CountError>(e),
            }
        }),
{
    let lines = split_range_on(data, 0, data.len(), LF);
    let ghost linesv = split_on(data@, LF);
    proof {
        assert(data@.subrange(0, data@.len() as int) =~= data@);
    }
    let mut hdr_browser: Vec<u8> = Vec::new();
    hdr_browser.push(98u8);
    hdr_browser.push(114u8);
    hdr_browser.push(111u8);
    hdr_browser.push(119u8);
    hdr_browser.push(115u8);
    hdr_browser.push(101u8);
    hdr_browser.push(114u8);
    hdr_browser.push(32u8);
    assert(hdr_browser@ =~= seq![98u8, 114u8, 111u8, 119u8, 115u8, 101u8, 114u8, 32u8]);
    let mut hdr_track: Vec<u8> = Vec::new();
    hdr_track.push(116u8);
    hdr_track.push(114u8);
    hdr_track.push(97u8);
    hdr_track.push(99u8);
    hdr_track.push(107u8);
    hdr_track.push(32u8);
    assert(hdr_track@ =~= seq![116u8, 114u8, 97u8, 99u8, 107u8, 32u8]);
    let mut acc: Vec<PathSegment> = Vec::new();
    let n = lines.len();
    let mut i: usize = 0;
    proof {
        assert(acc@.map_values(|p: PathSegment| p@) =~= Seq::<PathSegmentV>::empty());
    }
    while i < n
        invariant
            i <= n,
            n == lines@.len(),
            linesv == lines@.map_values(|v: Vec<u8>| v@),
            linesv == split_on(data@, LF),
            hdr_browser@ == seq![98u8, 114u8, 111u8, 119u8, 115u8, 101u8, 114u8, 32u8],
            hdr_track@ == seq![116u8, 114u8, 97u8, 99u8, 107u8, 32u8],
            bed_from(linesv, 0, Seq::<PathSegmentV>::empty()) == bed_from(
                linesv,
                i as int,
                acc@.map_values(|p: PathSegment| p@),
            ),
        decreases n - i,
    {
        let line = &lines[i];
        assert(linesv[i as int] == line@);
        match bed_row(line, i + 1, &hdr_browser, &hdr_track, &mut acc) {
            Err(e) => {
                return Err(e);
            },
            Ok(_) => {},
        }
        i = i + 1;
    }
    Ok(acc)
}

/// First entry equal to `ps`, coordinates included, scanning from `from`.
pub open spec fn seg_find_full(
    acc: Seq<(PathSegmentV, Seq<u8>)>,
    ps: PathSegmentV,
    from: int,
) -> Option<int>
    decreases acc.len() - from,
{
    if from < 0 || from >= acc.len() {
        None
    } else if acc[from].0 == ps {
        Some(from)
    } else {
        seg_find_full(acc, ps, from + 1)
    }
}

/// What the grouping rows `lines[i..]` contribute: per row a path and its
/// group label. Assigning one path twice is a configuration error.
pub open spec fn groupsfile_from(
    lines: Seq<Seq<u8>>,
    i: int,
    acc: Seq<(PathSegmentV, Seq<u8>)>,
) -> Result<Seq<(PathSegmentV, Seq<u8>)>, CountError>
    decreases lines.len() - i,
{
    if i < 0 || i >= lines.len() {
        Ok(acc)
    } else {
        let line = lines[i];
        if line.len() == 0 {
            groupsfile_from(lines, i + 1, acc)
        } else {
            let cols = split_on(line, 9u8);
            if cols.len() < 2 {
                Err(CountError::FormatError((i + 1) as usize))
            } else {
                match spec_parse_path_segment(cols[0]) {
                    None => Err(CountError::FormatError((i + 1) as usize)),
                    Some(ps) => {
                        if seg_find_full(acc, ps, 0) is Some {
                            Err(CountError::InvalidInput)
                        } else {
                            groupsfile_from(lines, i + 1, acc.push((ps, cols[1])))
                        }
                    },
                }
            }
        }
    }
}

/// Whether a path, coordinates included, already stands in the table.
fn groups_seen(acc: &Vec<(PathSegment, Vec<u8>)>, ps: &PathSegment) -> (r: bool)
    ensures
        r == (seg_find_full(crate::abacus::groupfile_view(acc@), ps@, 0) is Some),
{
    let ghost acc0 = crate::abacus::groupfile_view(acc@);
    let m = acc.len();
    let mut j: usize = 0;
    while j < m
        invariant
            j <= m,
            m == acc@.len(),
            acc0 == crate::abacus::groupfile_view(acc@),
            seg_find_full(acc0, ps@, 0) == seg_find_full(acc0, ps@, j as int),
        decreases m - j,
    {
        if acc[j].0.eq_full(ps) {
            assert(acc0[j as int].0 == ps@);
            assert(seg_find_full(acc0, ps@, j as int) == Some(j as int));
            return true;
        }
        assert(acc0[j as int].0 != ps@);
        j = j + 1;
    }
    false
}

/// Reads a tab-separated grouping table: per row a path name and its group
/// label. A path assigned twice is rejected.
pub fn parse_groups(data: &Vec<u8>) -> (r: Result<Vec<(PathSegment, Vec<u8>)>, CountError>)
    ensures
        ({
            let spec = groupsfile_from(
                split_on(data@, LF),
                0,
                Seq::<(PathSegmentV, Seq<u8>)>::empty(),
            );
            match r {
                Ok(v) => spec == Ok::<Seq<(PathSegmentV, Seq<u8>)>, CountError>(
                    crate::abacus::groupfile_view(v@),
                ),
                Err(e) => spec == Err::<Seq<(PathSegmentV, Seq<u8>)>, CountError>(e),
            }
        }),
{
    let lines = split_range_on(data, 0, data.len(), LF);
    let ghost linesv = split_on(data@, LF);
    proof {
        assert(data@.subrange(0, data@.len() as int) =~= data@);
    }
    let mut acc: Vec<(PathSegment, Vec<u8>)> = Vec::new();
    let n = lines.len();
    let mut i: usize = 0;
    proof {
        assert(crate::abacus::groupfile_view(acc@) =~= Seq::<(PathSegmentV, Seq<u8>)>::empty());
    }
    while i < n
        invariant
            i <= n,
            n == lines@.len(),
            linesv == lines@.map_values(|v: Vec<u8>| v@),
            linesv == split_on(data@, LF),
            groupsfile_from(linesv, 0, Seq::<(PathSegmentV, Seq<u8>)>::empty())
                == groupsfile_from(linesv, i as int, crate::abacus::groupfile_view(acc@)),
        decreases n - i,
    {
        let line = &lines[i];
        assert(linesv[i as int] == line@);
        let ghost acc0 = crate::abacus::groupfile_view(acc@);
        if line.len() > 0 {
            let cols = split_range_on(line, 0, line.len(), 9u8);
            proof {
                assert(line@.subrange(0, line@.len() as int) =~= line@);
            }
            if cols.len() < 2 {
                return Err(CountError::FormatError(i + 1));
            }
            match PathSegment::from_bytes(&cols[0]) {
                None => {
                    return Err(CountError::FormatError(i + 1));
                },
                Some(ps) => {
                    if groups_seen(&acc, &ps) {
                        return Err(CountError::InvalidInput);
                    }
                    let lab = clone_bytes(&cols[1]);
                    let ghost pv = (ps@, lab@);
                    acc.push((ps, lab));
                    proof {
                        assert(crate::abacus::groupfile_view(acc@) =~= acc0.push(pv));
                    }
                },
            }
        }
        i = i + 1;
    }
    Ok(acc)
}

/// What the threshold rows `lines[i..]` contribute: per row a name and a
/// threshold, taken from the second column when there is one and from the
/// name itself otherwise.
pub open spec fn thresholdfile_from(
    lines: Seq<Seq<u8>>,
    i: int,
    acc: Seq<(Seq<u8>, crate::util::Threshold)>,
) -> Result<Seq<(Seq<u8>, crate::util::Threshold)>, CountError>
    decreases lines.len() - i,
{
    if i < 0 || i >= lines.len() {
        Ok(acc)
    } else {
        let line = lines[i];
        if line.len() == 0 {
            thresholdfile_from(lines, i + 1, acc)
        } else {
            let cols = split_on(line, 9u8);
            let name = crate::dec::trim(cols[0]);
            let el = if cols.len() >= 2 {
                cols[1]
            } else {
                cols[0]
            };
            match crate::util::spec_threshold_elem(el, crate::util::RequireThreshold::Either) {
                None => Err(CountError::FormatError((i + 1) as usize)),
                Some(t) => thresholdfile_from(lines, i + 1, acc.push((name, t))),
            }
        }
    }
}

/// Reads a tab-separated coverage-threshold table: per row a name and a
/// threshold, absolute when the field is an integer, relative otherwise.
pub fn parse_coverage_threshold_file(data: &Vec<u8>) -> (r: Result<
    Vec<(Vec<u8>, crate::util::Threshold)>,
    CountError,
>)
    ensures
        ({
            let spec = thresholdfile_from(
                split_on(data@, LF),
                0,
                Seq::<(Seq<u8>, crate::util::Threshold)>::empty(),
            );
            match r {
                Ok(v) => spec == Ok::<Seq<(Seq<u8>, crate::util::Threshold)>, CountError>(
                    v@.map_values(|e: (Vec<u8>, crate::util::Threshold)| (e.0@, e.1)),
                ) && (forall|j: int| 0 <= j < v@.len() ==> (#[trigger] v@[j]).1.wf()),
                Err(e) => spec == Err::<Seq<(Seq<u8>, crate::util::Threshold)>, CountError>(e),
            }
        }),
{
    let lines = split_range_on(data, 0, data.len(), LF);
    let ghost linesv = split_on(data@, LF);
    proof {
        assert(data@.subrange(0, data@.len() as int) =~= data@);
    }
    let mut acc: Vec<(Vec<u8>, crate::util::Threshold)> = Vec::new();
    let n = lines.len();
    let mut i: usize = 0;
    proof {
        assert(acc@.map_values(|e: (Vec<u8>, crate::util::Threshold)| (e.0@, e.1)) =~= Seq::<
            (Seq<u8>, crate::util::Threshold),
        >::empty());
    }
    while i < n
        invariant
            i <= n,
            n == lines@.len(),
            linesv == lines@.map_values(|v: Vec<u8>| v@),
            linesv == split_on(data@, LF),
            forall|j: int| 0 <= j < acc@.len() ==> (#[trigger] acc@[j]).1.wf(),
            thresholdfile_from(linesv, 0, Seq::<(Seq<u8>, crate::util::Threshold)>::empty())
                == thresholdfile_from(
                linesv,
                i as int,
                acc@.map_values(|e: (Vec<u8>, crate::util::Threshold)| (e.0@, e.1)),
            ),
        decreases n - i,
    {
        let line = &lines[i];
        assert(linesv[i as int] == line@);
        let ghost acc0 = acc@.map_values(|e: (Vec<u8>, crate::util::Threshold)| (e.0@, e.1));
        if line.len() > 0 {
            let cols = split_range_on(line, 0, line.len(), 9u8);
            proof {
                assert(line@.subrange(0, line@.len() as int) =~= line@);
                crate::bytes::lemma_split_on_len(line@, 9u8);
            }
            let name = crate::dec::trim_bytes(&cols[0]);
            let el: &Vec<u8> = if cols.len() >= 2 {
                &cols[1]
            } else {
                &cols[0]
            };
            match crate::util::threshold_elem(el, crate::util::RequireThreshold::Either) {
                None => {
                    return Err(CountError::FormatError(i + 1));
                },
                Some(t) => {
                    let ghost pv = (name@, t);
                    acc.push((name, t));
                    proof {
                        assert(acc@.map_values(|e: (Vec<u8>, crate::util::Threshold)| (e.0@, e.1))
                            =~= acc0.push(pv));
                    }
                },
            }
        }
        i = i + 1;
    }
    Ok(acc)
}

/// What one line of the first pass does to the graph index. `lineno` is the
/// one-based line number carried into format errors.
pub open spec fn marginals_step(g: GraphIndexV, line: Seq<u8>, lineno: usize) -> Result<
    GraphIndexV,
    CountError,
> {
    if line.len() == 0 {
        Ok(g)
    } else if line[0] == 83u8 {  // S: index the segment, first name wins
        match spec_parse_segment(line) {
            None => Err(CountError::FormatError(lineno)),
            Some((name, l)) => {
                if l <= 0 || l > u32::MAX {
                    Err(CountError::FormatError(lineno))
                } else if seq_index_of(g.node_names, name, 0) is Some {
                    Ok(g)
                } else if g.node_names.len() >= u32::MAX {
                    Err(CountError::Unsupported)
                } else {
                    Ok(
                        GraphIndexV {
                            node_names: g.node_names.push(name),
                            node_len: g.node_len.push(l as u32),
                            ..g
                        },
                    )
                }
            },
        }
    } else if line[0] == 76u8 && g.index_edges {  // L: index the edge key
        match spec_parse_link(line) {
            None => Err(CountError::FormatError(lineno)),
            Some(key) => {
                if seq_index_of(g.edge_keys, key, 0) is Some {
                    Ok(g)
                } else if g.edge_keys.len() >= u32::MAX {
                    Err(CountError::Unsupported)
                } else {
                    Ok(GraphIndexV { edge_keys: g.edge_keys.push(key), ..g })
                }
            },
        }
    } else if line[0] == 80u8 {  // P: record the path header
        match spec_parse_p_header(line) {
            None => Err(CountError::FormatError(lineno)),
            Some((ps, _)) => Ok(GraphIndexV { path_segments: g.path_segments.push(ps), ..g }),
        }
    } else if line[0] == 87u8 {  // W: record the walk header
        match spec_parse_w_header(line) {
            None => Err(CountError::FormatError(lineno)),
            Some((ps, _)) => Ok(GraphIndexV { path_segments: g.path_segments.push(ps), ..g }),
        }
    } else {
        Ok(g)
    }
}

/// The first pass folded over `lines[i..]`, starting from index `g`.
pub open spec fn marginals_from(lines: Seq<Seq<u8>>, i: int, g: GraphIndexV) -> Result<
    GraphIndexV,
    CountError,
>
    decreases lines.len() - i,
{
    if i < 0 || i >= lines.len() {
        Ok(g)
    } else {
        match marginals_step(g, lines[i], (i + 1) as usize) {
            Err(e) => Err(e),
            Ok(g2) => marginals_from(lines, i + 1, g2),
        }
    }
}

/// First streaming pass: indexes segments (and, when `index_edges` is set,
/// links) and collects path/walk headers, reading `data` line by line.
pub fn parse_graph_marginals(data: &Vec<u8>, index_edges: bool) -> (r: Result<
    GraphIndex,
    CountError,
>)
    ensures
        match r {
            Ok(gi) => marginals_from(split_on(data@, LF), 0, crate::graph::empty_index(index_edges))
                == Ok::<GraphIndexV, CountError>(gi@) && gi@.wf() && gi@.index_edges
                == index_edges,
            Err(e) => marginals_from(
                split_on(data@, LF),
                0,
                crate::graph::empty_index(index_edges),
            ) == Err::<GraphIndexV, CountError>(e),
        },
{
    let lines = split_range_on(data, 0, data.len(), LF);
    let ghost linesv = split_on(data@, LF);
    proof {
        assert(data@.subrange(0, data@.len() as int) =~= data@);
    }
    let mut gi = GraphIndex::new(index_edges);
    let n = lines.len();
    let mut i: usize = 0;
    while i < n
        invariant
            i <= n,
            n == lines@.len(),
            linesv == lines@.map_values(|v: Vec<u8>| v@),
            linesv == split_on(data@, LF),
            gi@.wf(),
            gi@.index_edges == index_edges,
            marginals_from(linesv, 0, crate::graph::empty_index(index_edges)) == marginals_from(
                linesv,
                i as int,
                gi@,
            ),
        decreases n - i,
    {
        let line = &lines[i];
        assert(linesv[i as int] == line@);
        let ghost g0 = gi@;
        if line.len() == 0 {
        } else if line[0] == 83u8 {
            match parse_segment_line(line) {
                None => {
                    return Err(CountError::FormatError(i + 1));
                },
                Some((name, l)) => {
                    if l == 0 || l > u32::MAX as usize {
                        return Err(CountError::FormatError(i + 1));
                    }
                    match gi.node_id(&name) {
                        Some(_) => {},
                        None => {
                            if gi.node_names.len() >= u32::MAX as usize {
                                return Err(CountError::Unsupported);
                            }
                            proof {
                                crate::graph::lemma_seq_index_of(gi@.node_names, name@, 0);
                            }
                            let len32: u32 = l as u32;
                            let ghost namev = name@;
                            gi.node_names.push(name);
                            gi.node_len.push(len32);
                            proof {
                                assert(gi@.node_names =~= g0.node_names.push(namev));
                                assert(gi@.node_len =~= g0.node_len.push(len32));
                            }
                        },
                    }
                },
            }
        } else if line[0] == 76u8 && gi.index_edges {
            match parse_link_line(line) {
                None => {
                    return Err(CountError::FormatError(i + 1));
                },
                Some(key) => {
                    match gi.edge_id(&key) {
                        Some(_) => {},
                        None => {
                            if gi.edge_keys.len() >= u32::MAX as usize {
                                return Err(CountError::Unsupported);
                            }
                            proof {
                                crate::graph::lemma_seq_index_of(gi@.edge_keys, key@, 0);
                            }
                            let ghost keyv = key@;
                            gi.edge_keys.push(key);
                            proof {
                                assert(gi@.edge_keys =~= g0.edge_keys.push(keyv));
                            }
                        },
                    }
                },
            }
        } else if line[0] == 80u8 {
            match parse_path_identifier(line) {
                None => {
                    return Err(CountError::FormatError(i + 1));
                },
                Some((ps, _)) => {
                    let ghost psv = ps@;
                    gi.path_segments.push(ps);
                    proof {
                        assert(gi@.path_segments =~= g0.path_segments.push(psv));
                    }
                },
            }
        } else if line[0] == 87u8 {
            match parse_walk_identifier(line) {
                None => {
                    return Err(CountError::FormatError(i + 1));
                },
                Some((ps, _)) => {
                    let ghost psv = ps@;
                    gi.path_segments.push(ps);
                    proof {
                        assert(gi@.path_segments =~= g0.path_segments.push(psv));
                    }
                },
            }
        }
        proof {
            assert(marginals_step(g0, linesv[i as int], (i + 1) as usize) == Ok::<
                GraphIndexV,
                CountError,
            >(gi@));
        }
        i = i + 1;
    }
    Ok(gi)
}

} // verus!
