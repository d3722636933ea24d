//! Path identities and the graph index. A `PathSegment` is the canonical
//! identifier of a path or walk: sample, optional haplotype and sequence id,
//! and optional half-open base-pair coordinates, written
//! `sample#haplotype#seqid:start-end` with trailing parts optional.

use vstd::prelude::*;
use crate::bytes::{bytes_eq, clone_bytes, find_byte, find_from, split_on, split_range_on};
use crate::dec::{all_digits, dec_value, parse_usize_range};

verus! {

/// Canonical identifier of a path or walk.
#[derive(Debug)]
pub struct PathSegment {
    pub sample: Vec<u8>,
    pub haplotype: Option<Vec<u8>>,
    pub seqid: Option<Vec<u8>>,
    pub start: Option<usize>,
    pub end: Option<usize>,
}

/// Mathematical image of a `PathSegment`.
pub ghost struct PathSegmentV {
    pub sample: Seq<u8>,
    pub haplotype: Option<Seq<u8>>,
    pub seqid: Option<Seq<u8>>,
    pub start: Option<usize>,
    pub end: Option<usize>,
}

impl View for PathSegment {
    type V = PathSegmentV;

    open spec fn view(&self) -> PathSegmentV {
        PathSegmentV {
            sample: self.sample@,
            haplotype: match self.haplotype {
                Some(h) => Some(h@),
                None => None,
            },
            seqid: match self.seqid {
                Some(q) => Some(q@),
                None => None,
            },
            start: self.start,
            end: self.end,
        }
    }
}

impl PathSegmentV {
    /// The identity triple without coordinates; lookups go by this.
    pub open spec fn same_id(self, o: PathSegmentV) -> bool {
        self.sample == o.sample && self.haplotype == o.haplotype && self.seqid == o.seqid
    }
}

/// Splits a trailing `:start-end` coordinate suffix off one name part.
/// `None` means the part holds a `:` not followed by a well-formed coordinate
/// pair that fits the machine word.
pub open spec fn spec_coord_suffix(p: Seq<u8>) -> Option<(Seq<u8>, Option<(usize, usize)>)> {
    match find_from(p, 0, p.len() as int, 58u8) {
        None => Some((p, None)),
        Some(i) => {
            let tail = p.subrange(i + 1, p.len() as int);
            match find_from(tail, 0, tail.len() as int, 45u8) {
                None => None,
                Some(j) => {
                    let ds = tail.subrange(0, j);
                    let de = tail.subrange(j + 1, tail.len() as int);
                    if ds.len() > 0 && de.len() > 0 && all_digits(ds) && all_digits(de)
                        && dec_value(ds) <= usize::MAX && dec_value(de) <= usize::MAX {
                        Some(
                            (
                                p.subrange(0, i),
                                Some((dec_value(ds) as usize, dec_value(de) as usize)),
                            ),
                        )
                    } else {
                        None
                    }
                },
            }
        },
    }
}

/// The segment denoted by a path name, or `None` when the name is malformed:
/// more than two `#` separators, or a broken coordinate suffix.
pub open spec fn spec_parse_path_segment(s: Seq<u8>) -> Option<PathSegmentV> {
    let parts = split_on(s, 35u8);
    if parts.len() == 1 {
        match spec_coord_suffix(parts[0]) {
            None => None,
            Some((name, c)) => Some(
                PathSegmentV {
                    sample: name,
                    haplotype: None,
                    seqid: None,
                    start: coord_start(c),
                    end: coord_end(c),
                },
            ),
        }
    } else if parts.len() == 2 {
        match spec_coord_suffix(parts[1]) {
            None => None,
            Some((name, c)) => Some(
                PathSegmentV {
                    sample: parts[0],
                    haplotype: Some(name),
                    seqid: None,
                    start: coord_start(c),
                    end: coord_end(c),
                },
            ),
        }
    } else if parts.len() == 3 {
        match spec_coord_suffix(parts[2]) {
            None => None,
            Some((name, c)) => Some(
                PathSegmentV {
                    sample: parts[0],
                    haplotype: Some(parts[1]),
                    seqid: Some(name),
                    start: coord_start(c),
                    end: coord_end(c),
                },
            ),
        }
    } else {
        None
    }
}

pub open spec fn coord_start(c: Option<(usize, usize)>) -> Option<usize> {
    match c {
        Some((s, _)) => Some(s),
        None => None,
    }
}

pub open spec fn coord_end(c: Option<(usize, usize)>) -> Option<usize> {
    match c {
        Some((_, e)) => Some(e),
        None => None,
    }
}

/// Reads a `:start-end` suffix off one name part.
fn coord_suffix(p: &Vec<u8>) -> (r: Option<(Vec<u8>, Option<(usize, usize)>)>)
    ensures
        match r {
            Some((name, c)) => spec_coord_suffix(p@) == Some((name@, c)),
            None => spec_coord_suffix(p@) is None,
        },
{
    let n = p.len();
    match find_byte(p, 0, n, 58u8) {
        None => {
            let name = clone_bytes(p);
            Some((name, None))
        },
        Some(i) => {
            proof {
                crate::bytes::lemma_find_from(p@, 0, n as int, 58u8);
            }
            let ghost tail = p@.subrange(i + 1, n as int);
            let dash = find_byte(p, i + 1, n, 45u8);
            proof {
                crate::bytes::lemma_find_from(p@, i + 1, n as int, 45u8);
                match find_from(tail, 0, tail.len() as int, 45u8) {
                    None => {
                        crate::bytes::lemma_find_from(tail, 0, tail.len() as int, 45u8);
                        if dash is Some {
                            let d = dash->0;
                            assert(tail[d - (i + 1)] == 45u8);
                        }
                    },
                    Some(tj) => {
                        crate::bytes::lemma_find_from(tail, 0, tail.len() as int, 45u8);
                        assert(p@[i + 1 + tj] == 45u8);
                        if dash is None {
                            crate::bytes::lemma_find_from(p@, i + 1, n as int, 45u8);
                            assert(false);
                        } else {
                            let d = dash->0;
                            if d < i + 1 + tj {
                                assert(tail[d - (i + 1)] == 45u8);
                            }
                            if d > i + 1 + tj {
                                assert(p@[i + 1 + tj] != 45u8);
                            }
                        }
                    },
                }
            }
            match dash {
                None => None,
                Some(j) => {
                    let ghost tj = j - (i + 1);
                    assert(find_from(tail, 0, tail.len() as int, 45u8) == Some(tj));
                    let vs = parse_usize_range(p, i + 1, j);
                    let ve = parse_usize_range(p, j + 1, n);
                    proof {
                        assert(tail.subrange(0, tj) =~= p@.subrange(i + 1, j as int));
                        assert(tail.subrange(tj + 1, tail.len() as int) =~= p@.subrange(
                            j + 1,
                            n as int,
                        ));
                    }
                    match (vs, ve) {
                        (Some(a), Some(b)) => {
                            let name = crate::bytes::copy_range(p, 0, i);
                            Some((name, Some((a, b))))
                        },
                        _ => None,
                    }
                },
            }
        },
    }
}

impl PathSegment {
    pub fn new(
        sample: Vec<u8>,
        haplotype: Option<Vec<u8>>,
        seqid: Option<Vec<u8>>,
        start: Option<usize>,
        end: Option<usize>,
    ) -> (r: PathSegment)
        ensures
            r@.sample == sample@,
            r@.haplotype == (match haplotype {
                Some(h) => Some(h@),
                None => None::<Seq<u8>>,
            }),
            r@.seqid == (match seqid {
                Some(q) => Some(q@),
                None => None::<Seq<u8>>,
            }),
            r@.start == start,
            r@.end == end,
    {
        PathSegment { sample, haplotype, seqid, start, end }
    }

    /// Parses `sample#haplotype#seqid:start-end` with trailing parts optional.
    pub fn from_bytes(s: &Vec<u8>) -> (r: Option<PathSegment>)
        ensures
            match r {
                Some(ps) => spec_parse_path_segment(s@) == Some(ps@),
                None => spec_parse_path_segment(s@) is None,
            },
    {
        let parts = split_range_on(s, 0, s.len(), 35u8);
        proof {
            assert(s@.subrange(0, s@.len() as int) =~= s@);
            crate::bytes::lemma_split_on_len(s@, 35u8);
        }
        if parts.len() == 1 {
            match coord_suffix(&parts[0]) {
                None => None,
                Some((name, c)) => Some(
                    PathSegment {
                        sample: name,
                        haplotype: None,
                        seqid: None,
                        start: match c {
                            Some((a, _)) => Some(a),
                            None => None,
                        },
                        end: match c {
                            Some((_, b)) => Some(b),
                            None => None,
                        },
                    },
                ),
            }
        } else if parts.len() == 2 {
            match coord_suffix(&parts[1]) {
                None => None,
                Some((name, c)) => {
                    let sample = clone_bytes(&parts[0]);
                    Some(
                        PathSegment {
                            sample,
                            haplotype: Some(name),
                            seqid: None,
                            start: match c {
                                Some((a, _)) => Some(a),
                                None => None,
                            },
                            end: match c {
                                Some((_, b)) => Some(b),
                                None => None,
                            },
                        },
                    )
                },
            }
        } else if parts.len() == 3 {
            match coord_suffix(&parts[2]) {
                None => None,
                Some((name, c)) => {
                    let sample = clone_bytes(&parts[0]);
                    let hap = clone_bytes(&parts[1]);
                    Some(
                        PathSegment {
                            sample,
                            haplotype: Some(hap),
                            seqid: Some(name),
                            start: match c {
                                Some((a, _)) => Some(a),
                                None => None,
                            },
                            end: match c {
                                Some((_, b)) => Some(b),
                                None => None,
                            },
                        },
                    )
                },
            }
        } else {
            None
        }
    }

    /// The coordinate pair, present only when both ends are.
    pub fn coords(&self) -> (r: Option<(usize, usize)>)
        ensures
            r == (match (self@.start, self@.end) {
                (Some(a), Some(b)) => Some((a, b)),
                _ => None::<(usize, usize)>,
            }),
    {
        match (self.start, self.end) {
            (Some(a), Some(b)) => Some((a, b)),
            _ => None,
        }
    }

    /// Whether two segments name the same path, coordinates ignored.
    pub fn same_id(&self, o: &PathSegment) -> (r: bool)
        ensures
            r == self@.same_id(o@),
    {
        let s_eq = bytes_eq(&self.sample, &o.sample);
        if !s_eq {
            return false;
        }
        let h_eq = match (&self.haplotype, &o.haplotype) {
            (None, None) => true,
            (Some(a), Some(b)) => bytes_eq(a, b),
            _ => false,
        };
        if !h_eq {
            return false;
        }
        match (&self.seqid, &o.seqid) {
            (None, None) => true,
            (Some(a), Some(b)) => bytes_eq(a, b),
            _ => false,
        }
    }

    /// Whether two segments are equal, coordinates included.
    pub fn eq_full(&self, o: &PathSegment) -> (r: bool)
        ensures
            r == (self@ == o@),
    {
        let id_eq = self.same_id(o);
        if !id_eq {
            return false;
        }
        let se = match (self.start, o.start) {
            (None, None) => true,
            (Some(a), Some(b)) => a == b,
            _ => false,
        };
        let ee = match (self.end, o.end) {
            (None, None) => true,
            (Some(a), Some(b)) => a == b,
            _ => false,
        };
        se && ee
    }

    /// The canonical name of the path, `sample[#haplotype[#seqid]]`.
    pub fn id_bytes(&self) -> (r: Vec<u8>)
        ensures
            r@ == path_id_bytes(self@),
    {
        let mut out = clone_bytes(&self.sample);
        match &self.haplotype {
            Some(h) => {
                out.push(35u8);
                crate::bytes::append_bytes(&mut out, h);
                proof {
                    assert(self@.sample + (seq![35u8] + h@) =~= (self@.sample.push(35u8)) + h@);
                }
            },
            None => {
                proof {
                    assert(self@.sample + Seq::<u8>::empty() =~= self@.sample);
                }
            },
        }
        let ghost head = self@.sample + (match self@.haplotype {
            Some(h) => seq![35u8] + h,
            None => Seq::<u8>::empty(),
        });
        assert(out@ == head);
        match &self.seqid {
            Some(q) => {
                out.push(35u8);
                crate::bytes::append_bytes(&mut out, q);
                proof {
                    assert(head + (seq![35u8] + q@) =~= (head.push(35u8)) + q@);
                }
            },
            None => {
                proof {
                    assert(head + Seq::<u8>::empty() =~= head);
                }
            },
        }
        out
    }

    /// The name of the path's haplotype group, `sample[#haplotype]`.
    pub fn haplotype_id_bytes(&self) -> (r: Vec<u8>)
        ensures
            r@ == self@.sample + (match self@.haplotype {
                Some(h) => seq![35u8] + h,
                None => Seq::<u8>::empty(),
            }),
    {
        let mut out = clone_bytes(&self.sample);
        match &self.haplotype {
            Some(h) => {
                out.push(35u8);
                crate::bytes::append_bytes(&mut out, h);
                proof {
                    assert(self@.sample + (seq![35u8] + h@) =~= (self@.sample.push(35u8)) + h@);
                }
            },
            None => {
                proof {
                    assert(self@.sample + Seq::<u8>::empty() =~= self@.sample);
                }
            },
        }
        out
    }

    /// A fresh copy of the segment.
    pub fn duplicate(&self) -> (r: PathSegment)
        ensures
            r@ == self@,
    {
        PathSegment {
            sample: clone_bytes(&self.sample),
            haplotype: match &self.haplotype {
                Some(h) => Some(clone_bytes(h)),
                None => None,
            },
            seqid: match &self.seqid {
                Some(q) => Some(clone_bytes(q)),
                None => None,
            },
            start: self.start,
            end: self.end,
        }
    }
}

/// The canonical name of a path: `sample[#haplotype[#seqid]]`.
pub open spec fn path_id_bytes(ps: PathSegmentV) -> Seq<u8> {
    ps.sample + (match ps.haplotype {
        Some(h) => seq![35u8] + h,
        None => Seq::<u8>::empty(),
    }) + (match ps.seqid {
        Some(q) => seq![35u8] + q,
        None => Seq::<u8>::empty(),
    })
}

/// First position of `name` among `names`, scanning from `from`.
pub open spec fn seq_index_of(names: Seq<Seq<u8>>, name: Seq<u8>, from: int) -> Option<int>
    decreases names.len() - from,
{
    if from < 0 || from >= names.len() {
        None
    } else if names[from] == name {
        Some(from)
    } else {
        seq_index_of(names, name, from + 1)
    }
}

pub proof fn lemma_seq_index_of(names: Seq<Seq<u8>>, name: Seq<u8>, from: int)
    requires
        0 <= from <= names.len(),
    ensures
        match seq_index_of(names, name, from) {
            Some(i) => from <= i < names.len() && names[i] == name,
            None => forall|j: int| from <= j < names.len() ==> names[j] != name,
        },
    decreases names.len() - from,
{
    if from < names.len() && names[from] != name {
        lemma_seq_index_of(names, name, from + 1);
    }
}

/// The graph index that the first streaming pass produces: dense node ids in
/// first-seen order with their lengths in base pairs, optional dense edge ids,
/// and the path/walk headers in source order.
#[derive(Debug)]
pub struct GraphIndex {
    /// Node names; the index of a name is the node's id.
    pub node_names: Vec<Vec<u8>>,
    /// Base pairs of each node, indexed by id.
    pub node_len: Vec<u32>,
    /// Whether `L` records are indexed; they are only when edges are counted.
    pub index_edges: bool,
    /// Edge keys `(>|<, src, >|<, dst)` as flat byte strings; the index of a
    /// key is the edge's id. Empty when edges are not indexed.
    pub edge_keys: Vec<Vec<u8>>,
    /// Path and walk headers in source order.
    pub path_segments: Vec<PathSegment>,
}

/// Mathematical image of a `GraphIndex`.
pub ghost struct GraphIndexV {
    pub node_names: Seq<Seq<u8>>,
    pub node_len: Seq<u32>,
    pub index_edges: bool,
    pub edge_keys: Seq<Seq<u8>>,
    pub path_segments: Seq<PathSegmentV>,
}

impl View for GraphIndex {
    type V = GraphIndexV;

    open spec fn view(&self) -> GraphIndexV {
        GraphIndexV {
            node_names: self.node_names@.map_values(|v: Vec<u8>| v@),
            node_len: self.node_len@,
            index_edges: self.index_edges,
            edge_keys: self.edge_keys@.map_values(|v: Vec<u8>| v@),
            path_segments: self.path_segments@.map_values(|p: PathSegment| p@),
        }
    }
}

impl GraphIndexV {
    /// Well-formedness: one length per node, every node non-empty, ids dense
    /// and names unique.
    pub open spec fn wf(self) -> bool {
        &&& self.node_len.len() == self.node_names.len()
        &&& self.node_names.len() <= u32::MAX
        &&& (forall|i: int| 0 <= i < self.node_len.len() ==> #[trigger] self.node_len[i] > 0)
        &&& (forall|i: int, j: int|
            0 <= i < j < self.node_names.len() ==> self.node_names[i] != self.node_names[j])
        &&& self.edge_keys.len() <= u32::MAX
        &&& (forall|i: int, j: int|
            0 <= i < j < self.edge_keys.len() ==> self.edge_keys[i] != self.edge_keys[j])
        &&& (!self.index_edges ==> self.edge_keys.len() == 0)
    }

    /// The id of a node name, when the name is indexed.
    pub open spec fn node_id_of(self, name: Seq<u8>) -> Option<int> {
        seq_index_of(self.node_names, name, 0)
    }
}

impl GraphIndex {
    /// An empty index; edge keys are tracked only when `index_edges` is set.
    pub fn new(index_edges: bool) -> (r: GraphIndex)
        ensures
            r@ == empty_index(index_edges),
            r@.wf(),
    {
        let r = GraphIndex {
            node_names: Vec::new(),
            node_len: Vec::new(),
            index_edges,
            edge_keys: Vec::new(),
            path_segments: Vec::new(),
        };
        proof {
            assert(r@.node_names =~= Seq::<Seq<u8>>::empty());
            assert(r@.node_len =~= Seq::<u32>::empty());
            assert(r@.edge_keys =~= Seq::<Seq<u8>>::empty());
            assert(r@.path_segments =~= Seq::<PathSegmentV>::empty());
        }
        r
    }

    /// Looks a node name up, returning its dense id.
    pub fn node_id(&self, name: &Vec<u8>) -> (r: Option<u32>)
        requires
            self@.node_names.len() <= u32::MAX,
        ensures
            match r {
                Some(id) => self@.node_id_of(name@) == Some(id as int),
                None => self@.node_id_of(name@) is None,
            },
    {
        let n = self.node_names.len();
        let mut i: usize = 0;
        while i < n
            invariant
                i <= n,
                n == self.node_names@.len(),
                n <= u32::MAX,
                seq_index_of(self@.node_names, name@, 0) == seq_index_of(
                    self@.node_names,
                    name@,
                    i as int,
                ),
            decreases n - i,
        {
            if bytes_eq(&self.node_names[i], name) {
                assert(self@.node_names[i as int] == name@);
                return Some(i as u32);
            }
            assert(self@.node_names[i as int] != name@);
            i = i + 1;
        }
        None
    }

    /// Looks an edge key up, returning its dense id; `None` when the key is
    /// unknown (edges not indexed included).
    pub fn edge_id(&self, key: &Vec<u8>) -> (r: Option<u32>)
        requires
            self@.edge_keys.len() <= u32::MAX,
        ensures
            match r {
                Some(id) => seq_index_of(self@.edge_keys, key@, 0) == Some(id as int),
                None => seq_index_of(self@.edge_keys, key@, 0) is None,
            },
    {
        let ghost ev = self@.edge_keys;
        let n = self.edge_keys.len();
        let mut i: usize = 0;
        while i < n
            invariant
                i <= n,
                n == self.edge_keys@.len(),
                n <= u32::MAX,
                ev == self.edge_keys@.map_values(|v: Vec<u8>| v@),
                seq_index_of(ev, key@, 0) == seq_index_of(ev, key@, i as int),
            decreases n - i,
        {
            if bytes_eq(&self.edge_keys[i], key) {
                assert(ev[i as int] == key@);
                assert(seq_index_of(ev, key@, i as int) == Some(i as int));
                return Some(i as u32);
            }
            assert(ev[i as int] != key@);
            i = i + 1;
        }
        None
    }
}

/// The empty graph index.
pub open spec fn empty_index(index_edges: bool) -> GraphIndexV {
    GraphIndexV {
        node_names: Seq::<Seq<u8>>::empty(),
        node_len: Seq::<u32>::empty(),
        index_edges,
        edge_keys: Seq::<Seq<u8>>::empty(),
        path_segments: Seq::<PathSegmentV>::empty(),
    }
}

} // verus!
