//! The sharded count table of the second streaming pass and the coverage
//! logic that fills it: which items of a path body qualify under the subset
//! coordinate filter, and how qualifying items are deposited shard by shard.

use vstd::prelude::*;
use crate::bytes::{bytes_eq, clone_bytes};
use crate::graph::{path_id_bytes, GraphIndex, PathSegment, PathSegmentV};
use crate::util::{CountError, MAX_GROUPS, SIZE_T};

verus! {

/// First interval at or after `from` whose end lies beyond `p`.
pub open spec fn active_idx(ivs: Seq<(usize, usize)>, from: int, p: nat) -> Option<int>
    decreases ivs.len() - from,
{
    if from < 0 || from >= ivs.len() {
        None
    } else if ivs[from].1 > p {
        Some(from)
    } else {
        active_idx(ivs, from + 1, p)
    }
}

/// Skipping intervals that end at or before `p` does not change the active one.
pub proof fn lemma_active_idx_skip(ivs: Seq<(usize, usize)>, cut: int, p: nat)
    requires
        0 <= cut <= ivs.len(),
        forall|j: int| 0 <= j < cut ==> ivs[j].1 <= p,
    ensures
        active_idx(ivs, 0, p) == active_idx(ivs, cut, p),
    decreases cut,
{
    if cut > 0 {
        lemma_active_idx_skip_from(ivs, 0, cut, p);
    }
}

proof fn lemma_active_idx_skip_from(ivs: Seq<(usize, usize)>, from: int, cut: int, p: nat)
    requires
        0 <= from <= cut <= ivs.len(),
        forall|j: int| from <= j < cut ==> ivs[j].1 <= p,
    ensures
        active_idx(ivs, from, p) == active_idx(ivs, cut, p),
    decreases cut - from,
{
    if from < cut {
        lemma_active_idx_skip_from(ivs, from + 1, cut, p);
    }
}

/// Whether a node that spans `[p, p+l)` along the path is admitted by the
/// subset intervals: the first interval still open at `p` must contain the
/// node whole.
pub open spec fn covered_node(ivs: Seq<(usize, usize)>, p: nat, l: nat) -> bool {
    match active_idx(ivs, 0, p) {
        Some(i) => ivs[i].0 <= p && p + l <= ivs[i].1,
        None => false,
    }
}

/// The node ids of a body that the subset filter admits, in body order, with
/// the running base-pair offset starting at `p`.
pub open spec fn counted_from(
    sids: Seq<u32>,
    node_len: Seq<u32>,
    p: nat,
    ivs: Seq<(usize, usize)>,
) -> Seq<u32>
    decreases sids.len(),
{
    if sids.len() == 0 {
        Seq::<u32>::empty()
    } else {
        let l = node_len[sids[0] as int] as nat;
        let rest = counted_from(sids.skip(1), node_len, p + l, ivs);
        if covered_node(ivs, p, l) {
            seq![sids[0]] + rest
        } else {
            rest
        }
    }
}

/// The items of `s` that belong to shard `sh`.
pub open spec fn shard_filter(s: Seq<u32>, sh: int) -> Seq<u32> {
    s.filter(|id: u32| id as int % SIZE_T as int == sh)
}

/// All items deposited into shard `sh` by the given per-path bodies, in
/// deposit order.
pub open spec fn shard_items(bodies: Seq<Seq<u32>>, sh: int) -> Seq<u32>
    decreases bodies.len(),
{
    if bodies.len() == 0 {
        Seq::<u32>::empty()
    } else {
        shard_items(bodies.drop_last(), sh) + shard_filter(bodies.last(), sh)
    }
}

/// The sharded count buffer: per shard, a flat vector of deposited item ids
/// and a per-path prefix-sum vector of deposit counts.
#[derive(Debug)]
pub struct ItemTable {
    pub items: Vec<Vec<u32>>,
    pub id_prefsum: Vec<Vec<usize>>,
}

/// Mathematical image of an `ItemTable`.
pub ghost struct ItemTableV {
    pub items: Seq<Seq<u32>>,
    pub id_prefsum: Seq<Seq<usize>>,
}

impl View for ItemTable {
    type V = ItemTableV;

    open spec fn view(&self) -> ItemTableV {
        ItemTableV {
            items: self.items@.map_values(|v: Vec<u32>| v@),
            id_prefsum: self.id_prefsum@.map_values(|v: Vec<usize>| v@),
        }
    }
}

/// The table holds exactly the deposits of `bodies`, one prefix-sum entry per
/// path: shard `sh` holds the shard-`sh` items of every body in order, and
/// `id_prefsum[sh][k]` counts the deposits of the first `k` bodies.
pub open spec fn table_models(t: ItemTableV, bodies: Seq<Seq<u32>>) -> bool {
    &&& t.items.len() == SIZE_T
    &&& t.id_prefsum.len() == SIZE_T
    &&& (forall|sh: int|
        0 <= sh < SIZE_T ==> #[trigger] t.items[sh] == shard_items(bodies, sh))
    &&& (forall|sh: int|
        0 <= sh < SIZE_T ==> (#[trigger] t.id_prefsum[sh]).len() == bodies.len() + 1)
    &&& (forall|sh: int, k: int|
        0 <= sh < SIZE_T && 0 <= k <= bodies.len() ==> #[trigger] t.id_prefsum[sh][k]
            == shard_items(bodies.take(k), sh).len())
}

impl ItemTable {
    /// An empty table: no deposits, one prefix-sum entry (zero) per shard.
    pub fn new() -> (r: ItemTable)
        ensures
            table_models(r@, Seq::<Seq<u32>>::empty()),
    {
        let mut items: Vec<Vec<u32>> = Vec::new();
        let mut id_prefsum: Vec<Vec<usize>> = Vec::new();
        let mut s: usize = 0;
        while s < SIZE_T
            invariant
                s <= SIZE_T,
                items@.len() == s,
                id_prefsum@.len() == s,
                forall|i: int| 0 <= i < s ==> (#[trigger] items@[i])@.len() == 0,
                forall|i: int|
                    0 <= i < s ==> (#[trigger] id_prefsum@[i])@ == seq![0usize],
            decreases SIZE_T - s,
        {
            items.push(Vec::new());
            let mut z: Vec<usize> = Vec::new();
            z.push(0);
            assert(z@ =~= seq![0usize]);
            id_prefsum.push(z);
            s = s + 1;
        }
        let r = ItemTable { items, id_prefsum };
        proof {
            let bodies = Seq::<Seq<u32>>::empty();
            assert forall|sh: int| 0 <= sh < SIZE_T implies #[trigger] r@.items[sh]
                == shard_items(bodies, sh) by {
                assert(r@.items[sh] =~= Seq::<u32>::empty());
            }
            assert forall|sh: int, k: int|
                0 <= sh < SIZE_T && 0 <= k <= bodies.len() implies #[trigger] r@.id_prefsum[sh][k]
                == shard_items(bodies.take(k), sh).len() by {
                assert(bodies.take(0) =~= bodies);
                assert(shard_items(bodies, sh) =~= Seq::<u32>::empty());
            }
        }
        r
    }

    /// Deposits the admitted items of one more path body: each item goes to
    /// shard `id % SIZE_T`, and every shard gains one prefix-sum entry.
    pub fn deposit(&mut self, counted: &Vec<u32>, Ghost(bodies): Ghost<Seq<Seq<u32>>>)
        requires
            table_models(old(self)@, bodies),
        ensures
            table_models(final(self)@, bodies.push(counted@)),
    {
        let ghost bodies2 = bodies.push(counted@);
        let n = counted.len();
        let mut i: usize = 0;
        while i < n
            invariant
                i <= n,
                n == counted@.len(),
                table_models(old(self)@, bodies),
                self@.items.len() == SIZE_T,
                self@.id_prefsum == old(self)@.id_prefsum,
                forall|sh: int|
                    0 <= sh < SIZE_T ==> #[trigger] self@.items[sh] == old(self)@.items[sh]
                        + shard_filter(counted@.take(i as int), sh),
            decreases n - i,
        {
            let id = counted[i];
            let sh = (id as usize) % SIZE_T;
            let ghost pre = self@;
            let shard: &mut Vec<u32> = &mut self.items[sh];
            shard.push(id);
            proof {
                assert(self@.items[sh as int] =~= pre.items[sh as int].push(id));
                assert(counted@.take(i as int + 1) =~= counted@.take(i as int).push(id));
                assert forall|t: int| 0 <= t < SIZE_T implies #[trigger] self@.items[t] == old(
                    self,
                )@.items[t] + shard_filter(counted@.take(i as int + 1), t) by {
                    reveal(Seq::filter);
                    assert(counted@.take(i as int + 1).len() == i + 1);
                    assert(counted@.take(i as int + 1).drop_last() =~= counted@.take(i as int));
                    assert(counted@.take(i as int + 1).last() == id);
                    assert(shard_filter(counted@.take(i as int + 1), t) == if id as int % (
                    SIZE_T as int) == t {
                        shard_filter(counted@.take(i as int), t).push(id)
                    } else {
                        shard_filter(counted@.take(i as int), t)
                    });
                    if t == sh as int {
                        assert(self@.items[t] =~= old(self)@.items[t] + shard_filter(
                            counted@.take(i as int + 1),
                            t,
                        ));
                    } else {
                        assert(self@.items[t] == pre.items[t]);
                        assert(self@.items[t] =~= old(self)@.items[t] + shard_filter(
                            counted@.take(i as int + 1),
                            t,
                        ));
                    }
                }
            }
            i = i + 1;
        }
        assert(counted@.take(n as int) =~= counted@);
        let mut sh: usize = 0;
        let ghost mid = self@;
        while sh < SIZE_T
            invariant
                sh <= SIZE_T,
                table_models(old(self)@, bodies),
                self@.items == mid.items,
                self@.id_prefsum.len() == SIZE_T,
                mid.id_prefsum == old(self)@.id_prefsum,
                mid.items.len() == SIZE_T,
                forall|t: int|
                    0 <= t < SIZE_T ==> #[trigger] mid.items[t] == old(self)@.items[t]
                        + shard_filter(counted@, t),
                forall|t: int|
                    sh <= t < SIZE_T ==> #[trigger] self@.id_prefsum[t] == old(
                        self,
                    )@.id_prefsum[t],
                forall|t: int| 0 <= t < sh ==> #[trigger] mid.items[t].len() <= usize::MAX,
                forall|t: int|
                    0 <= t < sh ==> #[trigger] self@.id_prefsum[t] == old(self)@.id_prefsum[t].push(
                        mid.items[t].len() as usize,
                    ),
            decreases SIZE_T - sh,
        {
            let ghost pre = self@;
            let entry: usize = self.items[sh].len();
            let pv: &mut Vec<usize> = &mut self.id_prefsum[sh];
            pv.push(entry);
            proof {
                assert(self@.id_prefsum[sh as int] =~= pre.id_prefsum[sh as int].push(entry));
                assert(entry as nat == mid.items[sh as int].len());
                assert forall|t: int| 0 <= t < SIZE_T && t != sh implies #[trigger] self@.id_prefsum[t]
                    == pre.id_prefsum[t] by {}
            }
            sh = sh + 1;
        }
        proof {
            assert forall|t: int| 0 <= t < SIZE_T implies #[trigger] self@.items[t] == shard_items(
                bodies2,
                t,
            ) by {
                assert(bodies2.drop_last() =~= bodies);
                assert(bodies2.last() == counted@);
                assert(self@.items[t] == old(self)@.items[t] + shard_filter(counted@, t));
            }
            assert forall|t: int, k2: int|
                0 <= t < SIZE_T && 0 <= k2 <= bodies2.len() implies #[trigger] self@.id_prefsum[t][
                k2] == shard_items(bodies2.take(k2), t).len() by {
                if k2 <= bodies.len() {
                    assert(bodies2.take(k2) =~= bodies.take(k2));
                    assert(self@.id_prefsum[t][k2] == old(self)@.id_prefsum[t][k2]);
                } else {
                    assert(k2 == bodies2.len());
                    assert(bodies2.take(k2) =~= bodies2);
                    assert(self@.id_prefsum[t][k2] == mid.items[t].len());
                    lemma_shard_items_total(bodies, counted@, t);
                    assert(mid.items[t].len() == shard_items(bodies2, t).len());
                }
            }
        }
    }
}

/// The deposits of one more body extend a shard by that body's share.
proof fn lemma_shard_items_total(bodies: Seq<Seq<u32>>, c: Seq<u32>, sh: int)
    ensures
        shard_items(bodies.push(c), sh) == shard_items(bodies, sh) + shard_filter(c, sh),
{
    assert(bodies.push(c).drop_last() =~= bodies);
    assert(bodies.push(c).last() == c);
}

/// After all paths are deposited, each shard's final prefix sum equals the
/// number of items the shard holds.
pub proof fn lemma_prefsum_totals(t: ItemTableV, bodies: Seq<Seq<u32>>)
    requires
        table_models(t, bodies),
    ensures
        forall|sh: int|
            0 <= sh < SIZE_T ==> #[trigger] t.id_prefsum[sh][bodies.len() as int]
                == t.items[sh].len(),
{
    assert forall|sh: int| 0 <= sh < SIZE_T implies #[trigger] t.id_prefsum[sh][
    bodies.len() as int] == t.items[sh].len() by {
        assert(bodies.take(bodies.len() as int) =~= bodies);
    }
}

/// Interval order: by start, then by end.
pub open spec fn iv_le(a: (usize, usize), b: (usize, usize)) -> bool {
    a.0 < b.0 || (a.0 == b.0 && a.1 <= b.1)
}

/// Inserts an interval into a sorted duplicate-free list, keeping it sorted
/// and dropping the interval when it is already present.
pub open spec fn sorted_insert(l: Seq<(usize, usize)>, x: (usize, usize)) -> Seq<(usize, usize)>
    decreases l.len(),
{
    if l.len() == 0 {
        seq![x]
    } else if iv_le(x, l[0]) {
        if x == l[0] {
            l
        } else {
            seq![x] + l
        }
    } else {
        seq![l[0]] + sorted_insert(l.skip(1), x)
    }
}

/// Where `sorted_insert` puts `x`: before the first element that is not below
/// `x`, unless that element equals `x`.
proof fn lemma_sorted_insert_at(l: Seq<(usize, usize)>, x: (usize, usize), pos: int)
    requires
        0 <= pos <= l.len(),
        forall|j: int| 0 <= j < pos ==> !iv_le(x, #[trigger] l[j]),
        pos < l.len() ==> iv_le(x, l[pos]),
    ensures
        sorted_insert(l, x) == if pos < l.len() && l[pos] == x {
            l
        } else {
            l.take(pos) + seq![x] + l.skip(pos)
        },
    decreases l.len(),
{
    if l.len() == 0 {
        assert(l.take(0) =~= Seq::<(usize, usize)>::empty());
        assert(l.skip(0) =~= l);
        assert(sorted_insert(l, x) =~= l.take(0) + seq![x] + l.skip(0));
    } else if pos == 0 {
        if l[0] == x {
        } else {
            assert(l.take(0) =~= Seq::<(usize, usize)>::empty());
            assert(l.skip(0) =~= l);
            assert(sorted_insert(l, x) =~= l.take(0) + seq![x] + l.skip(0));
        }
    } else {
        assert(!iv_le(x, l[0]));
        lemma_sorted_insert_at(l.skip(1), x, pos - 1);
        if pos < l.len() && l[pos] == x {
            assert(l.skip(1)[pos - 1] == l[pos]);
            assert(sorted_insert(l, x) =~= l);
        } else {
            assert(l.skip(1).take(pos - 1) =~= l.take(pos).skip(1));
            assert(l.skip(1).skip(pos - 1) =~= l.skip(pos));
            assert(seq![l[0]] + (l.skip(1).take(pos - 1) + seq![x] + l.skip(1).skip(pos - 1))
                =~= l.take(pos) + seq![x] + l.skip(pos));
        }
    }
}

/// First position whose interval is not below `x`.
fn lower_bound(l: &Vec<(usize, usize)>, x: (usize, usize)) -> (pos: usize)
    ensures
        pos <= l@.len(),
        forall|j: int| 0 <= j < pos ==> !iv_le(x, #[trigger] l@[j]),
        pos < l@.len() ==> iv_le(x, l@[pos as int]),
{
    let n = l.len();
    let mut pos: usize = 0;
    while pos < n
        invariant
            pos <= n,
            n == l@.len(),
            forall|j: int| 0 <= j < pos ==> !iv_le(x, #[trigger] l@[j]),
        decreases n - pos,
    {
        let e = l[pos];
        if e.0 > x.0 || (e.0 == x.0 && e.1 >= x.1) {
            assert(iv_le(x, l@[pos as int]));
            return pos;
        }
        assert(!iv_le(x, l@[pos as int]));
        pos = pos + 1;
    }
    n
}

/// Exec twin of [`sorted_insert`].
pub fn sorted_insert_vec(l: &mut Vec<(usize, usize)>, x: (usize, usize))
    ensures
        final(l)@ == sorted_insert(old(l)@, x),
{
    let pos = lower_bound(l, x);
    let n = l.len();
    proof {
        lemma_sorted_insert_at(l@, x, pos as int);
    }
    if pos < n {
        let e = l[pos];
        if e.0 == x.0 && e.1 == x.1 {
            assert(l@[pos as int] == x);
            return ;
        }
    }
    l.insert(pos, x);
    proof {
        assert(l@ =~= old(l)@.take(pos as int) + seq![x] + old(l)@.skip(pos as int));
    }
}

/// The subset interval of one subset entry: its own coordinates, or the full
/// range when it names a whole path.
pub open spec fn seg_interval(ps: PathSegmentV) -> (usize, usize) {
    match (ps.start, ps.end) {
        (Some(a), Some(b)) => (a, b),
        _ => (0usize, usize::MAX),
    }
}

/// First entry of the subset map that names the same path, scanning from
/// `from`.
pub open spec fn map_find(
    m: Seq<(PathSegmentV, Seq<(usize, usize)>)>,
    ps: PathSegmentV,
    from: int,
) -> Option<int>
    decreases m.len() - from,
{
    if from < 0 || from >= m.len() {
        None
    } else if m[from].0.same_id(ps) {
        Some(from)
    } else {
        map_find(m, ps, from + 1)
    }
}

pub proof fn lemma_map_find(
    m: Seq<(PathSegmentV, Seq<(usize, usize)>)>,
    ps: PathSegmentV,
    from: int,
)
    requires
        0 <= from <= m.len(),
    ensures
        match map_find(m, ps, from) {
            Some(i) => from <= i < m.len() && m[i].0.same_id(ps),
            None => forall|j: int| from <= j < m.len() ==> !(#[trigger] m[j]).0.same_id(ps),
        },
    decreases m.len() - from,
{
    if from < m.len() && !m[from].0.same_id(ps) {
        lemma_map_find(m, ps, from + 1);
    }
}

/// The subset map after folding in `coords[i..]`: per path, the sorted
/// duplicate-free list of its subset intervals.
pub open spec fn subpath_map_from(
    coords: Seq<PathSegmentV>,
    i: int,
    m: Seq<(PathSegmentV, Seq<(usize, usize)>)>,
) -> Seq<(PathSegmentV, Seq<(usize, usize)>)>
    decreases coords.len() - i,
{
    if i < 0 || i >= coords.len() {
        m
    } else {
        let iv = seg_interval(coords[i]);
        let m2 = match map_find(m, coords[i], 0) {
            None => m.push((coords[i], seq![iv])),
            Some(j) => m.update(j, (m[j].0, sorted_insert(m[j].1, iv))),
        };
        subpath_map_from(coords, i + 1, m2)
    }
}

/// The subset map of a list of subset entries.
pub open spec fn spec_subpath_map(coords: Seq<PathSegmentV>) -> Seq<
    (PathSegmentV, Seq<(usize, usize)>),
> {
    subpath_map_from(coords, 0, Seq::<(PathSegmentV, Seq<(usize, usize)>)>::empty())
}

/// The subset intervals in force for one path: the full range when no subset
/// was requested, the path's own sorted list when it is in the map, and
/// nothing at all otherwise (a path outside the subset is fully excluded).
pub open spec fn effective_ivs(
    has_subset: bool,
    m: Seq<(PathSegmentV, Seq<(usize, usize)>)>,
    ps: PathSegmentV,
) -> Seq<(usize, usize)> {
    if !has_subset {
        seq![(0usize, usize::MAX)]
    } else {
        match map_find(m, ps, 0) {
            None => Seq::<(usize, usize)>::empty(),
            Some(j) => m[j].1,
        }
    }
}

/// The view of a subset map held as a vector.
pub open spec fn submap_view(m: Seq<(PathSegment, Vec<(usize, usize)>)>) -> Seq<
    (PathSegmentV, Seq<(usize, usize)>),
> {
    m.map_values(|e: (PathSegment, Vec<(usize, usize)>)| (e.0@, e.1@))
}

/// Finds the entry of the subset map that names the same path.
pub fn map_find_vec(m: &Vec<(PathSegment, Vec<(usize, usize)>)>, ps: &PathSegment) -> (r: Option<
    usize,
>)
    ensures
        match r {
            Some(j) => map_find(submap_view(m@), ps@, 0) == Some(j as int),
            None => map_find(submap_view(m@), ps@, 0) is None,
        },
{
    let ghost mv = submap_view(m@);
    let n = m.len();
    let mut i: usize = 0;
    while i < n
        invariant
            i <= n,
            n == m@.len(),
            mv == submap_view(m@),
            map_find(mv, ps@, 0) == map_find(mv, ps@, i as int),
        decreases n - i,
    {
        if m[i].0.same_id(ps) {
            assert(mv[i as int].0.same_id(ps@));
            return Some(i);
        }
        assert(!mv[i as int].0.same_id(ps@));
        i = i + 1;
    }
    None
}

/// Gathers the subset entries into a per-path map of sorted, duplicate-free
/// interval lists. An entry without coordinates contributes the full range.
pub fn build_subpath_map(coords: &Vec<PathSegment>) -> (r: Vec<
    (PathSegment, Vec<(usize, usize)>),
>)
    ensures
        submap_view(r@) == spec_subpath_map(coords@.map_values(|p: PathSegment| p@)),
{
    let ghost cv = coords@.map_values(|p: PathSegment| p@);
    let mut r: Vec<(PathSegment, Vec<(usize, usize)>)> = Vec::new();
    let n = coords.len();
    let mut i: usize = 0;
    proof {
        assert(submap_view(r@) =~= Seq::<(PathSegmentV, Seq<(usize, usize)>)>::empty());
    }
    while i < n
        invariant
            i <= n,
            n == coords@.len(),
            cv == coords@.map_values(|p: PathSegment| p@),
            spec_subpath_map(cv) == subpath_map_from(cv, i as int, submap_view(r@)),
        decreases n - i,
    {
        let seg = &coords[i];
        let iv: (usize, usize) = match seg.coords() {
            Some(c) => c,
            None => (0, usize::MAX),
        };
        assert(iv == seg_interval(cv[i as int]));
        let ghost m0 = submap_view(r@);
        match map_find_vec(&r, seg) {
            None => {
                let mut ivs: Vec<(usize, usize)> = Vec::new();
                ivs.push(iv);
                assert(ivs@ =~= seq![iv]);
                let entry = (seg.duplicate(), ivs);
                r.push(entry);
                proof {
                    assert(submap_view(r@) =~= m0.push((cv[i as int], seq![iv])));
                }
            },
            Some(j) => {
                proof {
                    lemma_map_find(m0, cv[i as int], 0);
                    assert(seg@ == cv[i as int]);
                }
                let entry: &mut (PathSegment, Vec<(usize, usize)>) = &mut r[j];
                let ghost oldpair = (entry.0@, entry.1@);
                sorted_insert_vec(&mut entry.1, iv);
                proof {
                    assert(submap_view(r@) =~= m0.update(
                        j as int,
                        (m0[j as int].0, sorted_insert(m0[j as int].1, iv)),
                    ));
                }
            },
        }
        i = i + 1;
    }
    r
}

/// How paths are merged into groups.
#[derive(Clone, Copy, Debug, PartialEq, Eq, Structural)]
pub enum GroupMode {
    /// Every path is its own group.
    PerPath,
    /// Paths of one sample form one group.
    BySample,
    /// Paths of one sample and haplotype form one group.
    ByHaplotype,
    /// Groups come from an explicit path-to-label table.
    ByFile,
}

/// First entry of a grouping table that names the same path.
pub open spec fn file_find(f: Seq<(PathSegmentV, Seq<u8>)>, ps: PathSegmentV, from: int) -> Option<
    int,
>
    decreases f.len() - from,
{
    if from < 0 || from >= f.len() {
        None
    } else if f[from].0.same_id(ps) {
        Some(from)
    } else {
        file_find(f, ps, from + 1)
    }
}

/// The group label of one path under a grouping mode; `None` when an explicit
/// table does not name the path.
pub open spec fn spec_label(
    mode: GroupMode,
    ps: PathSegmentV,
    file: Seq<(PathSegmentV, Seq<u8>)>,
) -> Option<Seq<u8>> {
    match mode {
        GroupMode::PerPath => Some(path_id_bytes(ps)),
        GroupMode::BySample => Some(ps.sample),
        GroupMode::ByHaplotype => Some(
            ps.sample + (match ps.haplotype {
                Some(h) => seq![35u8] + h,
                None => Seq::<u8>::empty(),
            }),
        ),
        GroupMode::ByFile => match file_find(file, ps, 0) {
            None => None,
            Some(j) => Some(file[j].1),
        },
    }
}

/// The grouping after folding in `segs[i..]`: dense group ids in first-seen
/// label order, and per path the id of its group.
pub open spec fn groups_from(
    segs: Seq<PathSegmentV>,
    i: int,
    mode: GroupMode,
    file: Seq<(PathSegmentV, Seq<u8>)>,
    labels: Seq<Seq<u8>>,
    asg: Seq<usize>,
) -> Result<(Seq<Seq<u8>>, Seq<usize>), CountError>
    decreases segs.len() - i,
{
    if i < 0 || i >= segs.len() {
        Ok((labels, asg))
    } else {
        match spec_label(mode, segs[i], file) {
            None => Err(CountError::InvalidInput),
            Some(lab) => {
                match crate::graph::seq_index_of(labels, lab, 0) {
                    Some(j) => groups_from(segs, i + 1, mode, file, labels, asg.push(j as usize)),
                    None => groups_from(
                        segs,
                        i + 1,
                        mode,
                        file,
                        labels.push(lab),
                        asg.push(labels.len() as usize),
                    ),
                }
            },
        }
    }
}

/// Looks a path up in an explicit grouping table, returning a copy of its
/// label.
fn file_lookup(file: &Vec<(PathSegment, Vec<u8>)>, seg: &PathSegment) -> (r: Option<Vec<u8>>)
    ensures
        match r {
            Some(v) => ({
                let fv = groupfile_view(file@);
                file_find(fv, seg@, 0) is Some && v@ == fv[file_find(fv, seg@, 0)->0].1
            }),
            None => file_find(groupfile_view(file@), seg@, 0) is None,
        },
{
    let ghost fv = groupfile_view(file@);
    let fl = file.len();
    let mut j: usize = 0;
    while j < fl
        invariant
            j <= fl,
            fl == file@.len(),
            fv == groupfile_view(file@),
            file_find(fv, seg@, 0) == file_find(fv, seg@, j as int),
        decreases fl - j,
    {
        if file[j].0.same_id(seg) {
            assert(fv[j as int].0.same_id(seg@));
            assert(file_find(fv, seg@, j as int) == Some(j as int));
            return Some(clone_bytes(&file[j].1));
        }
        assert(!fv[j as int].0.same_id(seg@));
        j = j + 1;
    }
    None
}

/// The dense id already given to a label, when there is one.
fn label_index(labels: &Vec<Vec<u8>>, lab: &Vec<u8>) -> (r: Option<usize>)
    ensures
        ({
            let lv = labels@.map_values(|v: Vec<u8>| v@);
            match r {
                Some(j) => crate::graph::seq_index_of(lv, lab@, 0) == Some(j as int),
                None => crate::graph::seq_index_of(lv, lab@, 0) is None,
            }
        }),
{
    let ghost lv = labels@.map_values(|v: Vec<u8>| v@);
    let nl = labels.len();
    let mut j: usize = 0;
    while j < nl
        invariant
            j <= nl,
            nl == labels@.len(),
            lv == labels@.map_values(|v: Vec<u8>| v@),
            crate::graph::seq_index_of(lv, lab@, 0) == crate::graph::seq_index_of(
                lv,
                lab@,
                j as int,
            ),
        decreases nl - j,
    {
        if bytes_eq(&labels[j], lab) {
            assert(lv[j as int] == lab@);
            return Some(j);
        }
        assert(lv[j as int] != lab@);
        j = j + 1;
    }
    None
}

/// A resolved grouping: group labels in dense id order, and for each path the
/// id of its group.
#[derive(Debug)]
pub struct Grouping {
    pub labels: Vec<Vec<u8>>,
    pub assignment: Vec<usize>,
}

/// The view of a grouping table held as a vector.
pub open spec fn groupfile_view(f: Seq<(PathSegment, Vec<u8>)>) -> Seq<(PathSegmentV, Seq<u8>)> {
    f.map_values(|e: (PathSegment, Vec<u8>)| (e.0@, e.1@))
}

impl Grouping {
    /// Resolves the group of every path, assigning dense group ids in
    /// first-seen order. With `ByFile`, a path absent from the table is a
    /// configuration error.
    pub fn assign(
        segments: &Vec<PathSegment>,
        mode: GroupMode,
        file: &Vec<(PathSegment, Vec<u8>)>,
    ) -> (r: Result<Grouping, CountError>)
        ensures
            ({
                let spec = groups_from(
                    segments@.map_values(|p: PathSegment| p@),
                    0,
                    mode,
                    groupfile_view(file@),
                    Seq::<Seq<u8>>::empty(),
                    Seq::<usize>::empty(),
                );
                match r {
                    Ok(gr) => spec == Ok::<_, CountError>(
                        (
                            gr.labels@.map_values(|v: Vec<u8>| v@),
                            gr.assignment@,
                        ),
                    ) && gr.assignment@.len() == segments@.len() && (forall|k: int|
                        0 <= k < gr.assignment@.len() ==> (#[trigger] gr.assignment@[k])
                            < gr.labels@.len()),
                    Err(e) => spec == Err::<(Seq<Seq<u8>>, Seq<usize>), CountError>(e),
                }
            }),
    {
        let ghost segv = segments@.map_values(|p: PathSegment| p@);
        let ghost filev = groupfile_view(file@);
        let mut labels: Vec<Vec<u8>> = Vec::new();
        let mut asg: Vec<usize> = Vec::new();
        let n = segments.len();
        let mut i: usize = 0;
        proof {
            assert(labels@.map_values(|v: Vec<u8>| v@) =~= Seq::<Seq<u8>>::empty());
            assert(asg@ =~= Seq::<usize>::empty());
        }
        while i < n
            invariant
                i <= n,
                n == segments@.len(),
                segv == segments@.map_values(|p: PathSegment| p@),
                filev == groupfile_view(file@),
                asg@.len() == i,
                forall|k: int| 0 <= k < i ==> (#[trigger] asg@[k]) < labels@.len(),
                groups_from(segv, 0, mode, filev, Seq::<Seq<u8>>::empty(), Seq::<usize>::empty())
                    == groups_from(
                    segv,
                    i as int,
                    mode,
                    filev,
                    labels@.map_values(|v: Vec<u8>| v@),
                    asg@,
                ),
            decreases n - i,
        {
            let seg = &segments[i];
            assert(segv[i as int] == seg@);
            let ghost labels0 = labels@.map_values(|v: Vec<u8>| v@);
            let lab: Option<Vec<u8>> = match mode {
                GroupMode::PerPath => Some(seg.id_bytes()),
                GroupMode::BySample => Some(clone_bytes(&seg.sample)),
                GroupMode::ByHaplotype => Some(seg.haplotype_id_bytes()),
                GroupMode::ByFile => file_lookup(file, seg),
            };
            match lab {
                None => {
                    assert(spec_label(mode, segv[i as int], filev) is None);
                    return Err(CountError::InvalidInput);
                },
                Some(labv) => {
                    assert(Some(labv@) == spec_label(mode, segv[i as int], filev));
                    match label_index(&labels, &labv) {
                        Some(j2) => {
                            proof {
                                crate::graph::lemma_seq_index_of(labels0, labv@, 0);
                            }
                            asg.push(j2);
                        },
                        None => {
                            let nl = labels.len();
                            asg.push(nl);
                            labels.push(labv);
                            proof {
                                assert(labels@.map_values(|v: Vec<u8>| v@) =~= labels0.push(
                                    labels@[nl as int]@,
                                ));
                            }
                        },
                    }
                },
            }
            i = i + 1;
        }
        Ok(Grouping { labels, assignment: asg })
    }
}

/// The outcome the whole by-total pipeline owes for given inputs: the
/// per-path deposits of the second pass, provided the group ceiling holds and
/// the grouping assigns exactly the scanned paths.
pub open spec fn spec_abacus_outcome(
    data: Seq<u8>,
    g: crate::graph::GraphIndexV,
    has_subset: bool,
    m: Seq<(PathSegmentV, Seq<(usize, usize)>)>,
    labels: Seq<Seq<u8>>,
    asg: Seq<usize>,
) -> Result<Seq<Seq<u32>>, CountError> {
    if labels.len() > MAX_GROUPS {
        Err(CountError::Unsupported)
    } else {
        match crate::io::nodecount_from(
            crate::bytes::split_on(data, 10u8),
            0,
            g,
            has_subset,
            m,
            Seq::<Seq<u32>>::empty(),
        ) {
            Err(e) => Err(e),
            Ok(bodies) => if bodies.len() == asg.len() {
                Ok(bodies)
            } else {
                Err(CountError::InvalidInput)
            },
        }
    }
}

/// Whether group `gid` covers item `id`: some path of that group deposited it.
pub open spec fn covers(bodies: Seq<Seq<u32>>, asg: Seq<usize>, id: u32, gid: int) -> bool {
    exists|k: int| 0 <= k < bodies.len() && asg[k] == gid && (#[trigger] bodies[k]).contains(id)
}

/// The number of groups with id below `g` that cover item `id`.
pub open spec fn cov_count(bodies: Seq<Seq<u32>>, asg: Seq<usize>, id: u32, g: int) -> nat
    decreases g,
{
    if g <= 0 {
        0
    } else {
        cov_count(bodies, asg, id, g - 1) + if covers(bodies, asg, id, g - 1) {
            1nat
        } else {
            0nat
        }
    }
}

pub proof fn lemma_cov_count_bound(bodies: Seq<Seq<u32>>, asg: Seq<usize>, id: u32, g: int)
    requires
        g >= 0,
    ensures
        cov_count(bodies, asg, id, g) <= g,
    decreases g,
{
    if g > 0 {
        lemma_cov_count_bound(bodies, asg, id, g - 1);
    }
}

/// The set of groups below `g` that cover item `id`.
pub open spec fn cov_set(bodies: Seq<Seq<u32>>, asg: Seq<usize>, id: u32, g: int) -> Set<int> {
    Set::new(|gi: int| 0 <= gi < g && covers(bodies, asg, id, gi))
}

/// The distinct-group count is the size of the covering-group set.
pub proof fn lemma_cov_count_is_set_len(bodies: Seq<Seq<u32>>, asg: Seq<usize>, id: u32, g: int)
    requires
        g >= 0,
    ensures
        cov_set(bodies, asg, id, g).finite(),
        cov_count(bodies, asg, id, g) == cov_set(bodies, asg, id, g).len(),
    decreases g,
{
    if g == 0 {
        assert(cov_set(bodies, asg, id, 0) =~= Set::<int>::empty());
    } else {
        lemma_cov_count_is_set_len(bodies, asg, id, g - 1);
        let prev = cov_set(bodies, asg, id, g - 1);
        if covers(bodies, asg, id, g - 1) {
            assert(cov_set(bodies, asg, id, g) =~= prev.insert(g - 1));
            assert(!prev.contains(g - 1));
        } else {
            assert(cov_set(bodies, asg, id, g) =~= prev);
        }
    }
}

/// Renaming the groups by any injective map leaves every item's distinct
/// group count unchanged: the unordered by-total counts, and with them the
/// histogram, do not depend on the order in which groups are numbered.
pub proof fn lemma_cov_count_permuted(
    bodies: Seq<Seq<u32>>,
    asg: Seq<usize>,
    perm: Seq<usize>,
    id: u32,
    gcount: int,
)
    requires
        gcount >= 0,
        perm.len() == gcount,
        asg.len() == bodies.len(),
        forall|k: int| 0 <= k < asg.len() ==> (#[trigger] asg[k]) < gcount,
        forall|g: int| 0 <= g < gcount ==> (#[trigger] perm[g]) < gcount,
        forall|g1: int, g2: int|
            0 <= g1 < g2 < gcount ==> perm[g1] != perm[g2],
    ensures
        cov_count(bodies, asg.map_values(|g: usize| perm[g as int]), id, gcount) == cov_count(
            bodies,
            asg,
            id,
            gcount,
        ),
{
    let asg2 = asg.map_values(|g: usize| perm[g as int]);
    let s1 = cov_set(bodies, asg, id, gcount);
    let s2 = cov_set(bodies, asg2, id, gcount);
    let f: spec_fn(int) -> int = |g: int| perm[g] as int;
    lemma_cov_count_is_set_len(bodies, asg, id, gcount);
    lemma_cov_count_is_set_len(bodies, asg2, id, gcount);
    assert(s1.map(f) =~= s2) by {
        assert forall|y: int| s1.map(f).contains(y) implies s2.contains(y) by {
            let x = choose|x: int| s1.contains(x) && f(x) == y;
            assert(covers(bodies, asg, id, x));
            let k = choose|k: int|
                0 <= k < bodies.len() && asg[k] == x && (#[trigger] bodies[k]).contains(id);
            assert(asg2[k] == perm[asg[k] as int]);
            assert(asg2[k] == perm[x]);
            assert(0 <= k < bodies.len() && asg2[k] == y && bodies[k].contains(id));
            assert(covers(bodies, asg2, id, y));
        }
        assert forall|y: int| s2.contains(y) implies s1.map(f).contains(y) by {
            assert(covers(bodies, asg2, id, y));
            let k = choose|k: int|
                0 <= k < bodies.len() && asg2[k] == y && (#[trigger] bodies[k]).contains(id);
            let x = asg[k] as int;
            assert(asg2[k] == perm[asg[k] as int]);
            assert(asg2[k] == perm[x]);
            assert(0 <= k < bodies.len() && asg[k] == x && bodies[k].contains(id));
            assert(covers(bodies, asg, id, x));
            assert(s1.contains(x) && f(x) == y);
        }
    }
    assert(vstd::relations::injective_on(f, s1)) by {
        assert forall|g1: int, g2: int|
            s1.contains(g1) && s1.contains(g2) && #[trigger] f(g1) == #[trigger] f(g2) implies g1
            == g2 by {
            if g1 < g2 {
                assert(perm[g1] != perm[g2]);
            }
            if g2 < g1 {
                assert(perm[g2] != perm[g1]);
            }
        }
    }
    vstd::set_lib::lemma_map_size(s1, s2, f);
}

/// A subset map that names a path with the full range admits of that path
/// exactly what no subset admits: the same intervals are in force, so the
/// same items are counted. A subset that is the union of all paths, whole,
/// therefore changes nothing.
pub proof fn lemma_full_subset_like_none(
    m: Seq<(PathSegmentV, Seq<(usize, usize)>)>,
    ps: PathSegmentV,
)
    requires
        map_find(m, ps, 0) is Some,
        m[map_find(m, ps, 0)->0].1 == seq![(0usize, usize::MAX)],
    ensures
        effective_ivs(true, m, ps) == effective_ivs(false, m, ps),
{
}

/// Splitting the body list splits each shard's deposits.
proof fn lemma_shard_concat(bodies: Seq<Seq<u32>>, k: int, sh: int)
    requires
        0 <= k <= bodies.len(),
    ensures
        shard_items(bodies, sh) == shard_items(bodies.take(k), sh) + shard_items(
            bodies.skip(k),
            sh,
        ),
    decreases bodies.len(),
{
    if k == bodies.len() {
        assert(bodies.take(k) =~= bodies);
        assert(bodies.skip(k) =~= Seq::<Seq<u32>>::empty());
        assert(shard_items(bodies, sh) + shard_items(bodies.skip(k), sh) =~= shard_items(
            bodies,
            sh,
        ));
    } else {
        let b2 = bodies.drop_last();
        lemma_shard_concat(b2, k, sh);
        assert(bodies.take(k) =~= b2.take(k));
        assert(bodies.skip(k) =~= b2.skip(k).push(bodies.last()));
        assert(bodies.skip(k).drop_last() =~= b2.skip(k));
        assert(shard_items(bodies.skip(k), sh) == shard_items(b2.skip(k), sh) + shard_filter(
            bodies.last(),
            sh,
        ));
        assert(shard_items(bodies.take(k), sh) + (shard_items(b2.skip(k), sh) + shard_filter(
            bodies.last(),
            sh,
        )) =~= (shard_items(bodies.take(k), sh) + shard_items(b2.skip(k), sh)) + shard_filter(
            bodies.last(),
            sh,
        ));
    }
}

/// A shard keeps every occurrence of an item that belongs to it.
proof fn lemma_filter_contains_iff(s: Seq<u32>, sh: int, id: u32)
    requires
        id as int % SIZE_T as int == sh,
    ensures
        shard_filter(s, sh).contains(id) == s.contains(id),
    decreases s.len(),
{
    reveal(Seq::filter);
    if s.len() == 0 {
    } else {
        lemma_filter_contains_iff(s.drop_last(), sh, id);
        let f = shard_filter(s, sh);
        let fd = shard_filter(s.drop_last(), sh);
        if s.last() as int % SIZE_T as int == sh {
            assert(f == fd.push(s.last()));
            if s.contains(id) {
                let w = choose|w: int| 0 <= w < s.len() && s[w] == id;
                if w == s.len() - 1 {
                    assert(f[f.len() - 1] == id);
                } else {
                    assert(s.drop_last()[w] == id);
                    assert(s.drop_last().contains(id));
                    let w2 = choose|w2: int| 0 <= w2 < fd.len() && fd[w2] == id;
                    assert(f[w2] == id);
                }
            }
            if f.contains(id) {
                let w = choose|w: int| 0 <= w < f.len() && f[w] == id;
                if w == f.len() - 1 {
                    assert(s.last() == id);
                    assert(s[s.len() - 1] == id);
                } else {
                    assert(fd[w] == id);
                    assert(fd.contains(id));
                    let w2 = choose|w2: int| 0 <= w2 < s.drop_last().len() && s.drop_last()[w2]
                        == id;
                    assert(s[w2] == id);
                }
            }
        } else {
            assert(f == fd);
            if s.contains(id) {
                let w = choose|w: int| 0 <= w < s.len() && s[w] == id;
                assert(s.last() != id);
                assert(w != s.len() - 1);
                assert(s.drop_last()[w] == id);
                assert(s.drop_last().contains(id));
            }
            if fd.contains(id) {
                let w2 = choose|w2: int| 0 <= w2 < s.drop_last().len() && s.drop_last()[w2] == id;
                assert(s[w2] == id);
            }
        }
    }
}

/// Whether path `k` deposited item `id`, read off the table's prefix sums.
fn path_contains(
    table: &ItemTable,
    Ghost(bodies): Ghost<Seq<Seq<u32>>>,
    k: usize,
    id: u32,
) -> (r: bool)
    requires
        table_models(table@, bodies),
        k < bodies.len(),
    ensures
        r == bodies[k as int].contains(id),
{
    let sh = (id as usize) % SIZE_T;
    let ghost a = shard_items(bodies.take(k as int), sh as int);
    let ghost mseg = shard_filter(bodies[k as int], sh as int);
    proof {
        lemma_shard_concat(bodies, k as int + 1, sh as int);
        assert(bodies.take(k as int + 1).drop_last() =~= bodies.take(k as int));
        assert(bodies.take(k as int + 1).last() == bodies[k as int]);
        assert(shard_items(bodies.take(k as int + 1), sh as int) == a + mseg);
        lemma_filter_contains_iff(bodies[k as int], sh as int, id);
        assert(table@.id_prefsum.len() == SIZE_T);
        assert(table@.id_prefsum[sh as int] == table.id_prefsum@[sh as int]@);
        assert(table@.id_prefsum[sh as int].len() == bodies.len() + 1);
        assert(table@.id_prefsum[sh as int][k as int] == shard_items(
            bodies.take(k as int),
            sh as int,
        ).len());
        assert(table@.id_prefsum[sh as int][k as int + 1] == shard_items(
            bodies.take(k as int + 1),
            sh as int,
        ).len());
        assert(table@.items[sh as int] == table.items@[sh as int]@);
        assert(table@.items[sh as int] == shard_items(bodies, sh as int));
    }
    let plen = table.id_prefsum[sh].len();
    assert(plen == bodies.len() + 1);
    let lo = table.id_prefsum[sh][k];
    let hi = table.id_prefsum[sh][k + 1];
    assert(lo == a.len());
    assert(hi == a.len() + mseg.len());
    let items = &table.items[sh];
    assert(items@ == shard_items(bodies, sh as int));
    assert(hi <= items@.len()) by {
        assert(items@ == (a + mseg) + shard_items(bodies.skip(k as int + 1), sh as int));
    }
    let mut pos: usize = lo;
    while pos < hi
        invariant
            lo <= pos <= hi <= items@.len(),
            lo == a.len(),
            hi == a.len() + mseg.len(),
            items@ == shard_items(bodies, sh as int),
            shard_items(bodies, sh as int) == (a + mseg) + shard_items(
                bodies.skip(k as int + 1),
                sh as int,
            ),
            mseg.contains(id) == bodies[k as int].contains(id),
            forall|q: int| lo <= q < pos ==> items@[q] != id,
        decreases hi - pos,
    {
        if items[pos] == id {
            assert(mseg[pos - lo] == id);
            assert(mseg.contains(id));
            return true;
        }
        pos = pos + 1;
    }
    proof {
        if mseg.contains(id) {
            let w = choose|w: int| 0 <= w < mseg.len() && mseg[w] == id;
            assert(items@[lo + w] == mseg[w]);
        }
    }
    false
}

/// Whether group `gid` covers item `id`.
fn group_covers_item(
    table: &ItemTable,
    Ghost(bodies): Ghost<Seq<Seq<u32>>>,
    asg: &Vec<usize>,
    gid: usize,
    id: u32,
) -> (r: bool)
    requires
        table_models(table@, bodies),
        asg@.len() == bodies.len(),
    ensures
        r == covers(bodies, asg@, id, gid as int),
{
    let p = asg.len();
    let mut k: usize = 0;
    while k < p
        invariant
            k <= p,
            p == asg@.len(),
            asg@.len() == bodies.len(),
            table_models(table@, bodies),
            forall|q: int|
                0 <= q < k ==> !(asg@[q] == gid && (#[trigger] bodies[q]).contains(id)),
        decreases p - k,
    {
        if asg[k] == gid {
            if path_contains(table, Ghost(bodies), k, id) {
                assert(covers(bodies, asg@, id, gid as int));
                return true;
            }
        }
        k = k + 1;
    }
    proof {
        if covers(bodies, asg@, id, gid as int) {
            let w = choose|w: int|
                0 <= w < bodies.len() && asg@[w] == gid as int && (#[trigger] bodies[w]).contains(
                    id,
                );
            assert(!(asg@[w] == gid && bodies[w].contains(id)));
        }
    }
    false
}

/// The number of distinct groups among the first `n_groups` that cover `id`.
fn count_item_groups(
    table: &ItemTable,
    Ghost(bodies): Ghost<Seq<Seq<u32>>>,
    asg: &Vec<usize>,
    n_groups: usize,
    id: u32,
) -> (r: u16)
    requires
        table_models(table@, bodies),
        asg@.len() == bodies.len(),
        n_groups <= MAX_GROUPS,
    ensures
        r == cov_count(bodies, asg@, id, n_groups as int),
{
    let mut cnt: u16 = 0;
    let mut g: usize = 0;
    while g < n_groups
        invariant
            g <= n_groups,
            n_groups <= MAX_GROUPS,
            table_models(table@, bodies),
            asg@.len() == bodies.len(),
            cnt == cov_count(bodies, asg@, id, g as int),
            cnt <= g,
        decreases n_groups - g,
    {
        if group_covers_item(table, Ghost(bodies), asg, g, id) {
            cnt = cnt + 1;
        }
        g = g + 1;
    }
    cnt
}

/// The by-total abacus: for every item, the number of distinct groups that
/// cover it, and the group labels in dense id order.
#[derive(Debug)]
pub struct AbacusByTotal {
    pub countable: Vec<u16>,
    pub groups: Vec<Vec<u8>>,
}

impl AbacusByTotal {
    /// Folds a filled table into per-item distinct-group counts, one entry per
    /// item id.
    pub fn from_item_table(
        table: &ItemTable,
        Ghost(bodies): Ghost<Seq<Seq<u32>>>,
        grouping: &Grouping,
        n_items: usize,
    ) -> (r: AbacusByTotal)
        requires
            table_models(table@, bodies),
            grouping.assignment@.len() == bodies.len(),
            grouping.labels@.len() <= MAX_GROUPS,
            n_items <= u32::MAX,
        ensures
            r.countable@.len() == n_items,
            forall|id: int|
                0 <= id < n_items ==> (#[trigger] r.countable@[id]) as nat == cov_count(
                    bodies,
                    grouping.assignment@,
                    id as u32,
                    grouping.labels@.len() as int,
                ),
            forall|id: int|
                0 <= id < n_items ==> (#[trigger] r.countable@[id]) as nat
                    <= grouping.labels@.len(),
            r.groups@.map_values(|v: Vec<u8>| v@) == grouping.labels@.map_values(
                |v: Vec<u8>| v@,
            ),
    {
        let n_groups = grouping.labels.len();
        let mut countable: Vec<u16> = Vec::new();
        let mut id: usize = 0;
        while id < n_items
            invariant
                id <= n_items,
                n_items <= u32::MAX,
                n_groups == grouping.labels@.len(),
                n_groups <= MAX_GROUPS,
                table_models(table@, bodies),
                grouping.assignment@.len() == bodies.len(),
                countable@.len() == id,
                forall|q: int|
                    0 <= q < id ==> (#[trigger] countable@[q]) as nat == cov_count(
                        bodies,
                        grouping.assignment@,
                        q as u32,
                        n_groups as int,
                    ),
                forall|q: int| 0 <= q < id ==> (#[trigger] countable@[q]) as nat <= n_groups,
            decreases n_items - id,
        {
            let c = count_item_groups(
                table,
                Ghost(bodies),
                &grouping.assignment,
                n_groups,
                id as u32,
            );
            proof {
                lemma_cov_count_bound(bodies, grouping.assignment@, id as u32, n_groups as int);
            }
            countable.push(c);
            id = id + 1;
        }
        let mut groups: Vec<Vec<u8>> = Vec::new();
        let gl = grouping.labels.len();
        let mut j: usize = 0;
        while j < gl
            invariant
                j <= gl,
                gl == grouping.labels@.len(),
                groups@.len() == j,
                forall|q: int| 0 <= q < j ==> (#[trigger] groups@[q])@ == grouping.labels@[q]@,
            decreases gl - j,
        {
            let lab = clone_bytes(&grouping.labels[j]);
            groups.push(lab);
            j = j + 1;
        }
        proof {
            assert(groups@.map_values(|v: Vec<u8>| v@) =~= grouping.labels@.map_values(
                |v: Vec<u8>| v@,
            ));
        }
        AbacusByTotal { countable, groups }
    }

    /// Runs the second streaming pass over `data` and folds the table: the
    /// by-total abacus of a graph under a subset filter and a grouping.
    pub fn from_gfa(
        data: &Vec<u8>,
        graph: &GraphIndex,
        subset_coords: Option<&Vec<PathSegment>>,
        grouping: &Grouping,
    ) -> (r: Result<AbacusByTotal, CountError>)
        requires
            graph@.wf(),
        ensures
            ({
                let m = match subset_coords {
                    Some(c) => spec_subpath_map(c@.map_values(|p: PathSegment| p@)),
                    None => Seq::<(PathSegmentV, Seq<(usize, usize)>)>::empty(),
                };
                let spec = spec_abacus_outcome(
                    data@,
                    graph@,
                    subset_coords is Some,
                    m,
                    grouping.labels@.map_values(|v: Vec<u8>| v@),
                    grouping.assignment@,
                );
                match r {
                    Err(e) => spec == Err::<Seq<Seq<u32>>, CountError>(e),
                    Ok(ab) => spec is Ok && ({
                        let bodies = spec->Ok_0;
                        &&& ab.countable@.len() == graph@.node_names.len()
                        &&& (forall|id: int|
                            0 <= id < ab.countable@.len() ==> (#[trigger] ab.countable@[id]) as nat
                                == cov_count(
                                bodies,
                                grouping.assignment@,
                                id as u32,
                                grouping.labels@.len() as int,
                            ))
                        &&& (forall|id: int|
                            0 <= id < ab.countable@.len() ==> (#[trigger] ab.countable@[id]) as nat
                                <= grouping.labels@.len())
                        &&& ab.groups@.map_values(|v: Vec<u8>| v@)
                            == grouping.labels@.map_values(|v: Vec<u8>| v@)
                    }),
                }
            }),
    {
        if grouping.labels.len() > MAX_GROUPS {
            return Err(CountError::Unsupported);
        }
        let table = match crate::io::parse_gfa_nodecount(data, graph, subset_coords) {
            Err(e) => {
                return Err(e);
            },
            Ok(t) => t,
        };
        let ghost bodies = crate::io::nodecount_from(
            crate::bytes::split_on(data@, 10u8),
            0,
            graph@,
            subset_coords is Some,
            (match subset_coords {
                Some(c) => spec_subpath_map(c@.map_values(|p: PathSegment| p@)),
                None => Seq::<(PathSegmentV, Seq<(usize, usize)>)>::empty(),
            }),
            Seq::<Seq<u32>>::empty(),
        )->Ok_0;
        assert(table_models(table@, bodies));
        let plen = table.id_prefsum[0].len();
        proof {
            assert(table@.id_prefsum[0] == table.id_prefsum@[0]@);
            assert(table@.id_prefsum[0].len() == bodies.len() + 1);
        }
        if plen - 1 != grouping.assignment.len() {
            return Err(CountError::InvalidInput);
        }
        assert(bodies.len() == grouping.assignment@.len());
        Ok(Self::from_item_table(&table, Ghost(bodies), grouping, graph.node_names.len()))
    }
}

} // verus!
