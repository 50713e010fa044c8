//! Stitching boundary ways into closed rings.
//!
//! Each way is a list of node ids; two ways can be joined where an endpoint
//! of one equals an endpoint of the other.  [`stitch_rings`] grows chains
//! from the ways in input order and keeps the chains that close.

use vstd::prelude::*;

verus! {

/// `w` reversed.
pub open spec fn flip(w: Seq<i64>) -> Seq<i64> {
    Seq::new(w.len(), |i: int| w[w.len() - 1 - i])
}

/// `w` in the orientation `rev` (reversed when `rev`).
pub open spec fn orient(w: Seq<i64>, rev: bool) -> Seq<i64> {
    if rev {
        flip(w)
    } else {
        w
    }
}

/// The oriented way of a path step `(way index, reversed)`.
pub open spec fn way_of(ways: Seq<Seq<i64>>, s: (int, bool)) -> Seq<i64> {
    orient(ways[s.0], s.1)
}

/// The node list of a path of oriented ways: consecutive ways share their
/// join node, which appears once.
pub open spec fn stitch(ways: Seq<Seq<i64>>, path: Seq<(int, bool)>) -> Seq<i64>
    decreases path.len(),
{
    if path.len() == 0 {
        seq![]
    } else if path.len() == 1 {
        way_of(ways, path[0])
    } else {
        stitch(ways, path.drop_last()) + way_of(ways, path.last()).drop_first()
    }
}

/// Consecutive oriented ways of `path` meet: each ends where the next
/// starts.
pub open spec fn linked(ways: Seq<Seq<i64>>, path: Seq<(int, bool)>) -> bool {
    forall|k: int|
        1 <= k < path.len() ==> way_of(ways, path[k - 1]).last() == way_of(ways, #[trigger] path[k]).first()
}

/// A way that can take part in a ring: at least two nodes.
pub open spec fn eligible(ways: Seq<Seq<i64>>, i: int) -> bool {
    0 <= i < ways.len() && ways[i].len() >= 2
}

/// A closed ring: at least four node ids, first equal to last.
pub open spec fn is_ring(nodes: Seq<i64>) -> bool {
    nodes.len() >= 4 && nodes[0] == nodes.last()
}

pub open spec fn in_path(path: Seq<(int, bool)>, i: int) -> bool {
    exists|k: int| 0 <= k < path.len() && (#[trigger] path[k]).0 == i
}

pub open spec fn in_plan(plan: Seq<Seq<(int, bool)>>, i: int) -> bool {
    exists|c: int| 0 <= c < plan.len() && #[trigger] in_path(plan[c], i)
}

pub open spec fn path_distinct(path: Seq<(int, bool)>) -> bool {
    forall|k1: int, k2: int|
        0 <= k1 < path.len() && 0 <= k2 < path.len() && k1 != k2 ==> (#[trigger] path[k1]).0
            != (#[trigger] path[k2]).0
}

/// A decomposition of the eligible ways into chains: every chain is a
/// non-empty linked path of eligible ways, and every eligible way occurs in
/// exactly one chain, exactly once.
pub open spec fn plan_valid(ways: Seq<Seq<i64>>, plan: Seq<Seq<(int, bool)>>) -> bool {
    &&& forall|c: int|
        0 <= c < plan.len() ==> {
            &&& (#[trigger] plan[c]).len() > 0
            &&& linked(ways, plan[c])
            &&& path_distinct(plan[c])
            &&& forall|k: int| 0 <= k < plan[c].len() ==> eligible(ways, (#[trigger] plan[c][k]).0)
        }
    &&& forall|c1: int, c2: int, i: int|
        0 <= c1 < plan.len() && 0 <= c2 < plan.len() && c1 != c2 && #[trigger] in_path(plan[c1], i)
            ==> !#[trigger] in_path(plan[c2], i)
    &&& forall|i: int| eligible(ways, i) ==> #[trigger] in_plan(plan, i)
}

/// The node lists of the chains of `plan` that close, in plan order.
pub open spec fn rings_of(ways: Seq<Seq<i64>>, plan: Seq<Seq<(int, bool)>>) -> Seq<Seq<i64>>
    decreases plan.len(),
{
    if plan.len() == 0 {
        seq![]
    } else {
        let prev = rings_of(ways, plan.drop_last());
        let nodes = stitch(ways, plan.last());
        if is_ring(nodes) {
            prev.push(nodes)
        } else {
            prev
        }
    }
}

/// The outcome `(rings, dropped)` of stitching `ways`: for some
/// decomposition of the eligible ways into linked chains, `rings` are the
/// chains that close and `dropped` counts those that do not.
pub open spec fn stitch_outcome(ways: Seq<Seq<i64>>, rings: Seq<Seq<i64>>, dropped: nat) -> bool {
    exists|plan: Seq<Seq<(int, bool)>>|
        #![trigger rings_of(ways, plan)]
        plan_valid(ways, plan) && rings == rings_of(ways, plan) && dropped + rings.len()
            == plan.len()
}

proof fn lemma_flip_ends(w: Seq<i64>)
    requires
        w.len() >= 1,
    ensures
        flip(w).len() == w.len(),
        flip(w).first() == w.last(),
        flip(w).last() == w.first(),
{
}

proof fn lemma_stitch_ends(ways: Seq<Seq<i64>>, path: Seq<(int, bool)>)
    requires
        path.len() > 0,
        linked(ways, path),
        forall|k: int| 0 <= k < path.len() ==> eligible(ways, (#[trigger] path[k]).0),
    ensures
        stitch(ways, path).len() >= 2,
        stitch(ways, path).first() == way_of(ways, path[0]).first(),
        stitch(ways, path).last() == way_of(ways, path.last()).last(),
    decreases path.len(),
{
    assert(eligible(ways, path[0].0));
    let w0 = ways[path[0].0];
    if path[0].1 {
        lemma_flip_ends(w0);
    }
    if path.len() > 1 {
        let pre = path.drop_last();
        assert(linked(ways, pre)) by {
            assert forall|k: int| 1 <= k < pre.len() implies way_of(ways, pre[k - 1]).last()
                == way_of(ways, #[trigger] pre[k]).first() by {
                assert(pre[k] == path[k] && pre[k - 1] == path[k - 1]);
            }
        }
        assert forall|k: int| 0 <= k < pre.len() implies eligible(ways, (#[trigger] pre[k]).0) by {
            assert(pre[k] == path[k]);
        }
        lemma_stitch_ends(ways, pre);
        let wl = ways[path.last().0];
        assert(eligible(ways, path[path.len() - 1].0));
        if path.last().1 {
            lemma_flip_ends(wl);
        }
        assert(pre[0] == path[0]);
    }
}

/// Prepending a way that ends where a linked path starts.
proof fn lemma_stitch_prepend(ways: Seq<Seq<i64>>, x: (int, bool), path: Seq<(int, bool)>)
    requires
        path.len() > 0,
        linked(ways, path),
        forall|k: int| 0 <= k < path.len() ==> eligible(ways, (#[trigger] path[k]).0),
        way_of(ways, x).len() >= 2,
        way_of(ways, x).last() == way_of(ways, path[0]).first(),
    ensures
        stitch(ways, seq![x] + path) == way_of(ways, x).drop_last() + stitch(ways, path),
    decreases path.len(),
{
    let q = seq![x] + path;
    lemma_stitch_ends(ways, path);
    if path.len() == 1 {
        assert(q.drop_last() == seq![x]);
        assert(q.last() == path[0]);
        let wx = way_of(ways, x);
        let wp = way_of(ways, path[0]);
        assert(wx == wx.drop_last() + seq![wp[0]]);
        assert(wp == seq![wp[0]] + wp.drop_first());
        assert(stitch(ways, path) == wp);
        assert(stitch(ways, seq![x]) == wx);
        assert(stitch(ways, q) == stitch(ways, q.drop_last()) + way_of(ways, q.last()).drop_first());
        assert(wx.drop_last() + seq![wp[0]] + wp.drop_first() == wx.drop_last() + (seq![wp[0]]
            + wp.drop_first()));
    } else {
        let pre = path.drop_last();
        assert(linked(ways, pre)) by {
            assert forall|k: int| 1 <= k < pre.len() implies way_of(ways, pre[k - 1]).last()
                == way_of(ways, #[trigger] pre[k]).first() by {
                assert(pre[k] == path[k] && pre[k - 1] == path[k - 1]);
            }
        }
        assert forall|k: int| 0 <= k < pre.len() implies eligible(ways, (#[trigger] pre[k]).0) by {
            assert(pre[k] == path[k]);
        }
        assert(pre[0] == path[0]);
        lemma_stitch_prepend(ways, x, pre);
        assert(q.drop_last() == seq![x] + pre);
        assert(q.last() == path.last());
        let wx = way_of(ways, x);
        let wl = way_of(ways, path.last());
        assert(stitch(ways, q) == stitch(ways, q.drop_last()) + wl.drop_first());
        assert(stitch(ways, path) == stitch(ways, pre) + wl.drop_first());
        assert(wx.drop_last() + stitch(ways, pre) + wl.drop_first() == wx.drop_last() + (stitch(
            ways,
            pre,
        ) + wl.drop_first()));
    }
}

/// A candidate way that can extend a chain at one of its ends.
pub struct Candidate {
    /// Index into the remaining ways.
    pub index: usize,
    /// Whether the way is reversed before splicing.
    pub reverse: bool,
    /// Whether it attaches before the chain's start (else after its end).
    pub prepend: bool,
    /// The way's node id at its far end once oriented: where the chain would
    /// grow to.
    pub far_endpoint: i64,
}

spec fn cand_ok(rem: Seq<Vec<i64>>, chain: Seq<i64>, c: Candidate) -> bool {
    &&& c.index < rem.len()
    &&& rem[c.index as int]@.len() >= 2
    &&& if c.prepend {
        orient(rem[c.index as int]@, c.reverse).last() == chain[0]
    } else {
        orient(rem[c.index as int]@, c.reverse).first() == chain.last()
    }
}

/// The candidates that can extend a chain running from `start` to `end`,
/// among the first `k` remaining ways: for each way, at most one that
/// attaches after the chain's end, then at most one that attaches before
/// its start.
pub open spec fn cands_of(rem: Seq<Seq<i64>>, start: i64, end: i64, k: nat) -> Seq<Candidate>
    decreases k,
{
    if k == 0 {
        seq![]
    } else {
        let prev = cands_of(rem, start, end, (k - 1) as nat);
        let i = (k - 1) as usize;
        let w = rem[k - 1];
        let cs = w[0];
        let ce = w.last();
        let after = if cs == end {
            seq![Candidate { index: i, reverse: false, prepend: false, far_endpoint: ce }]
        } else if ce == end && cs != ce {
            seq![Candidate { index: i, reverse: true, prepend: false, far_endpoint: cs }]
        } else {
            Seq::empty()
        };
        let before = if ce == start {
            seq![Candidate { index: i, reverse: false, prepend: true, far_endpoint: cs }]
        } else if cs == start && cs != ce {
            seq![Candidate { index: i, reverse: true, prepend: true, far_endpoint: ce }]
        } else {
            Seq::empty()
        };
        prev + after + before
    }
}

/// Number of the first `k` remaining ways, other than `skip`, with an
/// endpoint at `node`.
pub open spec fn degree_spec(rem: Seq<Seq<i64>>, node: i64, skip: int, k: nat) -> nat
    decreases k,
{
    if k == 0 {
        0
    } else {
        let w = rem[k - 1];
        degree_spec(rem, node, skip, (k - 1) as nat) + if k - 1 != skip && (w[0] == node || w.last()
            == node) {
            1nat
        } else {
            0nat
        }
    }
}

/// Position of the first of the first `k` candidates that closes the chain.
pub open spec fn first_closing(cands: Seq<Candidate>, start: i64, end: i64, k: nat) -> Option<int>
    decreases k,
{
    if k == 0 {
        None
    } else {
        match first_closing(cands, start, end, (k - 1) as nat) {
            Some(p) => Some(p),
            None => {
                let c = cands[k - 1];
                if c.far_endpoint == start || c.far_endpoint == end {
                    Some(k - 1)
                } else {
                    None
                }
            },
        }
    }
}

/// Degree of a candidate's far endpoint.
pub open spec fn cand_degree(rem: Seq<Seq<i64>>, c: Candidate) -> nat {
    degree_spec(rem, c.far_endpoint, c.index as int, rem.len())
}

/// The least far-endpoint degree among the first `k` candidates
/// (`usize::MAX` when there are none).
pub open spec fn min_degree(rem: Seq<Seq<i64>>, cands: Seq<Candidate>, k: nat) -> nat
    decreases k,
{
    if k == 0 {
        usize::MAX as nat
    } else {
        let d = min_degree(rem, cands, (k - 1) as nat);
        let dk = cand_degree(rem, cands[k - 1]);
        if dk < d {
            dk
        } else {
            d
        }
    }
}

/// `a` sorts before `b` by far endpoint, then by way position.
pub open spec fn far_before(a: Candidate, b: Candidate) -> bool {
    a.far_endpoint < b.far_endpoint || (a.far_endpoint == b.far_endpoint && a.index < b.index)
}

/// Among the first `k` candidates whose far endpoint has degree `d`, the
/// position of the first one with the lowest `(far endpoint, index)`.
pub open spec fn lowest_far_at(rem: Seq<Seq<i64>>, cands: Seq<Candidate>, d: nat, k: nat) -> Option<int>
    decreases k,
{
    if k == 0 {
        None
    } else {
        let m = lowest_far_at(rem, cands, d, (k - 1) as nat);
        if cand_degree(rem, cands[k - 1]) != d {
            m
        } else {
            match m {
                None => Some(k - 1),
                Some(j) => if far_before(cands[k - 1], cands[j]) {
                    Some(k - 1)
                } else {
                    Some(j)
                },
            }
        }
    }
}

/// The candidate chosen at a junction: the only one; else the first that
/// closes the chain; else, among those whose far endpoint has the fewest
/// other remaining ways touching it, the one with the lowest far endpoint
/// (then the lowest way position).
pub open spec fn choice(rem: Seq<Seq<i64>>, cands: Seq<Candidate>, start: i64, end: i64) -> int {
    if cands.len() == 1 {
        0
    } else {
        match first_closing(cands, start, end, cands.len()) {
            Some(p) => p,
            None => match lowest_far_at(rem, cands, min_degree(rem, cands, cands.len()), cands.len()) {
                Some(j) => j,
                None => 0,
            },
        }
    }
}

/// The remaining ways and the chain after splicing candidate `c` in.
pub open spec fn splice(rem: Seq<Seq<i64>>, chain: Seq<i64>, c: Candidate) -> (Seq<Seq<i64>>, Seq<i64>) {
    let w = orient(rem[c.index as int], c.reverse);
    let rest = rem.remove(c.index as int);
    if c.prepend {
        (rest, w.drop_last() + chain)
    } else {
        (rest, chain + w.drop_first())
    }
}

/// Grows `chain` from the remaining ways until it closes or nothing
/// attaches; gives the ways left over and the final chain.
pub open spec fn grow(rem: Seq<Seq<i64>>, chain: Seq<i64>) -> (Seq<Seq<i64>>, Seq<i64>)
    decreases rem.len(),
{
    if chain.len() == 0 || chain[0] == chain.last() {
        (rem, chain)
    } else {
        let cands = cands_of(rem, chain[0], chain.last(), rem.len());
        if cands.len() == 0 {
            (rem, chain)
        } else {
            let c = cands[choice(rem, cands, chain[0], chain.last())];
            if c.index < rem.len() {
                let (rest, longer) = splice(rem, chain, c);
                grow(rest, longer)
            } else {
                (rem, chain)
            }
        }
    }
}

/// The rings and the number of dropped chains when chains are grown, each
/// from the first remaining way, until no way remains.
pub open spec fn stitch_all(rem: Seq<Seq<i64>>) -> (Seq<Seq<i64>>, nat)
    decreases rem.len(),
{
    if rem.len() == 0 {
        (seq![], 0)
    } else {
        let (rest, chain) = grow(rem.drop_first(), rem[0]);
        if rest.len() < rem.len() {
            let (rings, dropped) = stitch_all(rest);
            if is_ring(chain) {
                (seq![chain] + rings, dropped)
            } else {
                (rings, dropped + 1)
            }
        } else {
            (seq![], 0)
        }
    }
}

/// The ways of at least two nodes among the first `n`, in order.
pub open spec fn long_ways(ways: Seq<Seq<i64>>, n: nat) -> Seq<Seq<i64>>
    decreases n,
{
    if n == 0 {
        seq![]
    } else {
        let prev = long_ways(ways, (n - 1) as nat);
        if ways[n - 1].len() >= 2 {
            prev.push(ways[n - 1])
        } else {
            prev
        }
    }
}

/// The exact outcome of [`stitch_rings`] on `ways`.
pub open spec fn stitch_result(ways: Seq<Seq<i64>>) -> (Seq<Seq<i64>>, nat) {
    let sorted = canonical_ways(ways);
    stitch_all(long_ways(sorted, sorted.len()))
}

/// The ways in the order they are taken up: sorted by [`way_le`], so the
/// order in which they arrive does not matter.
pub open spec fn canonical_ways(ways: Seq<Seq<i64>>) -> Seq<Seq<i64>> {
    ways.sort_by(way_order())
}

proof fn lemma_grow_len(rem: Seq<Seq<i64>>, chain: Seq<i64>)
    ensures
        grow(rem, chain).0.len() <= rem.len(),
    decreases rem.len(),
{
    if !(chain.len() == 0 || chain[0] == chain.last()) {
        let cands = cands_of(rem, chain[0], chain.last(), rem.len());
        if cands.len() > 0 {
            let c = cands[choice(rem, cands, chain[0], chain.last())];
            if c.index < rem.len() {
                let (rest, longer) = splice(rem, chain, c);
                lemma_grow_len(rest, longer);
            }
        }
    }
}

fn reversed(w: &Vec<i64>) -> (r: Vec<i64>)
    ensures
        r@ == flip(w@),
{
    let mut r: Vec<i64> = Vec::new();
    let n = w.len();
    let mut i: usize = 0;
    while i < n
        invariant
            i <= n,
            n == w@.len(),
            r@ == flip(w@).take(i as int),
        decreases n - i,
    {
        r.push(w[n - 1 - i]);
        assert(flip(w@).take(i as int + 1) == flip(w@).take(i as int).push(w@[n - 1 - i]));
        i = i + 1;
    }
    assert(flip(w@).take(n as int) == flip(w@));
    r
}

/// Number of remaining ways other than `skip` with an endpoint at `node`.
fn degree_of(remaining: &Vec<Vec<i64>>, node: i64, skip: usize) -> (d: usize)
    requires
        forall|k: int| 0 <= k < remaining@.len() ==> (#[trigger] remaining@[k])@.len() >= 2,
    ensures
        d <= remaining@.len(),
        d == degree_spec(lists_view(remaining@), node, skip as int, remaining@.len()),
{
    let ghost rv = lists_view(remaining@);
    let mut d: usize = 0;
    let mut i: usize = 0;
    while i < remaining.len()
        invariant
            i <= remaining@.len(),
            d <= i,
            rv == lists_view(remaining@),
            d == degree_spec(rv, node, skip as int, i as nat),
            forall|k: int| 0 <= k < remaining@.len() ==> (#[trigger] remaining@[k])@.len() >= 2,
        decreases remaining@.len() - i,
    {
        let w = &remaining[i];
        assert(rv[i as int] == w@);
        if i != skip && (w[0] == node || w[w.len() - 1] == node) {
            d = d + 1;
        }
        i = i + 1;
    }
    d
}

/// Picks the candidate to extend the chain with (see [`stitch_rings`]).
fn choose_candidate(
    remaining: &Vec<Vec<i64>>,
    candidates: &Vec<Candidate>,
    chain_start: i64,
    chain_end: i64,
) -> (pos: usize)
    requires
        candidates@.len() > 0,
        forall|k: int| 0 <= k < remaining@.len() ==> (#[trigger] remaining@[k])@.len() >= 2,
    ensures
        pos < candidates@.len(),
        pos == choice(lists_view(remaining@), candidates@, chain_start, chain_end),
{
    let ghost rv = lists_view(remaining@);
    let ghost cs = candidates@;
    if candidates.len() == 1 {
        return 0;
    }
    // 1. A candidate that closes the ring immediately.
    let mut i: usize = 0;
    while i < candidates.len()
        invariant
            i <= candidates@.len(),
            cs == candidates@,
            first_closing(cs, chain_start, chain_end, i as nat) is None,
        decreases candidates@.len() - i,
    {
        let c = &candidates[i];
        if c.far_endpoint == chain_start || c.far_endpoint == chain_end {
            assert(first_closing(cs, chain_start, chain_end, (i + 1) as nat) == Some(i as int));
            proof {
                lemma_first_closing_stable(cs, chain_start, chain_end, (i + 1) as nat, cs.len());
            }
            return i;
        }
        i = i + 1;
    }
    // 2. Degree heuristic: fewest other remaining ways at the far endpoint.
    let mut degrees: Vec<usize> = Vec::new();
    let mut best_degree: usize = usize::MAX;
    let mut j: usize = 0;
    while j < candidates.len()
        invariant
            j <= candidates@.len(),
            cs == candidates@,
            rv == lists_view(remaining@),
            degrees@.len() == j,
            forall|q: int| 0 <= q < j ==> degrees@[q] == cand_degree(rv, #[trigger] cs[q]),
            best_degree as nat == min_degree(rv, cs, j as nat),
            forall|k: int| 0 <= k < remaining@.len() ==> (#[trigger] remaining@[k])@.len() >= 2,
        decreases candidates@.len() - j,
    {
        let c = &candidates[j];
        let d = degree_of(remaining, c.far_endpoint, c.index);
        assert(d == cand_degree(rv, cs[j as int]));
        degrees.push(d);
        if d < best_degree {
            best_degree = d;
        }
        j = j + 1;
    }
    // 3. Among those of least degree: lowest (far endpoint, index).
    let mut m: Option<usize> = None;
    let mut k: usize = 0;
    while k < candidates.len()
        invariant
            k <= candidates@.len(),
            cs == candidates@,
            degrees@.len() == cs.len(),
            forall|q: int| 0 <= q < cs.len() ==> degrees@[q] == cand_degree(rv, #[trigger] cs[q]),
            match m {
                Some(x) => lowest_far_at(rv, cs, best_degree as nat, k as nat) == Some(x as int)
                    && x < k,
                None => lowest_far_at(rv, cs, best_degree as nat, k as nat) is None,
            },
        decreases candidates@.len() - k,
    {
        if degrees[k] == best_degree {
            match m {
                None => {
                    m = Some(k);
                },
                Some(x) => {
                    let a = &candidates[k];
                    let b = &candidates[x];
                    if a.far_endpoint < b.far_endpoint || (a.far_endpoint == b.far_endpoint && a.index
                        < b.index) {
                        m = Some(k);
                    }
                },
            }
        }
        k = k + 1;
    }
    match m {
        Some(x) => x,
        None => 0,
    }
}

proof fn lemma_first_closing_stable(cands: Seq<Candidate>, start: i64, end: i64, k: nat, n: nat)
    requires
        k <= n,
        first_closing(cands, start, end, k) is Some,
    ensures
        first_closing(cands, start, end, n) == first_closing(cands, start, end, k),
    decreases n - k,
{
    if k < n {
        lemma_first_closing_stable(cands, start, end, k, (n - 1) as nat);
    }
}

} // verus!

verus! {

/// Views of the input way lists.
pub open spec fn ways_view(way_lists: Seq<&Vec<i64>>) -> Seq<Seq<i64>> {
    way_lists.map_values(|w: &Vec<i64>| w@)
}

/// Views of a list of node lists.
pub open spec fn lists_view(v: Seq<Vec<i64>>) -> Seq<Seq<i64>> {
    v.map_values(|w: Vec<i64>| w@)
}

spec fn rem_ok(ways: Seq<Seq<i64>>, remaining: Seq<Vec<i64>>, rem_idx: Seq<int>) -> bool {
    &&& remaining.len() == rem_idx.len()
    &&& forall|k: int| 0 <= k < rem_idx.len() ==> (#[trigger] remaining[k])@ == ways[rem_idx[k]]
    &&& forall|k: int| 0 <= k < rem_idx.len() ==> eligible(ways, #[trigger] rem_idx[k])
    &&& rem_idx.no_duplicates()
}

spec fn chains_ok(ways: Seq<Seq<i64>>, plan: Seq<Seq<(int, bool)>>) -> bool {
    &&& forall|c: int|
        0 <= c < plan.len() ==> {
            &&& (#[trigger] plan[c]).len() > 0
            &&& linked(ways, plan[c])
            &&& path_distinct(plan[c])
            &&& forall|k: int| 0 <= k < plan[c].len() ==> eligible(ways, (#[trigger] plan[c][k]).0)
        }
    &&& forall|c1: int, c2: int, i: int|
        0 <= c1 < plan.len() && 0 <= c2 < plan.len() && c1 != c2 && #[trigger] in_path(plan[c1], i)
            ==> !#[trigger] in_path(plan[c2], i)
}

spec fn path_ok(ways: Seq<Seq<i64>>, path: Seq<(int, bool)>) -> bool {
    &&& path.len() > 0
    &&& linked(ways, path)
    &&& path_distinct(path)
    &&& forall|k: int| 0 <= k < path.len() ==> eligible(ways, (#[trigger] path[k]).0)
}

fn copy_list(w: &Vec<i64>) -> (r: Vec<i64>)
    ensures
        r@ == w@,
{
    let mut r: Vec<i64> = Vec::new();
    let mut i: usize = 0;
    while i < w.len()
        invariant
            i <= w@.len(),
            r@ == w@.take(i as int),
        decreases w@.len() - i,
    {
        r.push(w[i]);
        assert(w@.take(i as int + 1) == w@.take(i as int).push(w@[i as int]));
        i = i + 1;
    }
    assert(w@.take(w@.len() as int) == w@);
    r
}

/// Deterministic adjacency-based ring stitcher.
///
/// The ways are first put in a canonical order (sorted by their node ids,
/// see [`way_le`]), so the result does not depend on the order in which
/// they arrive (see [`lemma_stitch_order_independent`]).  Ways with fewer
/// than two nodes are ignored.  A chain starts from the first remaining way
/// and grows at either end by a remaining way whose endpoint matches (in
/// either orientation), until it closes or nothing matches.  At an
/// ambiguous junction (several ways could extend the chain) a way that
/// closes the chain immediately is preferred; otherwise the way whose far
/// endpoint has the fewest other remaining ways touching it, and among the
/// ways sharing that least degree the one with the lowest far-endpoint node
/// id, then the lowest position (see [`lemma_choice_rule`]).  A chain that
/// ends with at least four node ids and its first id equal to its last is a
/// ring; any other chain is dropped and counted.
/// Returns `(closed_rings, dropped_count)`.
#[verifier::rlimit(40)]
pub fn stitch_rings(input: &[&Vec<i64>]) -> (r: (Vec<Vec<i64>>, u64))
    ensures
        stitch_outcome(canonical_ways(ways_view(input@)), lists_view(r.0@), r.1 as nat),
        (lists_view(r.0@), r.1 as nat) == stitch_result(ways_view(input@)),
{
    let sorted = sort_ways(input);
    let way_lists: &[&Vec<i64>] = sorted.as_slice();
    let ghost ways = ways_view(way_lists@);
    assert(ways == canonical_ways(ways_view(input@)));
    let total: usize = way_lists.len();
    let mut remaining: Vec<Vec<i64>> = Vec::new();
    let ghost mut rem_idx: Seq<int> = seq![];
    let mut i: usize = 0;
    while i < way_lists.len()
        invariant
            i <= way_lists@.len(),
            ways == ways_view(way_lists@),
            rem_ok(ways, remaining@, rem_idx),
            forall|k: int| 0 <= k < rem_idx.len() ==> #[trigger] rem_idx[k] < i,
            forall|j: int| 0 <= j < i && eligible(ways, j) ==> rem_idx.contains(j),
            remaining@.len() <= i,
            lists_view(remaining@) == long_ways(ways, i as nat),
        decreases way_lists@.len() - i,
    {
        let w = way_lists[i];
        assert(ways[i as int] == w@);
        let ghost before_view = lists_view(remaining@);
        if w.len() >= 2 {
            let copy = copy_list(w);
            remaining.push(copy);
            assert(lists_view(remaining@) == before_view.push(w@));
            proof {
                let old_idx = rem_idx;
                rem_idx = rem_idx.push(i as int);
                assert(rem_idx.no_duplicates()) by {
                    assert forall|a: int, b: int|
                        0 <= a < rem_idx.len() && 0 <= b < rem_idx.len() && a != b implies rem_idx[a]
                        != rem_idx[b] by {
                        if a < old_idx.len() && b < old_idx.len() {
                            assert(old_idx[a] != old_idx[b]);
                        } else if a < old_idx.len() {
                            assert(old_idx[a] < i);
                        } else {
                            assert(old_idx[b] < i);
                        }
                    }
                }
                assert forall|j: int| 0 <= j < i + 1 && eligible(ways, j) implies rem_idx.contains(
                    j,
                ) by {
                    if j < i {
                        let k = choose|k: int| 0 <= k < old_idx.len() && old_idx[k] == j;
                        assert(rem_idx[k] == j);
                    } else {
                        assert(rem_idx[rem_idx.len() - 1] == j);
                    }
                }
            }
        }
        i = i + 1;
    }
    let mut rings: Vec<Vec<i64>> = Vec::new();
    let mut dropped: u64 = 0;
    let ghost mut plan: Seq<Seq<(int, bool)>> = seq![];
    let ghost all = long_ways(ways, ways.len());
    proof {
        assert(lists_view(rings@) + stitch_all(all).0 == stitch_all(all).0);
    }
    while remaining.len() > 0
        invariant
            ways == ways_view(way_lists@),
            rem_ok(ways, remaining@, rem_idx),
            chains_ok(ways, plan),
            forall|j: int| #[trigger] rem_idx.contains(j) ==> !in_plan(plan, j),
            forall|j: int| eligible(ways, j) ==> #[trigger] in_plan(plan, j) || rem_idx.contains(j),
            lists_view(rings@) == rings_of(ways, plan),
            dropped + rings@.len() == plan.len(),
            plan.len() + remaining@.len() <= way_lists@.len(),
            way_lists@.len() == total,
            all == long_ways(ways, ways.len()),
            stitch_all(all) == (lists_view(rings@) + stitch_all(lists_view(remaining@)).0, (dropped
                + stitch_all(lists_view(remaining@)).1) as nat),
        decreases remaining@.len(),
    {
        let ghost rv0 = lists_view(remaining@);
        let mut chain = remaining.remove(0);
        let ghost g0 = grow(rv0.drop_first(), rv0[0]);
        proof {
            assert(lists_view(remaining@) == rv0.drop_first());
            assert(chain@ == rv0[0]);
        }
        let ghost chain_rem_len = remaining@.len();
        let ghost mut path: Seq<(int, bool)> = seq![(rem_idx[0], false)];
        proof {
            let first = rem_idx[0];
            let old_rem = rem_idx;
            rem_idx = rem_idx.remove(0);
            assert(path_ok(ways, path)) by {
                assert(path[0].0 == first);
                assert(eligible(ways, old_rem[0]));
            }
            assert(chain@ == stitch(ways, path));
            assert forall|j: int| #[trigger] rem_idx.contains(j) implies old_rem.contains(j) && j
                != first by {
                let m = choose|m: int| 0 <= m < rem_idx.len() && rem_idx[m] == j;
                assert(old_rem[m + 1] == j);
            }
            assert forall|j: int| #[trigger] in_path(path, j) implies j == first by {
                let a = choose|a: int| 0 <= a < path.len() && path[a].0 == j;
            }
            assert(in_path(path, first)) by {
                assert(path[0].0 == first);
            }
            assert(old_rem.contains(first)) by {
                assert(old_rem[0] == first);
            }
            assert forall|j: int| eligible(ways, j) && #[trigger] old_rem.contains(j) && j != first
                implies rem_idx.contains(j) by {
                let m = choose|m: int| 0 <= m < old_rem.len() && old_rem[m] == j;
                assert(rem_idx[m - 1] == j);
            }
            assert(rem_ok(ways, remaining@, rem_idx)) by {
                assert forall|m: int| 0 <= m < rem_idx.len() implies (#[trigger] remaining@[m])@
                    == ways[rem_idx[m]] by {
                    assert(rem_idx[m] == old_rem[m + 1]);
                }
                assert forall|m: int| 0 <= m < rem_idx.len() implies eligible(ways, #[trigger] rem_idx[m]) by {
                    assert(rem_idx[m] == old_rem[m + 1]);
                }
            }
        }
        loop
            invariant
                ways == ways_view(way_lists@),
                rem_ok(ways, remaining@, rem_idx),
                chains_ok(ways, plan),
                path_ok(ways, path),
                chain@ == stitch(ways, path),
                forall|j: int| #[trigger] rem_idx.contains(j) ==> !in_plan(plan, j),
                forall|j: int| #[trigger] rem_idx.contains(j) ==> !in_path(path, j),
                forall|j: int| #[trigger] in_path(path, j) ==> !in_plan(plan, j),
                forall|j: int|
                    eligible(ways, j) ==> #[trigger] in_plan(plan, j) || in_path(path, j)
                        || rem_idx.contains(j),
                lists_view(rings@) == rings_of(ways, plan),
                dropped + rings@.len() == plan.len(),
                plan.len() + 1 + remaining@.len() <= way_lists@.len(),
                way_lists@.len() == total,
                remaining@.len() <= chain_rem_len,
                grow(lists_view(remaining@), chain@) == g0,
            ensures
                grow(lists_view(remaining@), chain@) == (lists_view(remaining@), chain@),
            decreases remaining@.len(),
        {
            let ghost rv = lists_view(remaining@);
            proof {
                lemma_stitch_ends(ways, path);
            }
            let n = chain.len();
            if chain[0] == chain[n - 1] {
                assert(grow(rv, chain@) == (rv, chain@));
                break;
            }
            let chain_start = chain[0];
            let chain_end = chain[n - 1];
            let mut candidates: Vec<Candidate> = Vec::new();
            let mut k: usize = 0;
            while k < remaining.len()
                invariant
                    k <= remaining@.len(),
                    rem_ok(ways, remaining@, rem_idx),
                    chain@.len() >= 2,
                    chain_start == chain@[0],
                    chain_end == chain@.last(),
                    forall|m: int| 0 <= m < candidates@.len() ==> cand_ok(remaining@, chain@, #[trigger] candidates@[m]),
                    rv == lists_view(remaining@),
                    candidates@ == cands_of(rv, chain_start, chain_end, k as nat),
                decreases remaining@.len() - k,
            {
                let w = &remaining[k];
                let ghost prev = candidates@;
                assert(rv[k as int] == w@);
                proof {
                    assert(eligible(ways, rem_idx[k as int]));
                    lemma_flip_ends(w@);
                }
                let c_start = w[0];
                let c_end = w[w.len() - 1];
                if c_start == chain_end {
                    candidates.push(Candidate { index: k, reverse: false, prepend: false, far_endpoint: c_end });
                } else if c_end == chain_end && c_start != c_end {
                    candidates.push(Candidate { index: k, reverse: true, prepend: false, far_endpoint: c_start });
                }
                let ghost mid = candidates@;
                if c_end == chain_start {
                    candidates.push(Candidate { index: k, reverse: false, prepend: true, far_endpoint: c_start });
                } else if c_start == chain_start && c_start != c_end {
                    candidates.push(Candidate { index: k, reverse: true, prepend: true, far_endpoint: c_end });
                }
                proof {
                    let after = mid.subrange(prev.len() as int, mid.len() as int);
                    let before = candidates@.subrange(mid.len() as int, candidates@.len() as int);
                    assert(mid == prev + after);
                    assert(candidates@ == mid + before);
                    assert(candidates@ == prev + after + before);
                }
                k = k + 1;
            }
            if candidates.len() == 0 {
                assert(grow(rv, chain@) == (rv, chain@));
                break;
            }
            proof {
                assert forall|m: int| 0 <= m < remaining@.len() implies (#[trigger] remaining@[m])@.len() >= 2 by {
                    assert(eligible(ways, rem_idx[m]));
                }
            }
            let pos = choose_candidate(&remaining, &candidates, chain_start, chain_end);
            let index = candidates[pos].index;
            let reverse = candidates[pos].reverse;
            let prepend = candidates[pos].prepend;
            proof {
                assert(cand_ok(remaining@, chain@, candidates@[pos as int]));
            }
            let ghost cpick = candidates@[pos as int];
            proof {
                assert(cpick.index == index && cpick.reverse == reverse && cpick.prepend == prepend);
                assert(grow(rv, chain@) == grow(splice(rv, chain@, cpick).0, splice(rv, chain@, cpick).1));
            }
            let ghost idx = rem_idx[index as int];
            let ghost step = (idx, reverse);
            let ghost old_rem = rem_idx;
            let w = remaining.remove(index);
            assert(lists_view(remaining@) == rv.remove(index as int));
            assert(w@ == rv[index as int]);
            proof {
                rem_idx = rem_idx.remove(index as int);
                assert(way_of(ways, step) == orient(w@, reverse));
                assert(old_rem.contains(idx)) by {
                    assert(old_rem[index as int] == idx);
                }
                assert(!in_path(path, idx));
                assert(!in_plan(plan, idx));
                assert forall|j: int| #[trigger] rem_idx.contains(j) implies old_rem.contains(j) && j != idx by {
                    let m = choose|m: int| 0 <= m < rem_idx.len() && rem_idx[m] == j;
                    if m < index {
                        assert(old_rem[m] == j);
                        assert(m != index as int);
                    } else {
                        assert(old_rem[m + 1] == j);
                    }
                }
                assert(rem_ok(ways, remaining@, rem_idx)) by {
                    assert forall|a: int, b: int|
                        0 <= a < rem_idx.len() && 0 <= b < rem_idx.len() && a != b implies rem_idx[a]
                        != rem_idx[b] by {
                        let a2 = if a < index { a } else { a + 1 };
                        let b2 = if b < index { b } else { b + 1 };
                        assert(rem_idx[a] == old_rem[a2] && rem_idx[b] == old_rem[b2]);
                    }
                    assert forall|m: int| 0 <= m < rem_idx.len() implies (#[trigger] remaining@[m])@
                        == ways[rem_idx[m]] by {
                        let m2 = if m < index { m } else { m + 1 };
                        assert(rem_idx[m] == old_rem[m2]);
                    }
                    assert forall|m: int| 0 <= m < rem_idx.len() implies eligible(ways, #[trigger] rem_idx[m]) by {
                        let m2 = if m < index { m } else { m + 1 };
                        assert(rem_idx[m] == old_rem[m2]);
                    }
                }
                assert forall|j: int| eligible(ways, j) && j != idx && #[trigger] old_rem.contains(j) implies rem_idx.contains(j) by {
                    let m = choose|m: int| 0 <= m < old_rem.len() && old_rem[m] == j;
                    assert(m != index as int);
                    if m < index {
                        assert(rem_idx[m] == j);
                    } else {
                        assert(rem_idx[m - 1] == j);
                    }
                }
                lemma_flip_ends(w@);
            }
            let oriented = if reverse { reversed(&w) } else { w };
            assert(oriented@ == orient(rv[index as int], reverse));
            let ghost old_chain = chain@;
            let ghost old_path = path;
            if prepend {
                let mut head = oriented;
                head.pop();
                head.append(&mut chain);
                chain = head;
                proof {
                    lemma_stitch_prepend(ways, step, old_path);
                    path = seq![step] + old_path;
                }
            } else {
                let mut tail = oriented;
                tail.remove(0);
                chain.append(&mut tail);
                proof {
                    path = old_path.push(step);
                    assert(path.drop_last() == old_path);
                }
            }
            assert(chain@ == splice(rv, old_chain, cpick).1);
            assert(lists_view(remaining@) == splice(rv, old_chain, cpick).0);
            proof {
                assert(path_ok(ways, path)) by {
                    assert forall|a: int| 1 <= a < path.len() implies way_of(ways, path[a - 1]).last()
                        == way_of(ways, #[trigger] path[a]).first() by {
                        if prepend {
                            if a > 1 {
                                assert(path[a] == old_path[a - 1] && path[a - 1] == old_path[a - 2]);
                            } else {
                                assert(path[0] == step && path[1] == old_path[0]);
                            }
                        } else {
                            if a < path.len() - 1 {
                                assert(path[a] == old_path[a] && path[a - 1] == old_path[a - 1]);
                            } else {
                                assert(path[a] == step && path[a - 1] == old_path.last());
                            }
                        }
                    }
                    assert forall|a: int| 0 <= a < path.len() implies eligible(ways, (#[trigger] path[a]).0) by {
                        if prepend {
                            if a > 0 {
                                assert(path[a] == old_path[a - 1]);
                            }
                        } else {
                            if a < path.len() - 1 {
                                assert(path[a] == old_path[a]);
                            }
                        }
                    }
                    assert forall|a: int, b: int|
                        0 <= a < path.len() && 0 <= b < path.len() && a != b implies (#[trigger] path[a]).0
                        != (#[trigger] path[b]).0 by {
                        let off: int = if prepend { 1 } else { 0 };
                        let sp: int = if prepend { 0 } else { path.len() - 1 };
                        if a == sp {
                            assert(path[b] == old_path[b - off]);
                            assert(in_path(old_path, path[b].0));
                        } else if b == sp {
                            assert(path[a] == old_path[a - off]);
                            assert(in_path(old_path, path[a].0));
                        } else {
                            assert(path[a] == old_path[a - off] && path[b] == old_path[b - off]);
                        }
                    }
                }
                assert forall|j: int| #[trigger] in_path(path, j) implies in_path(old_path, j) || j == idx by {
                    let a = choose|a: int| 0 <= a < path.len() && path[a].0 == j;
                    if prepend {
                        if a > 0 {
                            assert(path[a] == old_path[a - 1]);
                        }
                    } else {
                        if a < path.len() - 1 {
                            assert(path[a] == old_path[a]);
                        }
                    }
                }
                assert forall|j: int| #[trigger] in_path(old_path, j) implies in_path(path, j) by {
                    let a = choose|a: int| 0 <= a < old_path.len() && old_path[a].0 == j;
                    if prepend {
                        assert(path[a + 1] == old_path[a]);
                    } else {
                        assert(path[a] == old_path[a]);
                    }
                }
                if prepend {
                    assert(path[0] == step);
                } else {
                    assert(path[path.len() - 1] == step);
                }
                assert(in_path(path, idx));
            }
        }
        let n = chain.len();
        let ghost old_plan = plan;
        let ghost old_rings = lists_view(rings@);
        let ghost rest = lists_view(remaining@);
        proof {
            assert(g0 == (rest, chain@));
            lemma_grow_len(rv0.drop_first(), rv0[0]);
            assert(stitch_all(rv0) == if is_ring(chain@) {
                (seq![chain@] + stitch_all(rest).0, stitch_all(rest).1)
            } else {
                (stitch_all(rest).0, (stitch_all(rest).1 + 1) as nat)
            });
        }
        let ghost cv = chain@;
        if n >= 4 && chain[0] == chain[n - 1] {
            rings.push(chain);
            proof {
                assert(lists_view(rings@) == old_rings.push(cv));
                assert(old_rings.push(cv) + stitch_all(rest).0 == old_rings + (seq![cv] + stitch_all(
                    rest,
                ).0));
            }
        } else {
            dropped = dropped + 1;
        }
        proof {
            plan = plan.push(path);
            assert(plan.drop_last() == old_plan);
            assert(plan.last() == path);
            assert(chains_ok(ways, plan)) by {
                assert forall|c1: int, c2: int, j: int|
                    0 <= c1 < plan.len() && 0 <= c2 < plan.len() && c1 != c2 && #[trigger] in_path(plan[c1], j)
                        implies !#[trigger] in_path(plan[c2], j) by {
                    if c1 == plan.len() - 1 {
                        assert(!in_plan(old_plan, j));
                        if in_path(plan[c2], j) {
                            assert(plan[c2] == old_plan[c2]);
                            assert(in_plan(old_plan, j));
                        }
                    } else if c2 == plan.len() - 1 {
                        assert(plan[c1] == old_plan[c1]);
                        assert(in_plan(old_plan, j));
                    } else {
                        assert(plan[c1] == old_plan[c1] && plan[c2] == old_plan[c2]);
                    }
                }
                assert forall|c: int| 0 <= c < plan.len() implies {
                    &&& (#[trigger] plan[c]).len() > 0
                    &&& linked(ways, plan[c])
                    &&& path_distinct(plan[c])
                    &&& forall|k: int| 0 <= k < plan[c].len() ==> eligible(ways, (#[trigger] plan[c][k]).0)
                } by {
                    if c < old_plan.len() {
                        assert(plan[c] == old_plan[c]);
                    }
                }
            }
            assert forall|j: int| #[trigger] in_plan(old_plan, j) implies in_plan(plan, j) by {
                let c = choose|c: int| 0 <= c < old_plan.len() && in_path(old_plan[c], j);
                assert(plan[c] == old_plan[c]);
            }
            assert forall|j: int| #[trigger] in_path(path, j) implies in_plan(plan, j) by {
                assert(in_path(plan[plan.len() - 1], j));
            }
            assert forall|j: int| #[trigger] rem_idx.contains(j) implies !in_plan(plan, j) by {
                if in_plan(plan, j) {
                    let c = choose|c: int| 0 <= c < plan.len() && in_path(plan[c], j);
                    if c < old_plan.len() {
                        assert(plan[c] == old_plan[c]);
                        assert(in_plan(old_plan, j));
                    }
                }
            }
            if n >= 4 && chain@[0] == chain@[n - 1] {
                assert(lists_view(rings@) == lists_view(rings@).drop_last().push(chain@));
            }
            assert forall|j: int| eligible(ways, j) implies #[trigger] in_plan(plan, j)
                || rem_idx.contains(j) by {
                if in_plan(old_plan, j) {
                } else if in_path(path, j) {
                }
            }
        }
    }
    proof {
        assert(rem_idx.len() == 0);
        assert(plan_valid(ways, plan));
        assert(rings_of(ways, plan) == lists_view(rings@));
    }
    (rings, dropped)
}

} // verus!

verus! {

proof fn lemma_rings_of_closed(ways: Seq<Seq<i64>>, plan: Seq<Seq<(int, bool)>>)
    ensures
        forall|r: int| 0 <= r < rings_of(ways, plan).len() ==> is_ring(#[trigger] rings_of(ways, plan)[r]),
        rings_of(ways, plan).len() <= plan.len(),
    decreases plan.len(),
{
    if plan.len() > 0 {
        lemma_rings_of_closed(ways, plan.drop_last());
        let prev = rings_of(ways, plan.drop_last());
        let cur = rings_of(ways, plan);
        assert forall|r: int| 0 <= r < cur.len() implies is_ring(#[trigger] cur[r]) by {
            if r < prev.len() {
                assert(cur[r] == prev[r]);
            }
        }
    }
}

/// Every ring that stitching returns is closed: it has at least four node
/// ids and its first id equals its last.
pub proof fn lemma_stitched_rings_closed(ways: Seq<Seq<i64>>, rings: Seq<Seq<i64>>, dropped: nat)
    requires
        stitch_outcome(ways, rings, dropped),
    ensures
        forall|r: int| 0 <= r < rings.len() ==> is_ring(#[trigger] rings[r]),
        forall|r: int| 0 <= r < rings.len() ==> (#[trigger] rings[r])[0] == rings[r].last(),
{
    let plan = choose|plan: Seq<Seq<(int, bool)>>|
        #![trigger rings_of(ways, plan)]
        plan_valid(ways, plan) && rings == rings_of(ways, plan) && dropped + rings.len() == plan.len();
    lemma_rings_of_closed(ways, plan);
    assert forall|r: int| 0 <= r < rings.len() implies (#[trigger] rings[r])[0] == rings[r].last() by {
        assert(is_ring(rings[r]));
    }
}

} // verus!

verus! {

/// `a` sorts no later than `b`: node ids compared in order, a proper prefix
/// first.
pub open spec fn way_le(a: Seq<i64>, b: Seq<i64>) -> bool
    decreases a.len(),
{
    if a.len() == 0 {
        true
    } else if b.len() == 0 {
        false
    } else if a[0] < b[0] {
        true
    } else if a[0] == b[0] {
        way_le(a.drop_first(), b.drop_first())
    } else {
        false
    }
}

/// The order in which ways are taken up: [`way_le`].
pub open spec fn way_order() -> spec_fn(Seq<i64>, Seq<i64>) -> bool {
    |a: Seq<i64>, b: Seq<i64>| way_le(a, b)
}

proof fn lemma_way_le_refl(a: Seq<i64>)
    ensures
        way_le(a, a),
    decreases a.len(),
{
    if a.len() > 0 {
        lemma_way_le_refl(a.drop_first());
    }
}

proof fn lemma_way_le_antisym(a: Seq<i64>, b: Seq<i64>)
    requires
        way_le(a, b),
        way_le(b, a),
    ensures
        a == b,
    decreases a.len(),
{
    if a.len() > 0 {
        lemma_way_le_antisym(a.drop_first(), b.drop_first());
        assert(a =~= seq![a[0]] + a.drop_first());
        assert(b =~= seq![b[0]] + b.drop_first());
    } else {
        assert(b.len() == 0);
        assert(a =~= b);
    }
}

proof fn lemma_way_le_trans(a: Seq<i64>, b: Seq<i64>, c: Seq<i64>)
    requires
        way_le(a, b),
        way_le(b, c),
    ensures
        way_le(a, c),
    decreases a.len(),
{
    if a.len() > 0 && b.len() > 0 && c.len() > 0 && a[0] == b[0] && b[0] == c[0] {
        lemma_way_le_trans(a.drop_first(), b.drop_first(), c.drop_first());
    }
}

proof fn lemma_way_le_total(a: Seq<i64>, b: Seq<i64>)
    ensures
        way_le(a, b) || way_le(b, a),
    decreases a.len(),
{
    if a.len() > 0 && b.len() > 0 && a[0] == b[0] {
        lemma_way_le_total(a.drop_first(), b.drop_first());
    }
}

/// [`way_le`] is a total order.
pub proof fn lemma_way_order_total()
    ensures
        vstd::relations::total_ordering(way_order()),
{
    let r = way_order();
    assert forall|x: Seq<i64>| #[trigger] r(x, x) by {
        lemma_way_le_refl(x);
    }
    assert forall|x: Seq<i64>, y: Seq<i64>| #[trigger] r(x, y) && #[trigger] r(y, x) implies x == y by {
        lemma_way_le_antisym(x, y);
    }
    assert forall|x: Seq<i64>, y: Seq<i64>, z: Seq<i64>| #[trigger] r(x, y) && #[trigger] r(y, z) implies r(x, z) by {
        lemma_way_le_trans(x, y, z);
    }
    assert forall|x: Seq<i64>, y: Seq<i64>| #[trigger] r(x, y) || #[trigger] r(y, x) by {
        lemma_way_le_total(x, y);
    }
}

/// Whether `a` sorts no later than `b` (see [`way_le`]).
fn way_le_exec(a: &Vec<i64>, b: &Vec<i64>) -> (r: bool)
    ensures
        r == way_le(a@, b@),
{
    let mut i: usize = 0;
    assert(a@.skip(0) == a@ && b@.skip(0) == b@);
    while i < a.len() && i < b.len() && a[i] == b[i]
        invariant
            i <= a@.len(),
            i <= b@.len(),
            way_le(a@, b@) == way_le(a@.skip(i as int), b@.skip(i as int)),
        decreases a@.len() - i,
    {
        proof {
            let sa = a@.skip(i as int);
            let sb = b@.skip(i as int);
            assert(sa.drop_first() == a@.skip(i as int + 1));
            assert(sb.drop_first() == b@.skip(i as int + 1));
            assert(sa[0] == a@[i as int] && sb[0] == b@[i as int]);
        }
        i = i + 1;
    }
    let ghost sa = a@.skip(i as int);
    let ghost sb = b@.skip(i as int);
    if i == a.len() {
        assert(sa.len() == 0);
        true
    } else if i == b.len() {
        assert(sb.len() == 0);
        false
    } else {
        assert(sa[0] == a@[i as int] && sb[0] == b@[i as int]);
        a[i] < b[i]
    }
}

/// The input ways in [`way_order`] (stably, equal ways being identical).
fn sort_ways<'a>(ways: &[&'a Vec<i64>]) -> (r: Vec<&'a Vec<i64>>)
    ensures
        ways_view(r@) == ways_view(ways@).sort_by(way_order()),
{
    broadcast use vstd::seq_lib::group_to_multiset_ensures;
    broadcast use vstd::multiset::group_multiset_axioms;

    proof {
        lemma_way_order_total();
    }
    let ghost input = ways_view(ways@);
    let ghost le = way_order();
    let mut out: Vec<&'a Vec<i64>> = Vec::new();
    let mut i: usize = 0;
    while i < ways.len()
        invariant
            i <= ways@.len(),
            input == ways_view(ways@),
            le == way_order(),
            vstd::relations::total_ordering(le),
            vstd::relations::sorted_by(ways_view(out@), le),
            ways_view(out@).to_multiset() == input.take(i as int).to_multiset(),
        decreases ways@.len() - i,
    {
        let w = ways[i];
        let ghost ov = ways_view(out@);
        let mut p: usize = 0;
        while p < out.len() && way_le_exec(out[p], w)
            invariant
                p <= out@.len(),
                ov == ways_view(out@),
                le == way_order(),
                forall|q: int| 0 <= q < p ==> way_le(#[trigger] ov[q], w@),
            decreases out@.len() - p,
        {
            assert(ov[p as int] == out@[p as int]@);
            p = p + 1;
        }
        proof {
            if p < out@.len() {
                assert(ov[p as int] == out@[p as int]@);
                assert(!way_le(ov[p as int], w@));
                lemma_way_le_total(ov[p as int], w@);
            }
        }
        out.insert(p, w);
        proof {
            let nv = ways_view(out@);
            assert(nv == ov.insert(p as int, w@));
            assert forall|a: int, b: int| 0 <= a < b < nv.len() implies le(#[trigger] nv[a], #[trigger] nv[b]) by {
                if b < p {
                    assert(nv[a] == ov[a] && nv[b] == ov[b]);
                } else if b == p {
                    assert(nv[a] == ov[a] && nv[b] == w@);
                } else if a > p {
                    assert(nv[a] == ov[a - 1] && nv[b] == ov[b - 1]);
                } else if a == p {
                    assert(nv[a] == w@ && nv[b] == ov[b - 1]);
                    assert(le(ov[p as int], ov[b - 1]) || p as int == b - 1);
                    if p as int != b - 1 {
                        lemma_way_le_trans(w@, ov[p as int], ov[b - 1]);
                    }
                } else {
                    assert(nv[a] == ov[a] && nv[b] == ov[b - 1]);
                    assert(le(ov[a], w@));
                    lemma_way_le_trans(ov[a], w@, ov[p as int]);
                    if p as int != b - 1 {
                        assert(le(ov[p as int], ov[b - 1]));
                        lemma_way_le_trans(ov[a], ov[p as int], ov[b - 1]);
                    }
                }
            }
            assert(nv.remove(p as int) == ov);
            assert(nv[p as int] == w@);
            assert(nv.contains(w@));
            nv.to_multiset_ensures();
            assert(nv.to_multiset().count(w@) > 0);
            vstd::seq_lib::to_multiset_remove(nv, p as int);
            assert(nv.remove(p as int).to_multiset() == nv.to_multiset().remove(nv[p as int]));
            assert(ov.to_multiset() == nv.to_multiset().remove(w@));
            assert(nv.to_multiset() =~= ov.to_multiset().insert(w@));
            assert(input.take(i as int + 1) == input.take(i as int).push(input[i as int]));
            assert(input[i as int] == w@);
            vstd::seq_lib::to_multiset_build(input.take(i as int), w@);
        }
        i = i + 1;
    }
    proof {
        assert(input.take(input.len() as int) == input);
        input.lemma_sort_by_ensures(le);
        vstd::seq_lib::lemma_sorted_unique(ways_view(out@), input.sort_by(le), le);
    }
    out
}

/// Stitching does not depend on the order of the ways: any rearrangement
/// of the same ways gives the same rings, in the same order, and the same
/// number of dropped chains.
pub proof fn lemma_stitch_order_independent(w1: Seq<Seq<i64>>, w2: Seq<Seq<i64>>)
    requires
        w1.to_multiset() == w2.to_multiset(),
    ensures
        stitch_result(w1) == stitch_result(w2),
{
    lemma_way_order_total();
    w1.lemma_sort_by_ensures(way_order());
    w2.lemma_sort_by_ensures(way_order());
    vstd::seq_lib::lemma_sorted_unique(w1.sort_by(way_order()), w2.sort_by(way_order()), way_order());
}

/// Whether candidate `c` would close a chain running from `start` to `end`.
pub open spec fn closes_chain(c: Candidate, start: i64, end: i64) -> bool {
    c.far_endpoint == start || c.far_endpoint == end
}

proof fn lemma_first_closing(cands: Seq<Candidate>, start: i64, end: i64, k: nat)
    requires
        k <= cands.len(),
    ensures
        match first_closing(cands, start, end, k) {
            Some(p) => 0 <= p < k && closes_chain(cands[p], start, end) && forall|q: int|
                0 <= q < p ==> !closes_chain(#[trigger] cands[q], start, end),
            None => forall|q: int| 0 <= q < k ==> !closes_chain(#[trigger] cands[q], start, end),
        },
    decreases k,
{
    if k > 0 {
        lemma_first_closing(cands, start, end, (k - 1) as nat);
    }
}

proof fn lemma_degree_bound(rem: Seq<Seq<i64>>, node: i64, skip: int, k: nat)
    ensures
        degree_spec(rem, node, skip, k) <= k,
    decreases k,
{
    if k > 0 {
        lemma_degree_bound(rem, node, skip, (k - 1) as nat);
    }
}

proof fn lemma_min_degree(rem: Seq<Seq<i64>>, cands: Seq<Candidate>, k: nat)
    requires
        k <= cands.len(),
        rem.len() < usize::MAX,
    ensures
        forall|q: int| 0 <= q < k ==> min_degree(rem, cands, k) <= cand_degree(rem, #[trigger] cands[q]),
        k > 0 ==> exists|q: int| 0 <= q < k && cand_degree(rem, #[trigger] cands[q]) == min_degree(rem, cands, k),
    decreases k,
{
    if k > 0 {
        lemma_min_degree(rem, cands, (k - 1) as nat);
        let c = cands[k - 1];
        lemma_degree_bound(rem, c.far_endpoint, c.index as int, rem.len());
        if k > 1 {
            let q = choose|q: int|
                0 <= q < k - 1 && cand_degree(rem, #[trigger] cands[q]) == min_degree(rem, cands, (k - 1) as nat);
            assert(0 <= q < k && cand_degree(rem, cands[q]) == min_degree(rem, cands, (k - 1) as nat));
        }
        assert(cand_degree(rem, cands[k - 1]) == cand_degree(rem, c));
    }
}

proof fn lemma_lowest_far_at(rem: Seq<Seq<i64>>, cands: Seq<Candidate>, d: nat, k: nat)
    requires
        k <= cands.len(),
    ensures
        match lowest_far_at(rem, cands, d, k) {
            Some(j) => {
                &&& 0 <= j < k
                &&& cand_degree(rem, cands[j]) == d
                &&& forall|q: int|
                    0 <= q < k && cand_degree(rem, #[trigger] cands[q]) == d ==> !far_before(cands[q], cands[j])
            },
            None => forall|q: int| 0 <= q < k ==> cand_degree(rem, #[trigger] cands[q]) != d,
        },
    decreases k,
{
    if k > 0 {
        lemma_lowest_far_at(rem, cands, d, (k - 1) as nat);
    }
}

/// The rule at a junction, stated directly: the chosen candidate is one of
/// the candidates; when there are several and some close the chain, it is
/// the first of those; otherwise its far endpoint has the fewest other
/// remaining ways touching it, and no candidate of that same degree has a
/// lower `(far endpoint, way position)`.
pub proof fn lemma_choice_rule(rem: Seq<Seq<i64>>, cands: Seq<Candidate>, start: i64, end: i64)
    requires
        cands.len() > 0,
        rem.len() < usize::MAX,
    ensures
        0 <= choice(rem, cands, start, end) < cands.len(),
        cands.len() > 1 && (exists|q: int| 0 <= q < cands.len() && closes_chain(#[trigger] cands[q], start, end))
            ==> {
            &&& closes_chain(cands[choice(rem, cands, start, end)], start, end)
            &&& forall|q: int|
                0 <= q < choice(rem, cands, start, end) ==> !closes_chain(#[trigger] cands[q], start, end)
        },
        cands.len() > 1 && (forall|q: int| 0 <= q < cands.len() ==> !closes_chain(#[trigger] cands[q], start, end))
            ==> forall|q: int|
            0 <= q < cands.len() ==> {
                &&& cand_degree(rem, cands[choice(rem, cands, start, end)]) <= cand_degree(rem, #[trigger] cands[q])
                &&& (cand_degree(rem, cands[q]) == cand_degree(rem, cands[choice(rem, cands, start, end)])
                    ==> !far_before(cands[q], cands[choice(rem, cands, start, end)]))
            },
{
    let n = cands.len();
    lemma_first_closing(cands, start, end, n);
    lemma_min_degree(rem, cands, n);
    let d = min_degree(rem, cands, n);
    lemma_lowest_far_at(rem, cands, d, n);
    if n > 1 && first_closing(cands, start, end, n) is None {
        let q = choose|q: int| 0 <= q < n && cand_degree(rem, #[trigger] cands[q]) == d;
        assert(lowest_far_at(rem, cands, d, n) is Some);
    }
}

/// The ways are taken up in another order, never added to or dropped: the
/// canonical order is a rearrangement of the input.
pub proof fn lemma_canonical_ways_permutation(ways: Seq<Seq<i64>>)
    ensures
        canonical_ways(ways).to_multiset() == ways.to_multiset(),
        canonical_ways(ways).len() == ways.len(),
{
    broadcast use vstd::seq_lib::group_to_multiset_ensures;

    lemma_way_order_total();
    ways.lemma_sort_by_ensures(way_order());
    assert(canonical_ways(ways).len() == canonical_ways(ways).to_multiset().len());
    assert(ways.len() == ways.to_multiset().len());
}

proof fn lemma_stitch_all_shape(rem: Seq<Seq<i64>>)
    ensures
        forall|r: int| 0 <= r < stitch_all(rem).0.len() ==> is_ring(#[trigger] stitch_all(rem).0[r]),
        stitch_all(rem).0.len() + stitch_all(rem).1 <= rem.len(),
    decreases rem.len(),
{
    if rem.len() > 0 {
        let (rest, chain) = grow(rem.drop_first(), rem[0]);
        lemma_grow_len(rem.drop_first(), rem[0]);
        if rest.len() < rem.len() {
            lemma_stitch_all_shape(rest);
            let (rings, dropped) = stitch_all(rest);
            if is_ring(chain) {
                let out = seq![chain] + rings;
                assert forall|r: int| 0 <= r < out.len() implies is_ring(#[trigger] out[r]) by {
                    if r > 0 {
                        assert(out[r] == rings[r - 1]);
                    }
                }
            }
        }
    }
}

/// A way of at least two node ids.
pub open spec fn is_long_way(w: Seq<i64>) -> bool {
    w.len() >= 2
}

proof fn lemma_long_ways_multiset(ways: Seq<Seq<i64>>, n: nat)
    requires
        n <= ways.len(),
    ensures
        long_ways(ways, n).to_multiset() =~= ways.take(n as int).to_multiset().filter(
            |w: Seq<i64>| is_long_way(w),
        ),
    decreases n,
{
    broadcast use vstd::seq_lib::group_to_multiset_ensures;
    broadcast use vstd::multiset::group_multiset_axioms;

    let p = |w: Seq<i64>| is_long_way(w);
    if n == 0 {
        assert(ways.take(0) =~= Seq::<Seq<i64>>::empty());
        assert(long_ways(ways, 0).to_multiset() =~= ways.take(0).to_multiset().filter(p));
    } else {
        lemma_long_ways_multiset(ways, (n - 1) as nat);
        let w = ways[n - 1];
        assert(ways.take(n as int) =~= ways.take(n - 1).push(w));
        let before = ways.take(n - 1).to_multiset();
        assert(ways.take(n as int).to_multiset() =~= before.insert(w));
        assert forall|v: Seq<i64>|
            #[trigger] long_ways(ways, n).to_multiset().count(v) == before.insert(w).filter(p).count(
                v,
            ) by {
            assert(before.insert(w).filter(p).count(v) == if p(v) {
                before.insert(w).count(v)
            } else {
                0
            });
            assert(before.filter(p).count(v) == if p(v) {
                before.count(v)
            } else {
                0
            });
        }
        assert(long_ways(ways, n).to_multiset() =~= before.insert(w).filter(p));
    }
}

/// The number of ways of at least two node ids does not depend on their
/// order.
proof fn lemma_long_ways_count(ways: Seq<Seq<i64>>)
    ensures
        long_ways(canonical_ways(ways), canonical_ways(ways).len()).len() == long_ways(
            ways,
            ways.len(),
        ).len(),
{
    broadcast use vstd::seq_lib::group_to_multiset_ensures;

    let sorted = canonical_ways(ways);
    lemma_way_order_total();
    ways.lemma_sort_by_ensures(way_order());
    lemma_long_ways_multiset(ways, ways.len());
    lemma_long_ways_multiset(sorted, sorted.len());
    assert(ways.take(ways.len() as int) =~= ways);
    assert(sorted.take(sorted.len() as int) =~= sorted);
    let a = long_ways(sorted, sorted.len());
    let b = long_ways(ways, ways.len());
    assert(a.to_multiset() =~= b.to_multiset());
    assert(a.len() == a.to_multiset().len());
    assert(b.len() == b.to_multiset().len());
}

/// Every ring that stitching returns is closed (at least four node ids,
/// the first equal to the last), and rings and dropped chains together
/// never outnumber the input ways of at least two nodes.
pub proof fn lemma_stitch_result_shape(ways: Seq<Seq<i64>>)
    ensures
        forall|r: int| 0 <= r < stitch_result(ways).0.len() ==> is_ring(#[trigger] stitch_result(ways).0[r]),
        stitch_result(ways).0.len() + stitch_result(ways).1 <= long_ways(ways, ways.len()).len(),
{
    let sorted = canonical_ways(ways);
    lemma_stitch_all_shape(long_ways(sorted, sorted.len()));
    lemma_long_ways_count(ways);
}

} // verus!
