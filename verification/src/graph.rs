//! Graph indexing: the edge collection, the out-degree of every source node,
//! and the highest node identifier present in the graph.

use std::collections::BTreeMap;
use vstd::prelude::*;

use crate::parse::from_node_of;
use crate::parse::split_from_to;
use crate::parse::to_node_of;
use crate::parse::valid_edge_line;

verus! {

/// An edge of the directed graph: source and destination node identifier.
pub type Edge = (usize, usize);

/// Out-degree map: each source node to the count of its outgoing edge records.
pub type CountMap = BTreeMap<usize, usize>;

/// The edge collection: each source node maps to the ordered sequence of its
/// destinations, duplicate edges kept.
pub type EdgeMatrix = BTreeMap<usize, Vec<usize>>;

fn copy_nodes(v: &Vec<usize>) -> (r: Vec<usize>)
    ensures
        r@ == v@,
{
    let mut r: Vec<usize> = Vec::new();
    assert(r@ =~= v@.subrange(0, 0));
    let mut i: usize = 0;
    while i < v.len()
        invariant
            i <= v@.len(),
            r@ == v@.subrange(0, i as int),
        decreases v@.len() - i,
    {
        r.push(v[i]);
        proof {
            assert(r@ =~= v@.subrange(0, i + 1));
        }
        i = i + 1;
    }
    proof {
        assert(v@.subrange(0, v@.len() as int) =~= v@);
    }
    r
}

/// The entries of the edge collection as a vector of (source, destinations)
/// pairs, one pair for every source key.
#[verifier::loop_isolation(false)]
pub(crate) fn edge_pairs(edges: &EdgeMatrix) -> (pairs: Vec<(usize, Vec<usize>)>)
    ensures
        forall|p: int|
            0 <= p < pairs@.len() ==> edges@.contains_key(#[trigger] pairs@[p].0)
                && edges@[pairs@[p].0]@ == pairs@[p].1@,
        forall|k: usize| #[trigger]
            edges@.contains_key(k) ==> exists|p: int|
                #![trigger pairs@[p]]
                0 <= p < pairs@.len() && pairs@[p].0 == k,
{
    let mut pairs: Vec<(usize, Vec<usize>)> = Vec::new();
    for kv in it: edges.iter()
        invariant
            forall|p: int|
                0 <= p < it.seq().len() ==> edges@.contains_key(*#[trigger] it.seq()[p].0)
                    && edges@[*it.seq()[p].0] == *it.seq()[p].1,
            forall|k: usize| #[trigger]
                edges@.contains_key(k) ==> it.seq().contains((&k, &edges@[k])),
            pairs@.len() == it.index(),
            forall|p: int|
                #![trigger pairs@[p]]
                #![trigger it.seq()[p]]
                0 <= p < pairs@.len() ==> pairs@[p].0 == *it.seq()[p].0 && pairs@[p].1@
                    == it.seq()[p].1@,
            forall|k: usize| #[trigger]
                edges@.contains_key(k) ==> (exists|p: int|
                    #![trigger pairs@[p]]
                    0 <= p < pairs@.len() && pairs@[p].0 == k) || (exists|p: int|
                    #![trigger it.seq()[p]]
                    it.index() <= p < it.seq().len() && *it.seq()[p].0 == k),
    {
        let nodes = copy_nodes(kv.1);
        let ghost pairs_before = pairs@;
        pairs.push((*kv.0, nodes));
        proof {
            assert(kv == it.seq()[it.index()]);
            assert forall|k: usize| #[trigger] edges@.contains_key(k) implies (exists|p: int|
                #![trigger pairs@[p]]
                0 <= p < pairs@.len() && pairs@[p].0 == k) || (exists|p: int|
                #![trigger it.seq()[p]]
                it.index() + 1 <= p < it.seq().len() && *it.seq()[p].0 == k) by {
                if exists|p: int|
                    #![trigger it.seq()[p]]
                    it.index() <= p < it.seq().len() && *it.seq()[p].0 == k {
                    let p = choose|p: int|
                        #![trigger it.seq()[p]]
                        it.index() <= p < it.seq().len() && *it.seq()[p].0 == k;
                    if p == it.index() {
                        assert(pairs@[p].0 == k);
                    }
                } else {
                    let p = choose|p: int|
                        #![trigger pairs_before[p]]
                        0 <= p < pairs_before.len() && pairs_before[p].0 == k;
                    assert(pairs@[p].0 == k);
                }
            }
        }
    }
    pairs
}

/// For every source key of the edge collection, the out-degree: the length of
/// its destination sequence, duplicates counted.
#[verifier::loop_isolation(false)]
pub fn out_degrees(edges: &EdgeMatrix) -> (out_deg: CountMap)
    ensures
        forall|k: usize|
            #![trigger out_deg@.contains_key(k)]
            #![trigger edges@.contains_key(k)]
            out_deg@.contains_key(k) <==> edges@.contains_key(k),
        forall|k: usize| #[trigger] edges@.contains_key(k) ==> out_deg@[k] == edges@[k]@.len(),
{
    let pairs = edge_pairs(edges);
    let mut out_deg: CountMap = BTreeMap::new();
    let mut p: usize = 0;
    while p < pairs.len()
        invariant
            p <= pairs@.len(),
            forall|i: int|
                0 <= i < pairs@.len() ==> edges@.contains_key(#[trigger] pairs@[i].0)
                    && edges@[pairs@[i].0]@ == pairs@[i].1@,
            forall|i: int|
                0 <= i < p ==> out_deg@.contains_key(#[trigger] pairs@[i].0)
                    && out_deg@[pairs@[i].0] == pairs@[i].1@.len(),
            forall|k: usize| #[trigger]
                out_deg@.contains_key(k) ==> exists|i: int|
                    #![trigger pairs@[i]]
                    0 <= i < p && pairs@[i].0 == k,
        decreases pairs@.len() - p,
    {
        let src = pairs[p].0;
        let deg = pairs[p].1.len();
        out_deg.insert(src, deg);
        p = p + 1;
    }
    out_deg
}

/// The edge collection after reading the lines before index `t`, the first
/// `skip` lines skipped: each line's edge appends its destination to its
/// source's sequence, in line order.
pub open spec fn edges_upto(lines: Seq<String>, skip: int, t: int) -> Map<usize, Seq<usize>>
    decreases t - skip,
{
    if t <= skip {
        Map::empty()
    } else {
        let m = edges_upto(lines, skip, t - 1);
        let from = from_node_of(lines[t - 1]@) as usize;
        let to = to_node_of(lines[t - 1]@) as usize;
        let prev = if m.contains_key(from) {
            m[from]
        } else {
            Seq::empty()
        };
        m.insert(from, prev.push(to))
    }
}

/// The edge collection read from all of `lines`, the first `skip` skipped.
pub open spec fn edges_of_lines(lines: Seq<String>, skip: int) -> Map<usize, Seq<usize>> {
    edges_upto(lines, skip, lines.len() as int)
}

/// Builds the edge collection from the lines of an edge-list file, skipping
/// `skip` leading header lines: for each remaining line, the edge it holds is
/// appended under its source key.
#[verifier::loop_isolation(false)]
pub fn dict_of_edges_from_lines(lines: &Vec<String>, skip: usize) -> (edges: EdgeMatrix)
    requires
        forall|i: int| skip <= i < lines@.len() ==> valid_edge_line(#[trigger] lines@[i]@),
    ensures
        forall|k: usize|
            #![trigger edges@.contains_key(k)]
            #![trigger edges_of_lines(lines@, skip as int).contains_key(k)]
            edges@.contains_key(k) <==> edges_of_lines(lines@, skip as int).contains_key(k),
        forall|k: usize| #[trigger]
            edges_of_lines(lines@, skip as int).contains_key(k) ==> edges@[k]@ == edges_of_lines(
                lines@,
                skip as int,
            )[k],
{
    let mut edges: EdgeMatrix = BTreeMap::new();
    let mut t = skip;
    while t < lines.len()
        invariant
            skip <= t,
            skip <= lines@.len() ==> t <= lines@.len(),
            skip > lines@.len() ==> t == skip,
            forall|k: usize|
                #![trigger edges@.contains_key(k)]
                #![trigger edges_upto(lines@, skip as int, t as int).contains_key(k)]
                edges@.contains_key(k) <==> edges_upto(lines@, skip as int, t as int).contains_key(
                    k,
                ),
            forall|k: usize| #[trigger]
                edges_upto(lines@, skip as int, t as int).contains_key(k) ==> edges@[k]@
                    == edges_upto(lines@, skip as int, t as int)[k],
        decreases lines@.len() - t,
    {
        let line = &lines[t];
        let edge = split_from_to(line.as_str());
        let from = edge.0;
        let to = edge.1;
        let mut dests = match edges.remove(&from) {
            Some(v) => v,
            None => Vec::new(),
        };
        dests.push(to);
        edges.insert(from, dests);
        t = t + 1;
    }
    edges
}

/// The highest node identifier occurring in the edge collection, as a source
/// key or as a destination; 0 when the collection is empty.
#[verifier::loop_isolation(false)]
pub fn max_node(edges: &EdgeMatrix) -> (r: usize)
    ensures
        forall|k: usize| #[trigger] edges@.contains_key(k) ==> k <= r,
        forall|k: usize, j: int|
            edges@.contains_key(k) && 0 <= j < edges@[k]@.len() ==> #[trigger] edges@[k]@[j] <= r,
        r == 0 || edges@.contains_key(r) || exists|k: usize|
            #![trigger edges@[k]]
            edges@.contains_key(k) && edges@[k]@.contains(r),
{
    let pairs = edge_pairs(edges);
    let mut r: usize = 0;
    let mut p: usize = 0;
    while p < pairs.len()
        invariant
            p <= pairs@.len(),
            forall|i: int|
                0 <= i < pairs@.len() ==> edges@.contains_key(#[trigger] pairs@[i].0)
                    && edges@[pairs@[i].0]@ == pairs@[i].1@,
            forall|i: int| 0 <= i < p ==> #[trigger] pairs@[i].0 <= r,
            forall|i: int, j: int|
                0 <= i < p && 0 <= j < pairs@[i].1@.len() ==> #[trigger] pairs@[i].1@[j] <= r,
            r == 0 || (exists|i: int|
                #![trigger pairs@[i]]
                0 <= i < p && (pairs@[i].0 == r || pairs@[i].1@.contains(r))),
        decreases pairs@.len() - p,
    {
        let src = pairs[p].0;
        if src > r {
            r = src;
        }
        let mut q: usize = 0;
        while q < pairs[p].1.len()
            invariant
                p < pairs@.len(),
                q <= pairs@[p as int].1@.len(),
                forall|i: int| 0 <= i < p ==> #[trigger] pairs@[i].0 <= r,
                forall|i: int, j: int|
                    0 <= i < p && 0 <= j < pairs@[i].1@.len() ==> #[trigger] pairs@[i].1@[j] <= r,
                pairs@[p as int].0 <= r,
                forall|j: int| 0 <= j < q ==> #[trigger] pairs@[p as int].1@[j] <= r,
                r == 0 || (exists|i: int|
                    #![trigger pairs@[i]]
                    0 <= i < p && (pairs@[i].0 == r || pairs@[i].1@.contains(r)))
                    || pairs@[p as int].0 == r || (exists|j: int|
                    0 <= j < q && #[trigger] pairs@[p as int].1@[j] == r),
            decreases pairs@[p as int].1@.len() - q,
        {
            let to = pairs[p].1[q];
            if to > r {
                r = to;
            }
            q = q + 1;
        }
        p = p + 1;
    }
    proof {
        assert forall|k: usize| #[trigger] edges@.contains_key(k) implies k <= r by {
            let i = choose|i: int| 0 <= i < pairs@.len() && #[trigger] pairs@[i].0 == k;
        }
        assert forall|k: usize, j: int|
            edges@.contains_key(k) && 0 <= j < edges@[k]@.len() implies #[trigger] edges@[k]@[j]
            <= r by {
            let i = choose|i: int| 0 <= i < pairs@.len() && #[trigger] pairs@[i].0 == k;
            assert(pairs@[i].1@[j] <= r);
        }
    }
    r
}

} // verus!
