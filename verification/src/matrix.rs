//! The sparse column-stochastic transition structure of the graph, and the
//! support of the initial rank vector.
//!
//! For every edge `i -> j` the matrix holds, at destination `j` and source
//! `i`, the transition probability `1/d`, where `d` is the out-degree of `i`.
//! Every entry of a source's column shares that one denominator, so the
//! matrix is stored exactly: each entry keeps `d` itself, and the
//! floating-point weight `1/d` is formed only by the solver outside this
//! crate.

use std::collections::BTreeMap;
use vstd::prelude::*;

use crate::graph::edge_pairs;
use crate::graph::CountMap;
use crate::graph::EdgeMatrix;

verus! {

/// Sparse transition matrix: destination node to source node to the
/// denominator `d` of the transition probability `1/d`.
pub type SparseMatrix = BTreeMap<usize, BTreeMap<usize, usize>>;

/// The edge collection as a mathematical map from source to destinations.
pub open spec fn edge_map_view(edges: EdgeMatrix) -> Map<usize, Seq<usize>> {
    Map::new(|k: usize| edges@.contains_key(k), |k: usize| edges@[k]@)
}

/// The sparse matrix as a mathematical map of maps.
pub open spec fn matrix_view(m: SparseMatrix) -> Map<usize, Map<usize, usize>> {
    Map::new(|j: usize| m@.contains_key(j), |j: usize| m@[j]@)
}

/// What `m_sparse` builds: an entry at `[j][i]` for every edge `i -> j` and
/// for nothing else, holding `out_deg[i]`, the denominator of the weight
/// `1/out_deg[i]`.  A duplicate edge rewrites the same entry, so a source
/// with parallel edges to one destination keeps a single entry for it.
pub open spec fn sparse_matrix_of(
    edges: Map<usize, Seq<usize>>,
    out_deg: Map<usize, usize>,
    m: Map<usize, Map<usize, usize>>,
) -> bool {
    &&& forall|i: usize, q: int|
        edges.contains_key(i) && 0 <= q < edges[i].len() ==> {
            let j = #[trigger] edges[i][q];
            &&& m.contains_key(j)
            &&& m[j].contains_key(i)
            &&& m[j][i] == out_deg[i]
        }
    &&& forall|j: usize, i: usize|
        m.contains_key(j) && #[trigger] m[j].contains_key(i) ==> edges.contains_key(i)
            && edges[i].contains(j)
    &&& forall|j: usize| #[trigger]
        m.contains_key(j) ==> exists|i: usize| #[trigger] m[j].contains_key(i)
}

/// Builds the sparse transition matrix from the edge collection and the
/// out-degree map: for each source `i` with out-degree `d = out_deg[i]`,
/// every edge `i -> j` sets the entry at `[j][i]` to the denominator `d`.
#[verifier::loop_isolation(false)]
pub fn m_sparse(edges: &EdgeMatrix, out_deg: &CountMap) -> (m: SparseMatrix)
    requires
        forall|k: usize| #[trigger] edges@.contains_key(k) ==> out_deg@.contains_key(k),
    ensures
        sparse_matrix_of(edge_map_view(*edges), out_deg@, matrix_view(m)),
{
    let pairs = edge_pairs(edges);
    let mut m: SparseMatrix = BTreeMap::new();
    let mut p: usize = 0;
    while p < pairs.len()
        invariant
            p <= pairs@.len(),
            forall|i: int|
                0 <= i < pairs@.len() ==> edges@.contains_key(#[trigger] pairs@[i].0)
                    && edges@[pairs@[i].0]@ == pairs@[i].1@,
            forall|i: int, q: int|
                0 <= i < p && 0 <= q < pairs@[i].1@.len() ==> {
                    let j = #[trigger] pairs@[i].1@[q];
                    &&& m@.contains_key(j)
                    &&& m@[j]@.contains_key(pairs@[i].0)
                    &&& m@[j]@[pairs@[i].0] == out_deg@[pairs@[i].0]
                },
            forall|j: usize, i: usize|
                m@.contains_key(j) && #[trigger] m@[j]@.contains_key(i) ==> exists|ii: int, qq: int|
                    #![trigger pairs@[ii].1@[qq]]
                    0 <= ii < p && pairs@[ii].0 == i && 0 <= qq < pairs@[ii].1@.len()
                        && pairs@[ii].1@[qq] == j,
            forall|j: usize| #[trigger]
                m@.contains_key(j) ==> exists|i: usize| #[trigger] m@[j]@.contains_key(i),
        decreases pairs@.len() - p,
    {
        let src = pairs[p].0;
        let d = *out_deg.get(&src).unwrap();
        let mut q: usize = 0;
        while q < pairs[p].1.len()
            invariant
                p < pairs@.len(),
                q <= pairs@[p as int].1@.len(),
                src == pairs@[p as int].0,
                d == out_deg@[src],
                forall|i: int, qq: int|
                    0 <= i < p && 0 <= qq < pairs@[i].1@.len() ==> {
                        let j = #[trigger] pairs@[i].1@[qq];
                        &&& m@.contains_key(j)
                        &&& m@[j]@.contains_key(pairs@[i].0)
                        &&& m@[j]@[pairs@[i].0] == out_deg@[pairs@[i].0]
                    },
                forall|qq: int|
                    0 <= qq < q ==> {
                        let j = #[trigger] pairs@[p as int].1@[qq];
                        &&& m@.contains_key(j)
                        &&& m@[j]@.contains_key(src)
                        &&& m@[j]@[src] == d
                    },
                forall|j: usize, i: usize|
                    m@.contains_key(j) && #[trigger] m@[j]@.contains_key(i) ==> (exists|ii: int, qq: int|
                        #![trigger pairs@[ii].1@[qq]]
                        0 <= ii < p && pairs@[ii].0 == i && 0 <= qq < pairs@[ii].1@.len()
                            && pairs@[ii].1@[qq] == j) || (i == src && exists|qq: int|
                        #![trigger pairs@[p as int].1@[qq]]
                        0 <= qq < q && pairs@[p as int].1@[qq] == j),
                forall|j: usize| #[trigger]
                    m@.contains_key(j) ==> exists|i: usize| #[trigger] m@[j]@.contains_key(i),
            decreases pairs@[p as int].1@.len() - q,
        {
            let to = pairs[p].1[q];
            let ghost m_before = m@;
            let mut row = match m.remove(&to) {
                Some(r) => r,
                None => BTreeMap::new(),
            };
            row.insert(src, d);
            m.insert(to, row);
            proof {
                assert(m@[to]@.contains_key(src));
                assert forall|j: usize| #[trigger] m@.contains_key(j) implies exists|i: usize|
                    #[trigger] m@[j]@.contains_key(i) by {
                    if j != to {
                        assert(m_before.contains_key(j));
                        let i0 = choose|i: usize| #[trigger] m_before[j]@.contains_key(i);
                        assert(m@[j]@.contains_key(i0));
                    }
                }
            }
            q = q + 1;
        }
        p = p + 1;
    }
    proof {
        let ev = edge_map_view(*edges);
        let mv = matrix_view(m);
        assert forall|i: usize, q: int|
            ev.contains_key(i) && 0 <= q < ev[i].len() implies {
            let j = #[trigger] ev[i][q];
            &&& mv.contains_key(j)
            &&& mv[j].contains_key(i)
            &&& mv[j][i] == out_deg@[i]
        } by {
            let ii = choose|ii: int| 0 <= ii < pairs@.len() && #[trigger] pairs@[ii].0 == i;
            assert(pairs@[ii].1@[q] == ev[i][q]);
        }
        assert forall|j: usize, i: usize|
            mv.contains_key(j) && #[trigger] mv[j].contains_key(i) implies ev.contains_key(i)
            && ev[i].contains(j) by {
            let (ii, qq): (int, int) = choose|ii: int, qq: int|
                #![trigger pairs@[ii].1@[qq]]
                0 <= ii < pairs@.len() && pairs@[ii].0 == i && 0 <= qq < pairs@[ii].1@.len()
                    && pairs@[ii].1@[qq] == j;
            assert(ev[i][qq] == j);
        }
        assert forall|j: usize| #[trigger] mv.contains_key(j) implies exists|i: usize|
            #[trigger] mv[j].contains_key(i) by {
            let i0 = choose|i: usize| #[trigger] m@[j]@.contains_key(i);
            assert(mv[j].contains_key(i0));
        }
    }
    m
}

/// The set of destination rows whose entry for source `i` is present: the
/// distinct destinations of `i` once the matrix is built.
pub open spec fn column_of(m: Map<usize, Map<usize, usize>>, i: usize) -> Set<usize> {
    Set::new(|j: usize| m.contains_key(j) && m[j].contains_key(i))
}

/// Column stochasticity, up to the duplicate-overwrite caveat: for a source
/// `i` with out-degree `d = out_deg[i]`, the column of `i` holds exactly one
/// entry per distinct destination of `i`, and every entry carries the
/// denominator `d` of the weight `1/d`.  The column's weights therefore sum
/// to `|Di| / d` for the distinct-destination set `Di` of `i`.
pub proof fn lemma_column_stochastic(
    edges: Map<usize, Seq<usize>>,
    out_deg: Map<usize, usize>,
    m: Map<usize, Map<usize, usize>>,
    i: usize,
)
    requires
        sparse_matrix_of(edges, out_deg, m),
        edges.contains_key(i),
    ensures
        column_of(m, i) == edges[i].to_set(),
        column_of(m, i).len() == edges[i].to_set().len(),
        forall|j: usize| #[trigger] column_of(m, i).contains(j) ==> m[j][i] == out_deg[i],
{
    assert forall|j: usize| edges[i].to_set().contains(j) implies column_of(m, i).contains(
        j,
    ) && m[j][i] == out_deg[i] by {
        let q = choose|q: int| 0 <= q < edges[i].len() && #[trigger] edges[i][q] == j;
        assert(edges[i][q] == j);
    }
    assert(column_of(m, i) =~= edges[i].to_set());
}

/// The support of the initial rank vector of length `number_of_nodes + 1`:
/// entry `i` is true exactly when node `i` is a destination key of the
/// matrix.  Those entries receive the uniform initial value; all others,
/// including nodes that appear only as sources, start at zero.
pub fn r_vec_support(number_of_nodes: usize, m: &SparseMatrix) -> (sup: Vec<bool>)
    requires
        number_of_nodes < usize::MAX,
    ensures
        sup@.len() == number_of_nodes + 1,
        forall|i: int|
            0 <= i <= number_of_nodes ==> (#[trigger] sup@[i] <==> m@.contains_key(i as usize)),
{
    let mut sup: Vec<bool> = Vec::new();
    let mut i: usize = 0;
    while i < number_of_nodes + 1
        invariant
            i <= number_of_nodes + 1 <= usize::MAX,
            sup@.len() == i,
            forall|t: int| 0 <= t < i ==> (#[trigger] sup@[t] <==> m@.contains_key(t as usize)),
        decreases number_of_nodes + 1 - i,
    {
        sup.push(m.contains_key(&i));
        i = i + 1;
    }
    sup
}

} // verus!
