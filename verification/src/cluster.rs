use vstd::prelude::*;

use crate::types::{StopLabel, NON_STOP};

verus! {

/// Infomap-backed community detector settings.
#[derive(Debug, Clone)]
pub struct InfomapDetector {
    pub seed: u64,
    pub trials: usize,
}

impl Default for InfomapDetector {
    fn default() -> (d: Self)
        ensures
            d.seed == 42,
            d.trials == 3,
    {
        InfomapDetector { seed: 42, trials: 3 }
    }
}

/// A candidate network edge between stay positions `node < neighbor`:
/// `slot` is the neighbor's position in `node`'s neighbor list (where its
/// distance is found), `count_weight` the larger visit count of the two.
#[derive(Debug, Clone, Copy, PartialEq, Eq, Structural)]
pub struct EdgeSlot {
    pub node: usize,
    pub neighbor: usize,
    pub slot: usize,
    pub count_weight: usize,
}

/// Neighbor lists as nested sequences.
pub open spec fn lists_view(t: Seq<Vec<usize>>) -> Seq<Seq<usize>> {
    t.map_values(|r: Vec<usize>| r@)
}

/// The larger of two counts.
pub open spec fn max_count(a: usize, b: usize) -> usize {
    if a >= b {
        a
    } else {
        b
    }
}

/// Edges contributed by the first `k` entries of `node`'s neighbor list.
pub open spec fn row_edges(nbrs: Seq<usize>, counts: Seq<usize>, node: int, k: int) -> Seq<
    EdgeSlot,
>
    decreases k,
{
    if k <= 0 {
        Seq::empty()
    } else {
        let prev = row_edges(nbrs, counts, node, k - 1);
        let nb = nbrs[k - 1];
        if nb > node {
            prev.push(
                EdgeSlot {
                    node: node as usize,
                    neighbor: nb,
                    slot: (k - 1) as usize,
                    count_weight: max_count(counts[node], counts[nb as int]),
                },
            )
        } else {
            prev
        }
    }
}

/// Edges contributed by `node`: none when it has no neighbor but itself.
pub open spec fn node_edges(neighbors: Seq<Seq<usize>>, counts: Seq<usize>, node: int) -> Seq<
    EdgeSlot,
> {
    if neighbors[node].len() <= 1 {
        Seq::empty()
    } else {
        row_edges(neighbors[node], counts, node, neighbors[node].len() as int)
    }
}

/// Edges of the first `m` nodes, node by node.
pub open spec fn all_edges(neighbors: Seq<Seq<usize>>, counts: Seq<usize>, m: int) -> Seq<EdgeSlot>
    decreases m,
{
    if m <= 0 {
        Seq::empty()
    } else {
        all_edges(neighbors, counts, m - 1) + node_edges(neighbors, counts, m - 1)
    }
}

/// Nodes among the first `m` whose neighbor list holds at most one entry.
pub open spec fn isolated_nodes(neighbors: Seq<Seq<usize>>, m: int) -> Seq<usize>
    decreases m,
{
    if m <= 0 {
        Seq::empty()
    } else if neighbors[m - 1].len() <= 1 {
        isolated_nodes(neighbors, m - 1).push((m - 1) as usize)
    } else {
        isolated_nodes(neighbors, m - 1)
    }
}

/// Neighbor lists index only counted nodes.
pub open spec fn lists_in_range(neighbors: Seq<Seq<usize>>, n: int) -> bool {
    forall|i: int, k: int|
        0 <= i < neighbors.len() && 0 <= k < neighbors[i].len() ==> #[trigger] neighbors[i][k] < n
}

/// The network's candidate edges (each pair once, from its smaller node) and
/// the isolated nodes, from neighbor lists and per-position visit counts.
pub fn edge_slots(neighbors: &Vec<Vec<usize>>, counts: &Vec<usize>) -> (r: (Vec<EdgeSlot>, Vec<usize>))
    requires
        neighbors@.len() <= counts@.len(),
        lists_in_range(lists_view(neighbors@), counts@.len() as int),
    ensures
        r.0@ == all_edges(lists_view(neighbors@), counts@, neighbors@.len() as int),
        r.1@ == isolated_nodes(lists_view(neighbors@), neighbors@.len() as int),
        forall|t: int|
            0 <= t < r.0@.len() ==> {
                let e = #[trigger] r.0@[t];
                &&& e.node < e.neighbor
                &&& e.node < neighbors@.len()
                &&& neighbors@[e.node as int]@.len() > 1
                &&& e.slot < neighbors@[e.node as int]@.len()
                &&& neighbors@[e.node as int]@[e.slot as int] == e.neighbor
                &&& e.count_weight >= counts@[e.node as int]
                &&& e.count_weight >= counts@[e.neighbor as int]
                &&& (e.count_weight == counts@[e.node as int] || e.count_weight
                    == counts@[e.neighbor as int])
            },
        forall|node: int, k: int|
            #![trigger neighbors@[node]@[k]]
            0 <= node < neighbors@.len() && neighbors@[node]@.len() > 1 && 0 <= k
                < neighbors@[node]@.len() && neighbors@[node]@[k] > node ==> exists|t: int|
                0 <= t < r.0@.len() && (#[trigger] r.0@[t]).node == node && r.0@[t].slot == k
                    && r.0@[t].neighbor == neighbors@[node]@[k],
        forall|v: usize|
            #[trigger] r.1@.contains(v) <==> (v < neighbors@.len() && neighbors@[v as int]@.len()
                <= 1),
        forall|a: int, b: int| 0 <= a < b < r.1@.len() ==> r.1@[a] < r.1@[b],
{
    let ghost nv = lists_view(neighbors@);
    let mut edges: Vec<EdgeSlot> = Vec::new();
    let mut singletons: Vec<usize> = Vec::new();
    let mut node: usize = 0;
    while node < neighbors.len()
        invariant
            nv == lists_view(neighbors@),
            neighbors@.len() <= counts@.len(),
            lists_in_range(nv, counts@.len() as int),
            node <= neighbors@.len(),
            edges@ == all_edges(nv, counts@, node as int),
            singletons@ == isolated_nodes(nv, node as int),
            forall|q: int| 0 <= q < node ==> (#[trigger] nv[q]).len() <= usize::MAX,
        decreases neighbors@.len() - node,
    {
        let nbrs = &neighbors[node];
        assert(nbrs@ == nv[node as int]);
        let row_len = nbrs.len();
        assert(nv[node as int].len() == row_len);
        if nbrs.len() <= 1 {
            singletons.push(node);
        } else {
            let ghost base = edges@;
            let mut k: usize = 0;
            while k < nbrs.len()
                invariant
                    nv == lists_view(neighbors@),
                    neighbors@.len() <= counts@.len(),
                    lists_in_range(nv, counts@.len() as int),
                    node < neighbors@.len(),
                    nbrs@ == nv[node as int],
                    k <= nbrs@.len(),
                    edges@ == base + row_edges(nbrs@, counts@, node as int, k as int),
                decreases nbrs@.len() - k,
            {
                let neighbor = nbrs[k];
                assert(neighbor < counts@.len()) by {
                    assert(nv[node as int][k as int] == neighbor);
                }
                if neighbor > node {
                    let a = counts[node];
                    let b = counts[neighbor];
                    let w = if a >= b {
                        a
                    } else {
                        b
                    };
                    edges.push(EdgeSlot { node, neighbor, slot: k, count_weight: w });
                }
                k += 1;
            }
        }
        node += 1;
    }
    let r = (edges, singletons);
    proof {
        let m = neighbors.len() as int;
        law_isolated_nodes(nv, m);
        assert forall|t: int| 0 <= t < r.0@.len() implies {
            let e = #[trigger] r.0@[t];
            &&& e.node < e.neighbor
            &&& e.node < neighbors@.len()
            &&& neighbors@[e.node as int]@.len() > 1
            &&& e.slot < neighbors@[e.node as int]@.len()
            &&& neighbors@[e.node as int]@[e.slot as int] == e.neighbor
            &&& e.count_weight >= counts@[e.node as int]
            &&& e.count_weight >= counts@[e.neighbor as int]
            &&& (e.count_weight == counts@[e.node as int] || e.count_weight
                == counts@[e.neighbor as int])
        } by {
            law_edge_slots(nv, counts@, m, t);
        }
        assert forall|nd: int, k: int|
            #![trigger neighbors@[nd]@[k]]
            0 <= nd < neighbors@.len() && neighbors@[nd]@.len() > 1 && 0 <= k
                < neighbors@[nd]@.len() && neighbors@[nd]@[k] > nd implies exists|t: int|
            0 <= t < r.0@.len() && (#[trigger] r.0@[t]).node == nd && r.0@[t].slot == k
                && r.0@[t].neighbor == neighbors@[nd]@[k] by {
            assert(nv[nd] == neighbors@[nd]@);
            law_edge_slots_complete(nv, counts@, m, nd, k);
            let t = choose|t: int|
                0 <= t < r.0@.len() && #[trigger] r.0@[t].slot == k && r.0@[t].node == nd
                    && r.0@[t].neighbor == nv[nd][k];
            assert(r.0@[t].node == nd);
        }
        assert forall|v: usize| #[trigger] r.1@.contains(v) <==> (v < neighbors@.len()
            && neighbors@[v as int]@.len() <= 1) by {
            if v < neighbors@.len() {
                assert(nv[v as int] == neighbors@[v as int]@);
            }
        }
    }
    r
}

/// Nodes below `m` that are not singletons, in increasing order: the nodes
/// handed to community detection, by dense index.
pub open spec fn dense_nodes(singletons: Seq<usize>, m: int) -> Seq<usize>
    decreases m,
{
    if m <= 0 {
        Seq::empty()
    } else if singletons.contains((m - 1) as usize) {
        dense_nodes(singletons, m - 1)
    } else {
        dense_nodes(singletons, m - 1).push((m - 1) as usize)
    }
}

/// Index of the last occurrence of `v` among the first `j` singletons, or -1.
pub open spec fn last_in(s: Seq<usize>, v: usize, j: int) -> int
    decreases j,
{
    if j <= 0 {
        -1
    } else if s[j - 1] == v {
        j - 1
    } else {
        last_in(s, v, j - 1)
    }
}

/// One above the largest module id, or 0 when there are none.
pub open spec fn module_base(modules: Seq<usize>) -> int
    decreases modules.len(),
{
    if modules.len() == 0 {
        0
    } else {
        let rest = module_base(modules.drop_last());
        if modules.last() + 1 > rest {
            modules.last() + 1
        } else {
            rest
        }
    }
}

/// Label of node `v`: a singleton gets a fresh label above every module id
/// (numbered by its last place in `singletons`) or `NON_STOP`; any other node
/// gets the module found for its dense index.
pub open spec fn node_label(
    singletons: Seq<usize>,
    modules: Seq<usize>,
    label_singleton: bool,
    v: usize,
) -> int {
    let j = last_in(singletons, v, singletons.len() as int);
    if j >= 0 {
        if label_singleton {
            module_base(modules) + j
        } else {
            NON_STOP as int
        }
    } else {
        modules[dense_nodes(singletons, v as int).len() as int] as int
    }
}

/// Where `v` sits among the singletons, if anywhere.
pub proof fn lemma_last_in(s: Seq<usize>, v: usize, j: int)
    requires
        0 <= j <= s.len(),
    ensures
        -1 <= last_in(s, v, j) < j,
        last_in(s, v, j) >= 0 ==> s[last_in(s, v, j)] == v,
        last_in(s, v, j) < 0 <==> forall|t: int| 0 <= t < j ==> s[t] != v,
    decreases j,
{
    if j > 0 {
        lemma_last_in(s, v, j - 1);
    }
}

/// Dense nodes are increasing, below `m`, and exactly the non-singletons.
pub proof fn lemma_dense_nodes(singletons: Seq<usize>, m: int)
    requires
        0 <= m <= usize::MAX,
    ensures
        dense_nodes(singletons, m).len() <= m,
        forall|a: int, b: int|
            0 <= a < b < dense_nodes(singletons, m).len() ==> dense_nodes(singletons, m)[a]
                < dense_nodes(singletons, m)[b],
        forall|t: int|
            0 <= t < dense_nodes(singletons, m).len() ==> #[trigger] dense_nodes(singletons, m)[t]
                < m && !singletons.contains(dense_nodes(singletons, m)[t]),
    decreases m,
{
    if m > 0 {
        lemma_dense_nodes(singletons, m - 1);
        let d = dense_nodes(singletons, m - 1);
        assert(dense_nodes(singletons, m) == if singletons.contains((m - 1) as usize) {
            d
        } else {
            d.push((m - 1) as usize)
        });
        assert forall|a: int, b: int|
            0 <= a < b < dense_nodes(singletons, m).len() implies dense_nodes(singletons, m)[a]
            < dense_nodes(singletons, m)[b] by {
            if singletons.contains((m - 1) as usize) {
                assert(d[a] < d[b]);
            } else {
                let e = d.push((m - 1) as usize);
                assert(e[a] == d[a]);
                if b < d.len() {
                    assert(e[b] == d[b]);
                    assert(d[a] < d[b]);
                } else {
                    assert(e[b] == m - 1);
                    assert(d[a] < m - 1);
                }
            }
        }
    }
}


/// The dense nodes below `m` are exactly the non-singletons below `m`.
pub proof fn lemma_dense_complete(singletons: Seq<usize>, m: int)
    requires
        0 <= m <= usize::MAX,
    ensures
        forall|v: usize|
            #[trigger] dense_nodes(singletons, m).contains(v) <==> (v < m && !singletons.contains(
                v,
            )),
    decreases m,
{
    if m > 0 {
        lemma_dense_complete(singletons, m - 1);
        let d = dense_nodes(singletons, m - 1);
        if !singletons.contains((m - 1) as usize) {
            let e = d.push((m - 1) as usize);
            assert(dense_nodes(singletons, m) == e);
            assert forall|v: usize| #[trigger] e.contains(v) <==> (v < m && !singletons.contains(v)) by {
                if d.contains(v) {
                    let t = choose|t: int| 0 <= t < d.len() && d[t] == v;
                    assert(e[t] == v);
                }
                if e.contains(v) && v != m - 1 {
                    let t = choose|t: int| 0 <= t < e.len() && e[t] == v;
                    assert(d[t] == v);
                }
                if v == m - 1 {
                    assert(e[d.len() as int] == v);
                }
            }
        }
    }
}

/// A non-singleton `v` sits in the dense order at the number of
/// non-singletons below it.
pub proof fn lemma_dense_at(singletons: Seq<usize>, m: int, v: usize)
    requires
        0 <= m <= usize::MAX,
        v < m,
        !singletons.contains(v),
    ensures
        dense_nodes(singletons, v as int).len() < dense_nodes(singletons, m).len(),
        dense_nodes(singletons, m)[dense_nodes(singletons, v as int).len() as int] == v,
    decreases m,
{
    if v + 1 < m {
        lemma_dense_at(singletons, m - 1, v);
    }
}

/// Whether `v` occurs in `s`.
fn contains_node(s: &Vec<usize>, v: usize) -> (r: bool)
    ensures
        r == s@.contains(v),
{
    let mut j: usize = 0;
    while j < s.len()
        invariant
            j <= s@.len(),
            forall|t: int| 0 <= t < j ==> s@[t] != v,
        decreases s@.len() - j,
    {
        if s[j] == v {
            assert(s@[j as int] == v);
            return true;
        }
        j += 1;
    }
    false
}

/// Map every node to its dense index among the non-singletons (`None` for
/// singletons), together with the inverse map from dense index to node.
pub fn dense_index(n_nodes: usize, singletons: &Vec<usize>) -> (r: (Vec<Option<usize>>, Vec<usize>))
    ensures
        r.1@ == dense_nodes(singletons@, n_nodes as int),
        r.0@.len() == n_nodes,
        forall|v: int|
            0 <= v < n_nodes ==> #[trigger] r.0@[v] == if singletons@.contains(v as usize) {
                None
            } else {
                Some(dense_nodes(singletons@, v).len() as usize)
            },
        forall|a: int, b: int| 0 <= a < b < r.1@.len() ==> r.1@[a] < r.1@[b],
        forall|v: usize| #[trigger] r.1@.contains(v) <==> (v < n_nodes && !singletons@.contains(v)),
        forall|v: usize|
            v < n_nodes ==> (#[trigger] r.0@[v as int] is None <==> singletons@.contains(v)),
        forall|v: usize|
            v < n_nodes && #[trigger] r.0@[v as int] is Some ==> r.0@[v as int]->0 < r.1@.len()
                && r.1@[r.0@[v as int]->0 as int] == v,
{
    let mut name_map: Vec<Option<usize>> = Vec::new();
    let mut inverse: Vec<usize> = Vec::new();
    let mut v: usize = 0;
    while v < n_nodes
        invariant
            v <= n_nodes,
            name_map@.len() == v,
            inverse@ == dense_nodes(singletons@, v as int),
            forall|u: int|
                0 <= u < v ==> #[trigger] name_map@[u] == if singletons@.contains(u as usize) {
                    None
                } else {
                    Some(dense_nodes(singletons@, u).len() as usize)
                },
        decreases n_nodes - v,
    {
        proof {
            lemma_dense_nodes(singletons@, v as int);
        }
        if contains_node(singletons, v) {
            name_map.push(None);
        } else {
            name_map.push(Some(inverse.len()));
            inverse.push(v);
        }
        v += 1;
    }
    proof {
        lemma_dense_nodes(singletons@, n_nodes as int);
        lemma_dense_complete(singletons@, n_nodes as int);
        assert forall|u: usize|
            u < n_nodes && #[trigger] name_map@[u as int] is Some implies name_map@[u as int]->0
            < inverse@.len() && inverse@[name_map@[u as int]->0 as int] == u by {
            lemma_dense_at(singletons@, n_nodes as int, u);
        }
        assert forall|u: usize| u < n_nodes implies (#[trigger] name_map@[u as int] is None
            <==> singletons@.contains(u)) by {
            assert(name_map@[u as int] == if singletons@.contains(u) {
                None
            } else {
                Some(dense_nodes(singletons@, u as int).len() as usize)
            });
        }
    }
    (name_map, inverse)
}

/// Final stop labels of the stay network: non-singletons take the module
/// that community detection found for their dense index; singletons get
/// fresh labels above every module id when `label_singleton` holds, and
/// `NON_STOP` otherwise.
pub fn cluster_labels(
    n_nodes: usize,
    label_singleton: bool,
    singletons: &Vec<usize>,
    modules: &Vec<usize>,
) -> (labels: Vec<StopLabel>)
    requires
        forall|j: int| 0 <= j < singletons@.len() ==> #[trigger] singletons@[j] < n_nodes,
        singletons@.len() < i32::MAX,
        modules@.len() == dense_nodes(singletons@, n_nodes as int).len(),
        forall|k: int|
            0 <= k < modules@.len() ==> #[trigger] modules@[k] + singletons@.len() < i32::MAX,
    ensures
        labels@.len() == n_nodes,
        forall|v: usize|
            v < n_nodes ==> #[trigger] labels@[v as int] == node_label(
                singletons@,
                modules@,
                label_singleton,
                v,
            ),
        forall|p: int|
            0 <= p < modules@.len() ==> #[trigger] labels@[dense_nodes(singletons@, n_nodes as int)[p] as int]
                == modules@[p],
        forall|v: usize|
            v < n_nodes && singletons@.contains(v) && !label_singleton ==> #[trigger] labels@[v as int]
                == NON_STOP,
        forall|v: usize, k: int|
            v < n_nodes && singletons@.contains(v) && label_singleton && 0 <= k < modules@.len()
                ==> #[trigger] labels@[v as int] > #[trigger] modules@[k],
        forall|v: usize|
            v < n_nodes && singletons@.contains(v) && label_singleton ==> #[trigger] labels@[v as int]
                >= 0,
        forall|u1: usize, u2: usize|
            u1 < n_nodes && u2 < n_nodes && label_singleton && singletons@.contains(u1)
                && singletons@.contains(u2) && u1 != u2 ==> #[trigger] labels@[u1 as int]
                != #[trigger] labels@[u2 as int],
{
    let mut labels: Vec<StopLabel> = Vec::new();
    let mut p: usize = 0;
    let mut v: usize = 0;
    proof {
        lemma_dense_nodes(singletons@, n_nodes as int);
    }
    while v < n_nodes
        invariant
            v <= n_nodes,
            labels@.len() == v,
            p == dense_nodes(singletons@, v as int).len(),
            modules@.len() == dense_nodes(singletons@, n_nodes as int).len(),
            forall|k: int|
                0 <= k < modules@.len() ==> #[trigger] modules@[k] + singletons@.len() < i32::MAX,
            forall|u: usize|
                u < v ==> #[trigger] labels@[u as int] == if singletons@.contains(u) {
                    NON_STOP as int
                } else {
                    modules@[dense_nodes(singletons@, u as int).len() as int] as int
                },
        decreases n_nodes - v,
    {
        proof {
            lemma_dense_prefix_len(singletons@, v as int, n_nodes as int);
        }
        if contains_node(singletons, v) {
            labels.push(NON_STOP);
        } else {
            assert(p < modules.len());
            let m = modules[p];
            labels.push(m as StopLabel);
            p += 1;
        }
        v += 1;
    }
    if label_singleton {
        let base = module_base_of(modules, singletons.len());
        let mut next: StopLabel = base;
        let mut j: usize = 0;
        let ghost after_modules = labels@;
        while j < singletons.len()
            invariant
                forall|t: int| 0 <= t < singletons@.len() ==> #[trigger] singletons@[t] < n_nodes,
                labels@.len() == n_nodes,
                j <= singletons@.len(),
                base == module_base(modules@),
                base + singletons@.len() <= i32::MAX,
                next == base + j,
                forall|u: usize|
                    u < n_nodes ==> #[trigger] labels@[u as int] == if last_in(
                        singletons@,
                        u,
                        j as int,
                    ) >= 0 {
                        base + last_in(singletons@, u, j as int)
                    } else {
                        after_modules[u as int] as int
                    },
            decreases singletons@.len() - j,
        {
            labels.set(singletons[j], next);
            next = next + 1;
            j += 1;
        }
    }
    proof {
        assert forall|u: usize| u < n_nodes implies #[trigger] labels@[u as int] == node_label(
            singletons@,
            modules@,
            label_singleton,
            u,
        ) by {
            lemma_last_in(singletons@, u, singletons@.len() as int);
        }
        lemma_module_base(modules@);
        lemma_dense_nodes(singletons@, n_nodes as int);
        assert forall|p: int| 0 <= p < modules@.len() implies #[trigger] labels@[dense_nodes(
            singletons@,
            n_nodes as int,
        )[p] as int] == modules@[p] by {
            let v = dense_nodes(singletons@, n_nodes as int)[p];
            lemma_dense_position(singletons@, n_nodes as int, p);
            lemma_last_in(singletons@, v, singletons@.len() as int);
            assert(labels@[v as int] == node_label(singletons@, modules@, label_singleton, v));
        }
        assert forall|v: usize|
            v < n_nodes && singletons@.contains(v) && !label_singleton implies #[trigger] labels@[v as int]
            == NON_STOP by {
            lemma_last_in(singletons@, v, singletons@.len() as int);
            assert(labels@[v as int] == node_label(singletons@, modules@, label_singleton, v));
        }
        assert forall|v: usize, k: int|
            v < n_nodes && singletons@.contains(v) && label_singleton && 0 <= k < modules@.len()
            implies #[trigger] labels@[v as int] > #[trigger] modules@[k] by {
            lemma_last_in(singletons@, v, singletons@.len() as int);
            assert(labels@[v as int] == node_label(singletons@, modules@, label_singleton, v));
        }
        assert forall|v: usize|
            v < n_nodes && singletons@.contains(v) && label_singleton implies #[trigger] labels@[v as int]
            >= 0 by {
            lemma_last_in(singletons@, v, singletons@.len() as int);
            assert(labels@[v as int] == node_label(singletons@, modules@, label_singleton, v));
        }
        assert forall|u1: usize, u2: usize|
            u1 < n_nodes && u2 < n_nodes && label_singleton && singletons@.contains(u1)
                && singletons@.contains(u2) && u1 != u2 implies #[trigger] labels@[u1 as int]
            != #[trigger] labels@[u2 as int] by {
            lemma_last_in(singletons@, u1, singletons@.len() as int);
            lemma_last_in(singletons@, u2, singletons@.len() as int);
            assert(labels@[u1 as int] == node_label(singletons@, modules@, label_singleton, u1));
            assert(labels@[u2 as int] == node_label(singletons@, modules@, label_singleton, u2));
        }
    }
    labels
}

/// The node at dense position `p` has exactly `p` non-singletons below it.
pub proof fn lemma_dense_position(singletons: Seq<usize>, m: int, p: int)
    requires
        0 <= m <= usize::MAX,
        0 <= p < dense_nodes(singletons, m).len(),
    ensures
        dense_nodes(singletons, dense_nodes(singletons, m)[p] as int).len() == p,
        !singletons.contains(dense_nodes(singletons, m)[p]),
        dense_nodes(singletons, m)[p] < m,
    decreases m,
{
    let d = dense_nodes(singletons, m - 1);
    if singletons.contains((m - 1) as usize) {
        lemma_dense_position(singletons, m - 1, p);
    } else if p < d.len() {
        assert(dense_nodes(singletons, m)[p] == d[p]);
        lemma_dense_position(singletons, m - 1, p);
    } else {
        assert(dense_nodes(singletons, m)[p] == (m - 1) as usize);
    }
}

/// The dense prefix length is a valid index into the dense nodes for any
/// non-singleton below `m`, and grows with the prefix.
pub proof fn lemma_dense_prefix_len(singletons: Seq<usize>, v: int, m: int)
    requires
        0 <= v < m,
    ensures
        dense_nodes(singletons, v).len() + (if singletons.contains(v as usize) {
            0int
        } else {
            1int
        }) <= dense_nodes(singletons, m).len(),
    decreases m - v,
{
    if v + 1 < m {
        lemma_dense_prefix_len(singletons, v + 1, m);
        lemma_dense_monotone(singletons, v + 1, m);
    }
}

/// Dense prefixes only grow.
pub proof fn lemma_dense_monotone(singletons: Seq<usize>, a: int, b: int)
    requires
        0 <= a <= b,
    ensures
        dense_nodes(singletons, a).len() <= dense_nodes(singletons, b).len(),
    decreases b - a,
{
    if a < b {
        lemma_dense_monotone(singletons, a, b - 1);
    }
}

/// `module_base` of the module ids, as a label.
fn module_base_of(modules: &Vec<usize>, extra: usize) -> (base: StopLabel)
    requires
        extra < i32::MAX,
        forall|k: int| 0 <= k < modules@.len() ==> #[trigger] modules@[k] + extra < i32::MAX,
    ensures
        base == module_base(modules@),
        base + extra <= i32::MAX,
{
    let mut best: StopLabel = 0;
    let mut k: usize = 0;
    while k < modules.len()
        invariant
            k <= modules@.len(),
            forall|t: int| 0 <= t < modules@.len() ==> #[trigger] modules@[t] + extra < i32::MAX,
            best == module_base(modules@.take(k as int)),
            best + extra <= i32::MAX,
        decreases modules@.len() - k,
    {
        assert(modules@.take(k + 1).drop_last() =~= modules@.take(k as int));
        let m = modules[k] as StopLabel;
        if m + 1 > best {
            best = m + 1;
        }
        k += 1;
    }
    assert(modules@.take(modules@.len() as int) =~= modules@);
    best
}

/// Every module id lies below the base of the singleton labels.
pub proof fn lemma_module_base(modules: Seq<usize>)
    ensures
        forall|k: int| 0 <= k < modules.len() ==> modules[k] < module_base(modules),
        0 <= module_base(modules),
    decreases modules.len(),
{
    if modules.len() > 0 {
        let rest = modules.drop_last();
        lemma_module_base(rest);
        assert forall|k: int| 0 <= k < modules.len() implies modules[k] < module_base(modules) by {
            if k < modules.len() - 1 {
                assert(rest[k] == modules[k]);
            }
        }
    }
}

/// Isolated stays are told apart: with `label_singleton`, each singleton
/// node gets its own label, above every label of a clustered node; without
/// it, singletons are `NON_STOP`.
pub proof fn law_singleton_labels(
    singletons: Seq<usize>,
    modules: Seq<usize>,
    label_singleton: bool,
    u1: usize,
    u2: usize,
    w: usize,
)
    requires
        singletons.contains(u1),
        singletons.contains(u2),
        !singletons.contains(w),
        dense_nodes(singletons, w as int).len() < modules.len(),
    ensures
        label_singleton ==> (node_label(singletons, modules, true, u1) == node_label(
            singletons,
            modules,
            true,
            u2,
        ) <==> u1 == u2),
        label_singleton ==> node_label(singletons, modules, true, u1) > node_label(
            singletons,
            modules,
            true,
            w,
        ),
        !label_singleton ==> node_label(singletons, modules, false, u1) == NON_STOP,
{
    let n = singletons.len() as int;
    lemma_last_in(singletons, u1, n);
    lemma_last_in(singletons, u2, n);
    lemma_last_in(singletons, w, n);
    lemma_module_base(modules);
    let k1 = choose|k: int| 0 <= k < n && singletons[k] == u1;
    let k2 = choose|k: int| 0 <= k < n && singletons[k] == u2;
    assert(singletons[k1] == u1);
    assert(singletons[k2] == u2);
    assert(forall|t: int| 0 <= t < n ==> singletons[t] != w);
}

/// Each candidate edge joins a node to a later neighbor listed at its slot,
/// never starts at an isolated node, and is weighted by the larger of the
/// two visit counts: at least each of them, and equal to one of them.
pub proof fn law_edge_slots(neighbors: Seq<Seq<usize>>, counts: Seq<usize>, m: int, t: int)
    requires
        0 <= m <= neighbors.len() <= usize::MAX,
        forall|i: int| 0 <= i < neighbors.len() ==> (#[trigger] neighbors[i]).len() <= usize::MAX,
        neighbors.len() <= counts.len(),
        lists_in_range(neighbors, counts.len() as int),
        0 <= t < all_edges(neighbors, counts, m).len(),
    ensures
        ({
            let e = all_edges(neighbors, counts, m)[t];
            &&& e.node < m
            &&& e.node < e.neighbor
            &&& neighbors[e.node as int].len() > 1
            &&& e.slot < neighbors[e.node as int].len()
            &&& neighbors[e.node as int][e.slot as int] == e.neighbor
            &&& e.count_weight >= counts[e.node as int]
            &&& e.count_weight >= counts[e.neighbor as int]
            &&& (e.count_weight == counts[e.node as int] || e.count_weight
                == counts[e.neighbor as int])
        }),
    decreases m,
{
    let prev = all_edges(neighbors, counts, m - 1);
    if t < prev.len() {
        law_edge_slots(neighbors, counts, m - 1, t);
    } else {
        let node = m - 1;
        lemma_row_edges(neighbors[node], counts, node, neighbors[node].len() as int, t - prev.len());
    }
}

/// Entries of one node's row of edges.
pub proof fn lemma_row_edges(nbrs: Seq<usize>, counts: Seq<usize>, node: int, k: int, t: int)
    requires
        0 <= node <= usize::MAX,
        0 <= k <= nbrs.len() <= usize::MAX,
        0 <= t < row_edges(nbrs, counts, node, k).len(),
    ensures
        ({
            let e = row_edges(nbrs, counts, node, k)[t];
            &&& e.node == node
            &&& e.node < e.neighbor
            &&& e.slot < k
            &&& nbrs[e.slot as int] == e.neighbor
            &&& e.count_weight >= counts[node]
            &&& e.count_weight >= counts[e.neighbor as int]
            &&& (e.count_weight == counts[node] || e.count_weight == counts[e.neighbor as int])
        }),
    decreases k,
{
    let prev = row_edges(nbrs, counts, node, k - 1);
    if t < prev.len() {
        lemma_row_edges(nbrs, counts, node, k - 1, t);
    } else {
        assert(nbrs[k - 1] > node);
        assert(row_edges(nbrs, counts, node, k)[t] == EdgeSlot {
            node: node as usize,
            neighbor: nbrs[k - 1],
            slot: (k - 1) as usize,
            count_weight: max_count(counts[node], counts[nbrs[k - 1] as int]),
        });
    }
}

/// Every listed pair `node < neighbor` of a node with more than one listed
/// neighbor is among the first `k` row entries' edges, at its slot.
pub proof fn lemma_row_complete(nbrs: Seq<usize>, counts: Seq<usize>, node: int, k: int, kk: int)
    requires
        0 <= node <= usize::MAX,
        0 <= kk < k <= nbrs.len() <= usize::MAX,
        nbrs[kk] > node,
    ensures
        exists|t: int|
            0 <= t < row_edges(nbrs, counts, node, k).len() && #[trigger] row_edges(
                nbrs,
                counts,
                node,
                k,
            )[t].slot == kk && row_edges(nbrs, counts, node, k)[t].node == node && row_edges(
                nbrs,
                counts,
                node,
                k,
            )[t].neighbor == nbrs[kk],
    decreases k,
{
    let prev = row_edges(nbrs, counts, node, k - 1);
    if kk < k - 1 {
        lemma_row_complete(nbrs, counts, node, k - 1, kk);
        let t = choose|t: int|
            0 <= t < prev.len() && #[trigger] prev[t].slot == kk && prev[t].node == node
                && prev[t].neighbor == nbrs[kk];
        assert(row_edges(nbrs, counts, node, k)[t] == prev[t]);
    } else {
        let t = prev.len() as int;
        assert(row_edges(nbrs, counts, node, k)[t].slot == kk);
    }
}

/// Completeness of the candidate edges: for every node below `m` with more
/// than one listed neighbor, and every slot `k` holding a later neighbor,
/// some edge joins `node` to that neighbor through slot `k`.
pub proof fn law_edge_slots_complete(
    neighbors: Seq<Seq<usize>>,
    counts: Seq<usize>,
    m: int,
    node: int,
    k: int,
)
    requires
        0 <= m <= neighbors.len() <= usize::MAX,
        forall|i: int| 0 <= i < neighbors.len() ==> (#[trigger] neighbors[i]).len() <= usize::MAX,
        0 <= node < m,
        neighbors[node].len() > 1,
        0 <= k < neighbors[node].len(),
        neighbors[node][k] > node,
    ensures
        exists|t: int|
            0 <= t < all_edges(neighbors, counts, m).len() && #[trigger] all_edges(
                neighbors,
                counts,
                m,
            )[t].slot == k && all_edges(neighbors, counts, m)[t].node == node && all_edges(
                neighbors,
                counts,
                m,
            )[t].neighbor == neighbors[node][k],
    decreases m,
{
    let prev = all_edges(neighbors, counts, m - 1);
    let here = node_edges(neighbors, counts, m - 1);
    assert(all_edges(neighbors, counts, m) == prev + here);
    if node < m - 1 {
        law_edge_slots_complete(neighbors, counts, m - 1, node, k);
        let t = choose|t: int|
            0 <= t < prev.len() && #[trigger] prev[t].slot == k && prev[t].node == node
                && prev[t].neighbor == neighbors[node][k];
        assert(all_edges(neighbors, counts, m)[t] == prev[t]);
    } else {
        lemma_row_complete(neighbors[node], counts, node, neighbors[node].len() as int, k);
        let row = row_edges(neighbors[node], counts, node, neighbors[node].len() as int);
        let t = choose|t: int|
            0 <= t < row.len() && #[trigger] row[t].slot == k && row[t].node == node
                && row[t].neighbor == neighbors[node][k];
        assert(all_edges(neighbors, counts, m)[prev.len() + t] == row[t]);
    }
}

/// The isolated nodes are, in increasing order, exactly the nodes below `m`
/// with at most one listed neighbor.
pub proof fn law_isolated_nodes(neighbors: Seq<Seq<usize>>, m: int)
    requires
        0 <= m <= neighbors.len() <= usize::MAX,
    ensures
        forall|v: usize|
            #[trigger] isolated_nodes(neighbors, m).contains(v) <==> (v < m && neighbors[v as int].len()
                <= 1),
        forall|a: int, b: int|
            0 <= a < b < isolated_nodes(neighbors, m).len() ==> isolated_nodes(neighbors, m)[a]
                < isolated_nodes(neighbors, m)[b],
        forall|a: int|
            0 <= a < isolated_nodes(neighbors, m).len() ==> #[trigger] isolated_nodes(neighbors, m)[a]
                < m,
    decreases m,
{
    if m > 0 {
        law_isolated_nodes(neighbors, m - 1);
        let prev = isolated_nodes(neighbors, m - 1);
        if neighbors[m - 1].len() <= 1 {
            let cur = prev.push((m - 1) as usize);
            assert(isolated_nodes(neighbors, m) == cur);
            assert forall|v: usize| #[trigger] cur.contains(v) <==> (v < m && neighbors[v as int].len()
                <= 1) by {
                if prev.contains(v) {
                    let t = choose|t: int| 0 <= t < prev.len() && prev[t] == v;
                    assert(cur[t] == v);
                }
                if cur.contains(v) && v != m - 1 {
                    let t = choose|t: int| 0 <= t < cur.len() && cur[t] == v;
                    assert(prev[t] == v);
                }
                if v == m - 1 {
                    assert(cur[prev.len() as int] == v);
                }
            }
            assert forall|a: int, b: int| 0 <= a < b < cur.len() implies cur[a] < cur[b] by {
                if b == prev.len() {
                    assert(prev[a] < m - 1);
                }
            }
        } else {
            assert forall|v: usize| #[trigger] prev.contains(v) <==> (v < m && neighbors[v as int].len()
                <= 1) by {
                if v == m - 1 && prev.contains(v) {
                    let t = choose|t: int| 0 <= t < prev.len() && prev[t] == v;
                    assert(prev[t] < m - 1);
                }
            }
        }
    }
}

} // verus!
