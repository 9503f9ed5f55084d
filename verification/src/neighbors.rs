use vstd::prelude::*;

verus! {

/// Exact radius search among all pairs.
#[derive(Debug, Clone, Copy, Default)]
pub struct BruteForceNeighbors;

/// Whether positions `i` and `j` are neighbors: a position is its own
/// neighbor, and a pair `a < b` is close when `within[a][b]` holds (only the
/// upper triangle, where the pair is measured, is read).
pub open spec fn adjacent(within: Seq<Seq<bool>>, i: int, j: int) -> bool {
    i == j || (i < j && within[i][j]) || (j < i && within[j][i])
}

/// The pair-test table as nested sequences.
pub open spec fn table_view(t: Seq<Vec<bool>>) -> Seq<Seq<bool>> {
    t.map_values(|r: Vec<bool>| r@)
}

/// `within` is a square table of pair tests over `n` positions.
pub open spec fn is_square(within: Seq<Seq<bool>>, n: int) -> bool {
    within.len() == n && forall|i: int| 0 <= i < n ==> (#[trigger] within[i]).len() == n
}

/// `row` lists, in increasing order, exactly the neighbors of `i`.
pub open spec fn is_neighbor_row(within: Seq<Seq<bool>>, i: int, row: Seq<usize>) -> bool {
    &&& forall|a: int, b: int| 0 <= a < b < row.len() ==> row[a] < row[b]
    &&& forall|t: int| 0 <= t < row.len() ==> (#[trigger] row[t]) < within.len()
    &&& forall|j: usize| j < within.len() ==> (#[trigger] row.contains(j) <==> adjacent(within, i, j as int))
}

impl BruteForceNeighbors {
    /// Neighbor lists from the pair tests `within` (`within[i][j]` for
    /// `i < j` says that positions `i` and `j` lie within the search radius).
    pub fn neighbor_lists(&self, within: &Vec<Vec<bool>>) -> (out: Vec<Vec<usize>>)
        requires
            is_square(table_view(within@), within@.len() as int),
        ensures
            out@.len() == within@.len(),
            forall|i: int|
                0 <= i < out@.len() ==> #[trigger] is_neighbor_row(
                    table_view(within@),
                    i,
                    out@[i]@,
                ),
    {
        let ghost w = table_view(within@);
        let n = within.len();
        let mut out: Vec<Vec<usize>> = Vec::new();
        let mut i: usize = 0;
        while i < n
            invariant
                n == within@.len(),
                w == table_view(within@),
                is_square(w, n as int),
                i <= n,
                out@.len() == i,
                forall|q: int| 0 <= q < i ==> #[trigger] is_neighbor_row(w, q, out@[q]@),
            decreases n - i,
        {
            let mut row: Vec<usize> = Vec::new();
            let mut j: usize = 0;
            while j < n
                invariant
                    n == within@.len(),
                    w == table_view(within@),
                    is_square(w, n as int),
                    i < n,
                    j <= n,
                    forall|a: int, b: int| 0 <= a < b < row@.len() ==> row@[a] < row@[b],
                    forall|t: int| 0 <= t < row@.len() ==> (#[trigger] row@[t]) < j,
                    forall|v: usize|
                        v < n ==> (#[trigger] row@.contains(v) <==> v < j && adjacent(
                            w,
                            i as int,
                            v as int,
                        )),
                decreases n - j,
            {
                assert(w[i as int] == within@[i as int]@);
                assert(w[j as int] == within@[j as int]@);
                let close = if j == i {
                    true
                } else if i < j {
                    within[i][j]
                } else {
                    within[j][i]
                };
                assert(close == adjacent(w, i as int, j as int));
                let ghost prev = row@;
                if close {
                    row.push(j);
                    assert forall|v: usize|
                        v < n implies (#[trigger] row@.contains(v) <==> v < j + 1 && adjacent(
                        w,
                        i as int,
                        v as int,
                    )) by {
                        if prev.contains(v) {
                            let t = choose|t: int| 0 <= t < prev.len() && prev[t] == v;
                            assert(row@[t] == v);
                        }
                        if row@.contains(v) && v != j {
                            let t = choose|t: int| 0 <= t < row@.len() && row@[t] == v;
                            assert(prev[t] == v);
                        }
                        if v == j {
                            assert(row@[row@.len() - 1] == v);
                        }
                    }
                } else {
                    assert forall|v: usize|
                        v < n implies (#[trigger] row@.contains(v) <==> v < j + 1 && adjacent(
                        w,
                        i as int,
                        v as int,
                    )) by {
                        if v == j && row@.contains(v) {
                            let t = choose|t: int| 0 <= t < row@.len() && row@[t] == v;
                            assert(row@[t] < j);
                        }
                    }
                }
                j += 1;
            }
            out.push(row);
            proof {
                assert forall|q: int| 0 <= q < i + 1 implies #[trigger] is_neighbor_row(
                    w,
                    q,
                    out@[q]@,
                ) by {
                    if q == i {
                        assert(out@[q]@ == row@);
                    }
                }
            }
            i += 1;
        }
        out
    }
}

/// Neighborhood is symmetric: `j` is listed for `i` exactly when `i` is
/// listed for `j`.
pub proof fn law_neighbors_symmetric(
    within: Seq<Seq<bool>>,
    out: Seq<Seq<usize>>,
    i: usize,
    j: usize,
)
    requires
        out.len() == within.len(),
        forall|q: int| 0 <= q < out.len() ==> #[trigger] is_neighbor_row(within, q, out[q]),
        0 <= i < out.len(),
        0 <= j < out.len(),
    ensures
        out[i as int].contains(j) <==> out[j as int].contains(i),
        out[i as int].contains(i),
{
    assert(is_neighbor_row(within, i as int, out[i as int]));
    assert(is_neighbor_row(within, j as int, out[j as int]));
}

} // verus!
