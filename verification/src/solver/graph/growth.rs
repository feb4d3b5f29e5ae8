use crate::solver::graph::in_memory::{
    abs_weight_sum, edge_sum, entry_sum, flat_sum, incident, lemma_entry_sum_push,
    lemma_flat_sum_split, lemma_flat_sums, lemma_row_sum, lemma_weight_sum_bound, weight_sum,
    InMemoryGraph,
};
use crate::solver::types::{abs_edge_weight_sum, Edge, GraphInput};
use crate::solver::weight::MAX_TOTAL_WEIGHT;
use vstd::prelude::*;

verus! {

/// The sum of the weights in the first `m` rows, or of their absolute values.
pub open spec fn rows_sum(rows: Seq<Seq<(usize, i64)>>, absolute: bool, m: int) -> int
    decreases m,
{
    if m <= 0 {
        0
    } else {
        rows_sum(rows, absolute, m - 1) + entry_sum(rows[m - 1], absolute)
    }
}

/// The sum over an adjacency up to the row of node `m` is the sum over the rows below `m`.
proof fn lemma_rows_total(
    weights: Seq<i64>,
    offsets: Seq<usize>,
    rows: Seq<Seq<(usize, i64)>>,
    absolute: bool,
    m: int,
)
    requires
        0 <= m < offsets.len(),
        offsets[0] == 0,
        forall|x: int| 0 <= x < m ==> #[trigger] offsets[x + 1] == offsets[x] + rows[x].len(),
        forall|x: int, j: int|
            0 <= x < m && 0 <= j < rows[x].len() ==> weights[offsets[x] + j] == (
            #[trigger] rows[x][j]).1,
    ensures
        flat_sum(weights, absolute, 0, offsets[m] as int) == rows_sum(rows, absolute, m),
    decreases m,
{
    if m > 0 {
        lemma_rows_total(weights, offsets, rows, absolute, m - 1);
        let row = rows[m - 1];
        assert(offsets[m - 1 + 1] == offsets[m - 1] + row.len());
        lemma_row_sum(Seq::empty(), weights, row, absolute, offsets[m - 1] as int, row.len() as int);
        assert(row.take(row.len() as int) =~= row);
        lemma_flat_sum_split(weights, absolute, 0, offsets[m - 1] as int, offsets[m] as int);
    }
}

/// The sum over two rows, one after the other, is the sum of their sums.
proof fn lemma_entry_sum_joined(a: Seq<(usize, i64)>, b: Seq<(usize, i64)>, absolute: bool)
    ensures
        entry_sum(a + b, absolute) == entry_sum(a, absolute) + entry_sum(b, absolute),
    decreases b.len(),
{
    if b.len() == 0 {
        assert(a + b =~= a);
    } else {
        lemma_entry_sum_joined(a, b.drop_last(), absolute);
        assert(a + b =~= (a + b.drop_last()).push(b.last()));
        lemma_entry_sum_push(a + b.drop_last(), b.last(), absolute);
        assert(b =~= b.drop_last().push(b.last()));
        lemma_entry_sum_push(b.drop_last(), b.last(), absolute);
    }
}

/// Where every row is one row followed by another, the sums add up.
proof fn lemma_rows_sum_joined(
    first: Seq<Seq<(usize, i64)>>,
    second: Seq<Seq<(usize, i64)>>,
    rows: Seq<Seq<(usize, i64)>>,
    absolute: bool,
    m: int,
)
    requires
        0 <= m <= rows.len(),
        first.len() == rows.len(),
        second.len() == rows.len(),
        forall|x: int| 0 <= x < m ==> #[trigger] rows[x] == first[x] + second[x],
    ensures
        rows_sum(rows, absolute, m) == rows_sum(first, absolute, m) + rows_sum(second, absolute, m),
    decreases m,
{
    if m > 0 {
        lemma_rows_sum_joined(first, second, rows, absolute, m - 1);
        assert(rows[m - 1] == first[m - 1] + second[m - 1]);
        lemma_entry_sum_joined(first[m - 1], second[m - 1], absolute);
    }
}

/// A copy of the edges.
fn copy_edges(edges: &Vec<Edge>) -> (copy: Vec<Edge>)
    ensures
        copy@ == edges@,
{
    let mut copy: Vec<Edge> = Vec::new();
    let mut i: usize = 0;
    while i < edges.len()
        invariant
            i <= edges@.len(),
            copy@ == edges@.take(i as int),
        decreases edges@.len() - i,
    {
        let edge: Edge = edges[i];
        copy.push(edge);
        assert(copy@ =~= edges@.take(i + 1));
        i += 1;
    }
    assert(edges@.take(edges@.len() as int) =~= edges@);
    copy
}

/// Puts the row of node `v` of `graph` behind what the two arrays hold.
fn append_row(neighbors: &mut Vec<usize>, weights: &mut Vec<i64>, graph: &InMemoryGraph, v: usize)
    requires
        graph.wf(),
        v < graph.node_count,
        old(neighbors)@.len() == old(weights)@.len(),
    ensures
        final(neighbors)@.len() == final(weights)@.len(),
        final(neighbors)@.len() == old(neighbors)@.len() + graph.row(v as int).len(),
        forall|k: int|
            0 <= k < old(neighbors)@.len() ==> final(neighbors)@[k] == old(neighbors)@[k]
                && final(weights)@[k] == old(weights)@[k],
        forall|j: int|
            0 <= j < graph.row(v as int).len() ==> (final(neighbors)@[old(neighbors)@.len() + j], final(weights)@[old(neighbors)@.len() + j]) == #[trigger] graph.row(v as int)[j],
        forall|k: int|
            old(neighbors)@.len() <= k < final(neighbors)@.len() ==> (#[trigger] final(neighbors)@[k])
                < graph.node_count,
{
    proof {
        graph.lemma_row_bounds(v as int);
    }
    let lo: usize = graph.offsets[v];
    let hi: usize = graph.offsets[v + 1];
    let ghost start = neighbors@.len() as int;
    let ghost row = graph.row(v as int);
    let mut k: usize = lo;
    while k < hi
        invariant
            graph.wf(),
            v < graph.node_count,
            lo == graph.offsets@[v as int],
            hi == graph.offsets@[v + 1],
            lo <= k <= hi,
            hi <= graph.neighbors@.len(),
            row == graph.row(v as int),
            row.len() == hi - lo,
            start == old(neighbors)@.len(),
            neighbors@.len() == weights@.len(),
            neighbors@.len() == start + (k - lo),
            forall|i: int|
                0 <= i < start ==> neighbors@[i] == old(neighbors)@[i] && weights@[i] == old(weights)@[i],
            forall|j: int|
                0 <= j < k - lo ==> (neighbors@[start + j], weights@[start + j]) == #[trigger] row[j],
            forall|i: int|
                start <= i < neighbors@.len() ==> (#[trigger] neighbors@[i]) < graph.node_count,
        decreases hi - k,
    {
        let u: usize = graph.neighbors[k];
        let w: i64 = graph.weights[k];
        proof {
            assert(row[k - lo] == (u, w));
            assert(graph.neighbors@[k as int] < graph.node_count);
        }
        neighbors.push(u);
        weights.push(w);
        k += 1;
    }
}

impl InMemoryGraph {
    /// Whether the graph can take the edges: twice their number fits `usize`,
    /// and the absolute weights, each edge standing twice, stay within
    /// [`MAX_TOTAL_WEIGHT`] with those of the graph.
    pub open spec fn takes(&self, edges: Seq<Edge>) -> bool {
        &&& 2 * edges.len() <= usize::MAX
        &&& abs_weight_sum(self.weights@, 0, self.entries()) + 2 * abs_edge_weight_sum(
            edges,
            edges.len() as int,
        ) <= MAX_TOTAL_WEIGHT
    }

    /// Tests whether the graph can take the edges of a change.
    pub fn can_take(&self, delta: &GraphInput) -> (ok: bool)
        requires
            self.wf(),
        ensures
            ok == self.takes(delta.edges@),
    {
        if delta.edges.len() > usize::MAX / 2 {
            return false;
        }
        let ghost total = abs_weight_sum(self.weights@, 0, self.entries());
        proof {
            crate::solver::graph::in_memory::lemma_abs_weight_sum_nonneg(
                self.weights@,
                0,
                self.entries(),
            );
        }
        let mut own: i64 = 0;
        let mut k: usize = 0;
        while k < self.weights.len()
            invariant
                self.wf(),
                total == abs_weight_sum(self.weights@, 0, self.entries()),
                k <= self.weights@.len(),
                own == abs_weight_sum(self.weights@, 0, k as int),
                0 <= own <= total,
            decreases self.weights@.len() - k,
        {
            let w: i64 = self.weights[k];
            proof {
                crate::solver::graph::in_memory::lemma_abs_weight_sum_part(
                    self.weights@,
                    0,
                    0,
                    k + 1,
                    self.entries(),
                );
            }
            let magnitude: i64 = if w < 0 {
                -w
            } else {
                w
            };
            own = own + magnitude;
            k += 1;
        }
        let room: i64 = (MAX_TOTAL_WEIGHT - own) / 2;
        crate::solver::algorithm::levels::abs_weights_within(delta, room)
    }

    /// Whether the graph is `base` with the edges added: every row is that of
    /// `base` followed by what the edges give the node, and the total weight
    /// has grown by theirs.
    pub open spec fn extends(&self, base: &InMemoryGraph, edges: Seq<Edge>) -> bool {
        &&& self.node_count == base.node_count
        &&& forall|v: int|
            0 <= v < self.node_count ==> #[trigger] self.row(v) == base.row(v) + incident(edges, v)
        &&& self.spec_total_weight() == base.spec_total_weight() + edge_sum(
            edges,
            false,
            edges.len() as int,
        )
    }

    /// The rows of the graph.
    pub open spec fn rows(&self) -> Seq<Seq<(usize, i64)>> {
        Seq::new(self.node_count as nat, |x: int| self.row(x))
    }

    /// The sums over the adjacency are the sums over the rows.
    pub proof fn lemma_sums_by_rows(&self)
        requires
            self.wf(),
        ensures
            weight_sum(self.weights@, 0, self.entries()) == rows_sum(
                self.rows(),
                false,
                self.node_count as int,
            ),
            abs_weight_sum(self.weights@, 0, self.entries()) == rows_sum(
                self.rows(),
                true,
                self.node_count as int,
            ),
    {
        let rows = self.rows();
        let n = self.node_count as int;
        assert forall|x: int| 0 <= x < n implies #[trigger] self.offsets@[x + 1] == self.offsets@[x]
            + rows[x].len() by {
            self.lemma_row_bounds(x);
        }
        assert forall|x: int, j: int| 0 <= x < n && 0 <= j < rows[x].len() implies self.weights@[self.offsets@[x]
            + j] == (#[trigger] rows[x][j]).1 by {
            self.lemma_row_bounds(x);
        }
        lemma_rows_total(self.weights@, self.offsets@, rows, false, n);
        lemma_rows_total(self.weights@, self.offsets@, rows, true, n);
        lemma_flat_sums(self.weights@, 0, self.entries());
    }

    /// The graph with the edges of a change added: each stands behind the
    /// entries that the rows of its two endpoints hold.
    pub fn extended(&self, delta: &GraphInput) -> (grown: InMemoryGraph)
        requires
            self.wf(),
            forall|i: int|
                0 <= i < delta.edges@.len() ==> (#[trigger] delta.edges@[i]).0 < self.node_count
                    && delta.edges@[i].1 < self.node_count,
            self.takes(delta.edges@),
        ensures
            grown.wf(),
            grown.extends(self, delta.edges@),
            abs_weight_sum(grown.weights@, 0, grown.entries()) == abs_weight_sum(
                self.weights@,
                0,
                self.entries(),
            ) + 2 * abs_edge_weight_sum(delta.edges@, delta.edges@.len() as int),
    {
        let n: usize = self.node_count;
        proof {
            crate::solver::graph::in_memory::lemma_abs_weight_sum_nonneg(
                self.weights@,
                0,
                self.entries(),
            );
        }
        let local = GraphInput {
            dataset_id: String::new(),
            node_count: n,
            edges: copy_edges(&delta.edges),
        };
        let added = InMemoryGraph::from(&local);
        let ghost rows = Seq::new(n as nat, |x: int| self.row(x) + added.row(x));
        let mut offsets: Vec<usize> = Vec::new();
        let mut degrees: Vec<usize> = Vec::new();
        let mut neighbors: Vec<usize> = Vec::new();
        let mut weights: Vec<i64> = Vec::new();
        let mut v: usize = 0;
        while v < n
            invariant
                self.wf(),
                added.wf(),
                n == self.node_count,
                added.node_count == n,
                rows == Seq::new(n as nat, |x: int| self.row(x) + added.row(x)),
                v <= n,
                offsets@.len() == v,
                degrees@.len() == v,
                neighbors@.len() == weights@.len(),
                neighbors@.len() == self.offsets@[v as int] + added.offsets@[v as int],
                forall|x: int|
                    0 <= x < v ==> (#[trigger] offsets@[x]) == self.offsets@[x] + added.offsets@[x],
                forall|x: int|
                    0 <= x < v ==> (#[trigger] degrees@[x]) == rows[x].len(),
                forall|k: int| 0 <= k < neighbors@.len() ==> (#[trigger] neighbors@[k]) < n,
                forall|x: int, j: int|
                    0 <= x < v && 0 <= j < rows[x].len() ==> (neighbors@[self.offsets@[x]
                        + added.offsets@[x] + j], weights@[self.offsets@[x] + added.offsets@[x] + j])
                        == #[trigger] rows[x][j],
            decreases n - v,
        {
            proof {
                self.lemma_row_bounds(v as int);
                added.lemma_row_bounds(v as int);
            }
            let start: usize = neighbors.len();
            offsets.push(start);
            let ghost before_n = neighbors@;
            let ghost before_w = weights@;
            append_row(&mut neighbors, &mut weights, self, v);
            let ghost middle_n = neighbors@;
            let ghost middle_w = weights@;
            append_row(&mut neighbors, &mut weights, &added, v);
            degrees.push(neighbors.len() - start);
            proof {
                let own = self.row(v as int);
                let more = added.row(v as int);
                assert(rows[v as int] == own + more);
                assert forall|k: int| 0 <= k < neighbors@.len() implies (#[trigger] neighbors@[k])
                    < n by {
                    if k < start {
                        assert(neighbors@[k] == middle_n[k]);
                        assert(middle_n[k] == before_n[k]);
                    } else if k < start + own.len() {
                        assert(neighbors@[k] == middle_n[k]);
                        assert(middle_n[k] < n);
                    }
                }
                assert forall|x: int, j: int| 0 <= x < v + 1 && 0 <= j < rows[x].len() implies (
                    neighbors@[self.offsets@[x] + added.offsets@[x] + j],
                    weights@[self.offsets@[x] + added.offsets@[x] + j],
                ) == #[trigger] rows[x][j] by {
                    if x < v {
                        self.lemma_row_bounds(x);
                        added.lemma_row_bounds(x);
                        assert(self.offsets@[x + 1] <= self.offsets@[v as int]);
                        assert(added.offsets@[x + 1] <= added.offsets@[v as int]);
                        let k = self.offsets@[x] + added.offsets@[x] + j;
                        assert(k < start);
                        assert(neighbors@[k] == middle_n[k] && weights@[k] == middle_w[k]);
                        assert(middle_n[k] == before_n[k] && middle_w[k] == before_w[k]);
                    } else {
                        if j < own.len() {
                            assert(rows[x][j] == own[j]);
                            assert((middle_n[start + j], middle_w[start + j]) == own[j]);
                            assert(neighbors@[start + j] == middle_n[start + j]);
                            assert(weights@[start + j] == middle_w[start + j]);
                        } else {
                            let i = j - own.len();
                            assert(rows[x][j] == more[i]);
                            assert((neighbors@[middle_n.len() + i], weights@[middle_n.len() + i])
                                == more[i]);
                        }
                    }
                }
            }
            v += 1;
        }
        offsets.push(neighbors.len());
        let total: i64 = {
            proof {
                lemma_weight_sum_bound(self.weights@, 0, self.entries());
                lemma_weight_sum_bound(added.weights@, 0, added.entries());
            }
            self.cached_total_weight + added.cached_total_weight
        };
        let grown = InMemoryGraph {
            node_count: n,
            offsets,
            degrees,
            neighbors,
            weights,
            cached_total_weight: total,
        };
        proof {
            assert forall|x: int| 0 <= x <= n implies (#[trigger] grown.offsets@[x]) == self.offsets@[x]
                + added.offsets@[x] by {}
            assert forall|a: int, b: int| 0 <= a <= b <= n implies grown.offsets@[a]
                <= grown.offsets@[b] by {
                assert(self.offsets@[a] <= self.offsets@[b]);
                assert(added.offsets@[a] <= added.offsets@[b]);
            }
            assert forall|x: int| 0 <= x < n implies #[trigger] grown.row(x) == rows[x] by {
                self.lemma_row_bounds(x);
                added.lemma_row_bounds(x);
                assert(grown.row(x).len() == rows[x].len());
                assert forall|j: int| 0 <= j < rows[x].len() implies grown.row(x)[j]
                    == rows[x][j] by {
                    assert((grown.neighbors@[self.offsets@[x] + added.offsets@[x] + j], grown.weights@[
                        self.offsets@[x] + added.offsets@[x] + j]) == rows[x][j]);
                }
                assert(grown.row(x) =~= rows[x]);
            }
            assert forall|x: int| 0 <= x < n implies (#[trigger] grown.degrees@[x])
                == grown.offsets@[x + 1] - grown.offsets@[x] by {
                self.lemma_row_bounds(x);
                added.lemma_row_bounds(x);
            }
            assert(grown.rows() =~= rows);
            self.lemma_sums_by_rows();
            added.lemma_sums_by_rows();
            lemma_rows_sum_joined(self.rows(), added.rows(), rows, false, n as int);
            lemma_rows_sum_joined(self.rows(), added.rows(), rows, true, n as int);
            assert forall|x: int| 0 <= x < n implies #[trigger] grown.offsets@[x + 1]
                == grown.offsets@[x] + rows[x].len() by {
                self.lemma_row_bounds(x);
                added.lemma_row_bounds(x);
            }
            assert forall|x: int, j: int| 0 <= x < n && 0 <= j < rows[x].len() implies grown.weights@[grown.offsets@[x]
                + j] == (#[trigger] rows[x][j]).1 by {
                assert((grown.neighbors@[self.offsets@[x] + added.offsets@[x] + j], grown.weights@[
                    self.offsets@[x] + added.offsets@[x] + j]) == rows[x][j]);
            }
            lemma_rows_total(grown.weights@, grown.offsets@, rows, false, n as int);
            lemma_rows_total(grown.weights@, grown.offsets@, rows, true, n as int);
            lemma_flat_sums(grown.weights@, 0, grown.entries());
            assert forall|x: int| 0 <= x < n implies #[trigger] grown.row(x) == self.row(x)
                + incident(delta.edges@, x) by {
                assert(added.row(x) == incident(local.edges@, x));
            }
        }
        grown
    }
}

} // verus!
