use crate::solver::types::{abs_edge_weight_sum, edge_weight, Edge, GraphInput};
use crate::solver::weight::{abs, MAX_TOTAL_WEIGHT, SCALE};
use vstd::prelude::*;

verus! {

/// The sum of `weights[lo..hi]`.
pub open spec fn weight_sum(weights: Seq<i64>, lo: int, hi: int) -> int
    decreases hi - lo,
{
    if hi <= lo {
        0
    } else {
        weight_sum(weights, lo, hi - 1) + weights[hi - 1]
    }
}

/// The sum of the absolute values of `weights[lo..hi]`.
pub open spec fn abs_weight_sum(weights: Seq<i64>, lo: int, hi: int) -> int
    decreases hi - lo,
{
    if hi <= lo {
        0
    } else {
        abs_weight_sum(weights, lo, hi - 1) + abs(weights[hi - 1] as int)
    }
}

/// A sum of absolute values is not negative.
pub proof fn lemma_abs_weight_sum_nonneg(weights: Seq<i64>, lo: int, hi: int)
    ensures
        abs_weight_sum(weights, lo, hi) >= 0,
    decreases hi - lo,
{
    if hi > lo {
        lemma_abs_weight_sum_nonneg(weights, lo, hi - 1);
    }
}

/// A sum over `lo..hi` is the sum over `lo..mid` plus the sum over `mid..hi`.
pub proof fn lemma_abs_weight_sum_split(weights: Seq<i64>, lo: int, mid: int, hi: int)
    requires
        lo <= mid <= hi,
    ensures
        abs_weight_sum(weights, lo, hi) == abs_weight_sum(weights, lo, mid) + abs_weight_sum(
            weights,
            mid,
            hi,
        ),
    decreases hi - mid,
{
    if hi > mid {
        lemma_abs_weight_sum_split(weights, lo, mid, hi - 1);
    }
}

/// The absolute weights of a part sum to no more than those of the whole.
pub proof fn lemma_abs_weight_sum_part(weights: Seq<i64>, lo: int, a: int, b: int, hi: int)
    requires
        lo <= a <= b <= hi,
    ensures
        0 <= abs_weight_sum(weights, a, b) <= abs_weight_sum(weights, lo, hi),
{
    lemma_abs_weight_sum_split(weights, lo, a, hi);
    lemma_abs_weight_sum_split(weights, a, b, hi);
    lemma_abs_weight_sum_nonneg(weights, lo, a);
    lemma_abs_weight_sum_nonneg(weights, a, b);
    lemma_abs_weight_sum_nonneg(weights, b, hi);
}

/// A sum lies within the sum of the absolute values.
pub proof fn lemma_weight_sum_bound(weights: Seq<i64>, lo: int, hi: int)
    ensures
        abs(weight_sum(weights, lo, hi)) <= abs_weight_sum(weights, lo, hi),
    decreases hi - lo,
{
    if hi > lo {
        lemma_weight_sum_bound(weights, lo, hi - 1);
    }
}

/// Whether `u` stands at one of the positions `lo..hi`.
pub open spec fn row_has(neighbors: Seq<usize>, lo: int, hi: int, u: int) -> bool {
    exists|k: int| lo <= k < hi && #[trigger] neighbors[k] == u
}

/// A weighted undirected graph in compressed sparse row form.
///
/// The neighbours of node `v` and the weights of its edges stand at the
/// positions `offsets[v] .. offsets[v + 1]`. An edge between two nodes stands
/// in the rows of both.
#[derive(Clone, Debug, PartialEq)]
pub struct InMemoryGraph {
    pub node_count: usize,
    pub offsets: Vec<usize>,
    pub degrees: Vec<usize>,
    pub neighbors: Vec<usize>,
    pub weights: Vec<i64>,
    /// Half the sum of `weights`.
    pub cached_total_weight: i64,
}

impl InMemoryGraph {
    /// The total edge weight that the graph caches: half the sum of its adjacency weights.
    pub open spec fn spec_total_weight(&self) -> int {
        self.cached_total_weight as int
    }

    /// Twice the total edge weight: the sum of all adjacency weights.
    pub open spec fn twice_total(&self) -> int {
        2 * self.spec_total_weight()
    }

    /// The number of adjacency entries.
    pub open spec fn entries(&self) -> int {
        self.neighbors@.len() as int
    }

    /// The node ids fit a dense bitset, the rows partition the adjacency, every neighbour is a node, the
    /// absolute weights sum to at most [`MAX_TOTAL_WEIGHT`], and the cached
    /// total is half the sum of the weights.
    pub open spec fn wf(&self) -> bool {
        &&& self.node_count <= usize::MAX / 8
        &&& self.offsets@.len() == self.node_count + 1
        &&& self.degrees@.len() == self.node_count
        &&& self.weights@.len() == self.neighbors@.len()
        &&& self.offsets@[0] == 0
        &&& self.offsets@[self.node_count as int] == self.neighbors@.len()
        &&& forall|a: int, b: int|
            0 <= a <= b <= self.node_count ==> self.offsets@[a] <= self.offsets@[b]
        &&& forall|v: int|
            0 <= v < self.node_count ==> (#[trigger] self.degrees@[v]) == self.offsets@[v + 1]
                - self.offsets@[v]
        &&& forall|k: int|
            0 <= k < self.neighbors@.len() ==> (#[trigger] self.neighbors@[k]) < self.node_count
        &&& abs_weight_sum(self.weights@, 0, self.entries()) <= MAX_TOTAL_WEIGHT
        &&& self.twice_total() == weight_sum(self.weights@, 0, self.entries())
    }

    /// The first adjacency position of node `v`.
    pub open spec fn row_lo(&self, v: int) -> int {
        self.offsets@[v] as int
    }

    /// The position after the last adjacency entry of node `v`.
    pub open spec fn row_hi(&self, v: int) -> int {
        self.offsets@[v + 1] as int
    }

    /// The neighbours of node `v` with the weights of the edges, in the order in which the edges were given.
    pub open spec fn row(&self, v: int) -> Seq<(usize, i64)> {
        Seq::new(
            (self.row_hi(v) - self.row_lo(v)) as nat,
            |j: int| (self.neighbors@[self.row_lo(v) + j], self.weights@[self.row_lo(v) + j]),
        )
    }

    /// Whether `u` stands in the row of `v`.
    pub open spec fn is_neighbor(&self, v: int, u: int) -> bool {
        row_has(self.neighbors@, self.row_lo(v), self.row_hi(v), u)
    }

    /// The weighted degree of node `v`: the sum of the weights in its row.
    pub open spec fn weighted_degree(&self, v: int) -> int {
        weight_sum(self.weights@, self.row_lo(v), self.row_hi(v))
    }

    /// The row of a node lies inside the adjacency.
    pub proof fn lemma_row_bounds(&self, v: int)
        requires
            self.wf(),
            0 <= v < self.node_count,
        ensures
            0 <= self.row_lo(v) <= self.row_hi(v) <= self.entries(),
            self.row_hi(v) - self.row_lo(v) == self.degrees@[v],
    {
        assert(self.offsets@[0] <= self.offsets@[v]);
        assert(self.offsets@[v] <= self.offsets@[v + 1]);
        assert(self.offsets@[v + 1] <= self.offsets@[self.node_count as int]);
    }

    /// A weighted degree lies within the graph's bound on absolute weight.
    pub proof fn lemma_weighted_degree_bound(&self, v: int)
        requires
            self.wf(),
            0 <= v < self.node_count,
        ensures
            abs(self.weighted_degree(v)) <= abs_weight_sum(self.weights@, 0, self.entries()),
            abs(self.weighted_degree(v)) <= MAX_TOTAL_WEIGHT,
    {
        self.lemma_row_bounds(v);
        lemma_weight_sum_bound(self.weights@, self.row_lo(v), self.row_hi(v));
        lemma_abs_weight_sum_part(
            self.weights@,
            0,
            self.row_lo(v),
            self.row_hi(v),
            self.entries(),
        );
    }

    /// The neighbours of `node` with the weights of the edges, in insertion order.
    pub fn neighbors(&self, node: usize) -> (pairs: Vec<(usize, i64)>)
        requires
            self.wf(),
            node < self.node_count,
        ensures
            pairs@ == self.row(node as int),
            pairs@.len() == self.degrees@[node as int],
    {
        proof {
            self.lemma_row_bounds(node as int);
        }
        let start: usize = self.offsets[node];
        let count: usize = self.degrees[node];
        let mut pairs: Vec<(usize, i64)> = Vec::with_capacity(count);
        let mut j: usize = 0;
        while j < count
            invariant
                self.wf(),
                node < self.node_count,
                start == self.row_lo(node as int),
                start + count == self.row_hi(node as int),
                self.row_hi(node as int) <= self.entries(),
                j <= count,
                pairs@.len() == j,
                forall|i: int| 0 <= i < j ==> pairs@[i] == self.row(node as int)[i],
            decreases count - j,
        {
            pairs.push((self.neighbors[start + j], self.weights[start + j]));
            j += 1;
        }
        assert(pairs@ =~= self.row(node as int));
        pairs
    }

    /// The number of adjacency entries of `node`.
    pub fn degree(&self, node: usize) -> (d: usize)
        requires
            self.wf(),
            node < self.node_count,
        ensures
            d == self.degrees@[node as int],
            d == self.row(node as int).len(),
    {
        proof {
            self.lemma_row_bounds(node as int);
        }
        self.degrees[node]
    }

    /// The total edge weight: half the sum of the adjacency weights.
    pub fn total_weight(&self) -> (total: i64)
        ensures
            total == self.spec_total_weight(),
    {
        self.cached_total_weight
    }
}

/// The neighbours that the edges give to node `v`, with the weights, in the
/// order of the edges. An edge from a node to itself gives it two entries.
pub open spec fn incident(edges: Seq<Edge>, v: int) -> Seq<(usize, i64)>
    decreases edges.len(),
{
    if edges.len() == 0 {
        Seq::empty()
    } else {
        let e = edges.last();
        let rest = incident(edges.drop_last(), v);
        let first = if e.0 == v {
            rest.push((e.1, edge_weight(e)))
        } else {
            rest
        };
        if e.1 == v {
            first.push((e.0, edge_weight(e)))
        } else {
            first
        }
    }
}

/// The weight as it counts in a sum: itself, or its absolute value.
pub open spec fn term(w: i64, absolute: bool) -> int {
    if absolute {
        abs(w as int)
    } else {
        w as int
    }
}

/// The sum of `weights[lo..hi]`, or of their absolute values.
pub open spec fn flat_sum(weights: Seq<i64>, absolute: bool, lo: int, hi: int) -> int
    decreases hi - lo,
{
    if hi <= lo {
        0
    } else {
        flat_sum(weights, absolute, lo, hi - 1) + term(weights[hi - 1], absolute)
    }
}

/// The sum of the weights of the entries, or of their absolute values.
pub open spec fn entry_sum(entries: Seq<(usize, i64)>, absolute: bool) -> int
    decreases entries.len(),
{
    if entries.len() == 0 {
        0
    } else {
        entry_sum(entries.drop_last(), absolute) + term(entries.last().1, absolute)
    }
}

/// The sum of the weights of the first `upto` edges, or of their absolute values.
pub open spec fn edge_sum(edges: Seq<Edge>, absolute: bool, upto: int) -> int
    decreases upto,
{
    if upto <= 0 {
        0
    } else {
        edge_sum(edges, absolute, upto - 1) + term(edge_weight(edges[upto - 1]), absolute)
    }
}

/// The sum of the weights in the rows of the nodes below `m`, or of their absolute values.
pub open spec fn incident_sum(edges: Seq<Edge>, absolute: bool, m: int) -> int
    decreases m,
{
    if m <= 0 {
        0
    } else {
        incident_sum(edges, absolute, m - 1) + entry_sum(incident(edges, m - 1), absolute)
    }
}

/// The number of entries in the rows of the nodes below `m`.
pub open spec fn incident_count(edges: Seq<Edge>, m: int) -> int
    decreases m,
{
    if m <= 0 {
        0
    } else {
        incident_count(edges, m - 1) + incident(edges, m - 1).len()
    }
}

pub proof fn lemma_flat_sums(weights: Seq<i64>, lo: int, hi: int)
    ensures
        flat_sum(weights, false, lo, hi) == weight_sum(weights, lo, hi),
        flat_sum(weights, true, lo, hi) == abs_weight_sum(weights, lo, hi),
    decreases hi - lo,
{
    if hi > lo {
        lemma_flat_sums(weights, lo, hi - 1);
    }
}

pub proof fn lemma_edge_sums(edges: Seq<Edge>, upto: int)
    ensures
        edge_sum(edges, true, upto) == abs_edge_weight_sum(edges, upto),
        abs(edge_sum(edges, false, upto)) <= edge_sum(edges, true, upto),
    decreases upto,
{
    if upto > 0 {
        lemma_edge_sums(edges, upto - 1);
    }
}

/// What one more edge adds to the row of a node.
proof fn lemma_incident_push(edges: Seq<Edge>, e: Edge, v: int, absolute: bool)
    ensures
        incident(edges.push(e), v).len() == incident(edges, v).len() + (if e.0 == v {
            1int
        } else {
            0int
        }) + (if e.1 == v {
            1int
        } else {
            0int
        }),
        entry_sum(incident(edges.push(e), v), absolute) == entry_sum(incident(edges, v), absolute)
            + (if e.0 == v {
            term(edge_weight(e), absolute)
        } else {
            0int
        }) + (if e.1 == v {
            term(edge_weight(e), absolute)
        } else {
            0int
        }),
        forall|j: int|
            0 <= j < incident(edges, v).len() ==> incident(edges.push(e), v)[j] == incident(
                edges,
                v,
            )[j],
{
    let all = edges.push(e);
    assert(all.drop_last() =~= edges);
    assert(all.last() == e);
    let rest = incident(edges, v);
    let w = edge_weight(e);
    if e.0 == v {
        let first = rest.push((e.1, w));
        lemma_entry_sum_push(rest, (e.1, w), absolute);
        if e.1 == v {
            lemma_entry_sum_push(first, (e.0, w), absolute);
        }
    } else if e.1 == v {
        lemma_entry_sum_push(rest, (e.0, w), absolute);
    }
}

pub proof fn lemma_entry_sum_push(entries: Seq<(usize, i64)>, entry: (usize, i64), absolute: bool)
    ensures
        entry_sum(entries.push(entry), absolute) == entry_sum(entries, absolute) + term(
            entry.1,
            absolute,
        ),
{
    let all = entries.push(entry);
    assert(all.drop_last() =~= entries);
    assert(all.last() == entry);
}

/// What one more edge adds to the rows of the nodes below `m`.
proof fn lemma_incident_sum_push(edges: Seq<Edge>, e: Edge, absolute: bool, m: int)
    requires
        0 <= m,
    ensures
        incident_sum(edges.push(e), absolute, m) == incident_sum(edges, absolute, m) + (if e.0
            < m {
            term(edge_weight(e), absolute)
        } else {
            0int
        }) + (if e.1 < m {
            term(edge_weight(e), absolute)
        } else {
            0int
        }),
        incident_count(edges.push(e), m) == incident_count(edges, m) + (if e.0 < m {
            1int
        } else {
            0int
        }) + (if e.1 < m {
            1int
        } else {
            0int
        }),
    decreases m,
{
    if m > 0 {
        lemma_incident_sum_push(edges, e, absolute, m - 1);
        lemma_incident_push(edges, e, m - 1, absolute);
    }
}

/// Every edge whose endpoints are below `m` stands twice in the rows of the nodes below `m`.
proof fn lemma_incident_sum_total(edges: Seq<Edge>, absolute: bool, m: int, upto: int)
    requires
        0 <= m,
        0 <= upto <= edges.len(),
        forall|i: int| 0 <= i < edges.len() ==> (#[trigger] edges[i]).0 < m && edges[i].1 < m,
    ensures
        incident_sum(edges.take(upto), absolute, m) == 2 * edge_sum(edges, absolute, upto),
        incident_count(edges.take(upto), m) == 2 * upto,
    decreases upto,
{
    if upto == 0 {
        lemma_incident_sum_empty(edges.take(0), absolute, m);
    } else {
        lemma_incident_sum_total(edges, absolute, m, upto - 1);
        let head = edges.take(upto - 1);
        let e = edges[upto - 1];
        assert(edges.take(upto) =~= head.push(e));
        lemma_incident_sum_push(head, e, absolute, m);
    }
}

proof fn lemma_incident_sum_empty(edges: Seq<Edge>, absolute: bool, m: int)
    requires
        edges.len() == 0,
    ensures
        incident_sum(edges, absolute, m) == 0,
        incident_count(edges, m) == 0,
    decreases m,
{
    if m > 0 {
        lemma_incident_sum_empty(edges, absolute, m - 1);
    }
}

/// The rows of the nodes below `part` hold no more entries than those of the nodes below `m`.
proof fn lemma_incident_count_part(edges: Seq<Edge>, part: int, m: int)
    requires
        0 <= part <= m,
    ensures
        0 <= incident_count(edges, part) <= incident_count(edges, m),
    decreases m - part,
{
    if part < m {
        lemma_incident_count_part(edges, part, m - 1);
    } else {
        lemma_incident_count_nonneg(edges, part);
    }
}

proof fn lemma_incident_count_nonneg(edges: Seq<Edge>, m: int)
    ensures
        0 <= incident_count(edges, m),
    decreases m,
{
    if m > 0 {
        lemma_incident_count_nonneg(edges, m - 1);
    }
}

/// The row that the first edges give to a node is the start of the row that all edges give it.
proof fn lemma_incident_prefix(edges: Seq<Edge>, v: int, part: int, upto: int)
    requires
        0 <= part <= upto <= edges.len(),
    ensures
        incident(edges.take(part), v).len() <= incident(edges.take(upto), v).len(),
        forall|j: int|
            0 <= j < incident(edges.take(part), v).len() ==> incident(edges.take(upto), v)[j]
                == incident(edges.take(part), v)[j],
    decreases upto - part,
{
    if part < upto {
        lemma_incident_prefix(edges, v, part, upto - 1);
        let head = edges.take(upto - 1);
        assert(edges.take(upto) =~= head.push(edges[upto - 1]));
        lemma_incident_push(head, edges[upto - 1], v, false);
    }
}

pub proof fn lemma_flat_sum_split(weights: Seq<i64>, absolute: bool, lo: int, mid: int, hi: int)
    requires
        lo <= mid <= hi,
    ensures
        flat_sum(weights, absolute, lo, hi) == flat_sum(weights, absolute, lo, mid) + flat_sum(
            weights,
            absolute,
            mid,
            hi,
        ),
    decreases hi - mid,
{
    if hi > mid {
        lemma_flat_sum_split(weights, absolute, lo, mid, hi - 1);
    }
}

/// The sum over the positions of a row is the sum over its entries.
pub proof fn lemma_row_sum(
    neighbors: Seq<usize>,
    weights: Seq<i64>,
    entries: Seq<(usize, i64)>,
    absolute: bool,
    lo: int,
    len: int,
)
    requires
        0 <= len <= entries.len(),
        forall|j: int| 0 <= j < entries.len() ==> weights[lo + j] == (#[trigger] entries[j]).1,
    ensures
        flat_sum(weights, absolute, lo, lo + len) == entry_sum(entries.take(len), absolute),
    decreases len,
{
    if len > 0 {
        lemma_row_sum(neighbors, weights, entries, absolute, lo, len - 1);
        assert(entries.take(len).drop_last() =~= entries.take(len - 1));
        assert(entries.take(len).last() == entries[len - 1]);
    } else {
        assert(entries.take(0).len() == 0);
    }
}

/// Whether the rows are filled with the given entries: the cursor of each row
/// stands behind its entries, and the entries stand from its offset on.
pub open spec fn filled(
    neighbors: Seq<usize>,
    weights: Seq<i64>,
    offsets: Seq<usize>,
    cursor: Seq<usize>,
    rows: Seq<Seq<(usize, i64)>>,
) -> bool {
    &&& cursor.len() == rows.len()
    &&& offsets.len() == rows.len() + 1
    &&& neighbors.len() == weights.len()
    &&& forall|x: int|
        0 <= x < rows.len() ==> (#[trigger] cursor[x]) == offsets[x] + rows[x].len() && cursor[x]
            <= offsets[x + 1]
    &&& forall|x: int, j: int|
        0 <= x < rows.len() && 0 <= j < rows[x].len() ==> neighbors[offsets[x] + j] == (
        #[trigger] rows[x][j]).0 && weights[offsets[x] + j] == rows[x][j].1
}

/// Puts one entry behind the entries of row `x`.
fn place(
    neighbors: &mut Vec<usize>,
    weights: &mut Vec<i64>,
    offsets: &Vec<usize>,
    cursor: &mut Vec<usize>,
    x: usize,
    other: usize,
    w: i64,
    Ghost(rows): Ghost<Seq<Seq<(usize, i64)>>>,
    Ghost(n): Ghost<int>,
)
    requires
        filled(old(neighbors)@, old(weights)@, offsets@, old(cursor)@, rows),
        x < rows.len(),
        other < n,
        old(cursor)@[x as int] < offsets@[x + 1],
        forall|a: int, b: int| 0 <= a <= b < offsets@.len() ==> offsets@[a] <= offsets@[b],
        offsets@[rows.len() as int] == old(neighbors)@.len(),
        forall|k: int| 0 <= k < old(neighbors)@.len() ==> (#[trigger] old(neighbors)@[k]) < n,
    ensures
        filled(
            final(neighbors)@,
            final(weights)@,
            offsets@,
            final(cursor)@,
            rows.update(x as int, rows[x as int].push((other, w))),
        ),
        final(neighbors)@.len() == old(neighbors)@.len(),
        forall|k: int| 0 <= k < final(neighbors)@.len() ==> (#[trigger] final(neighbors)@[k]) < n,
{
    let position: usize = cursor[x];
    let ghost next = rows.update(x as int, rows[x as int].push((other, w)));
    proof {
        assert(offsets@[x + 1] <= offsets@[rows.len() as int]);
        assert(cursor@[x as int] == offsets@[x as int] + rows[x as int].len());
    }
    neighbors.set(position, other);
    weights.set(position, w);
    cursor.set(x, position + 1);
    proof {
        assert forall|y: int| 0 <= y < next.len() implies (#[trigger] cursor@[y]) == offsets@[y]
            + next[y].len() && cursor@[y] <= offsets@[y + 1] by {
            assert(old(cursor)@[y] == offsets@[y] + rows[y].len());
        }
        assert forall|y: int, j: int| 0 <= y < next.len() && 0 <= j < next[y].len() implies neighbors@[offsets@[y]
            + j] == (#[trigger] next[y][j]).0 && weights@[offsets@[y] + j] == next[y][j].1 by {
            assert(old(cursor)@[y] == offsets@[y] + rows[y].len());
            if y == x && j == rows[x as int].len() {
            } else {
                assert(next[y][j] == rows[y][j]);
                if y < x {
                    assert(offsets@[y + 1] <= offsets@[x as int]);
                } else if y > x {
                    assert(offsets@[x + 1] <= offsets@[y]);
                }
                assert(offsets@[y] + j != position);
                assert(old(neighbors)@[offsets@[y] + j] == rows[y][j].0);
            }
        }
    }
}

/// The rows that the first `upto` edges give to the nodes.
pub open spec fn rows_of(edges: Seq<Edge>, node_count: nat, upto: int) -> Seq<Seq<(usize, i64)>> {
    Seq::new(node_count, |x: int| incident(edges.take(upto), x))
}

impl InMemoryGraph {
    /// Whether the graph is the adjacency of the given edges: every node has
    /// the row that the edges give it, and the total weight is that of the edges.
    pub open spec fn is_adjacency_of(&self, input: &GraphInput) -> bool {
        &&& self.node_count == input.node_count
        &&& forall|v: int|
            0 <= v < self.node_count ==> #[trigger] self.row(v) == incident(input.edges@, v)
        &&& self.spec_total_weight() == edge_sum(input.edges@, false, input.edges@.len() as int)
    }

    /// Builds the adjacency of a graph: each edge stands in the rows of both its endpoints.
    pub fn from(value: &GraphInput) -> (graph: Self)
        requires
            value.valid(),
        ensures
            graph.wf(),
            graph.is_adjacency_of(value),
            abs_weight_sum(graph.weights@, 0, graph.entries()) == 2 * abs_edge_weight_sum(
                value.edges@,
                value.edges@.len() as int,
            ),
    {
        let n: usize = value.node_count;
        let ghost edges = value.edges@;
        let ghost count = edges.len() as int;
        proof {
            assert(edges.take(count) =~= edges);
            lemma_incident_sum_total(edges, false, n as int, count);
            lemma_incident_sum_total(edges, true, n as int, count);
            lemma_edge_sums(edges, count);
        }
        let degrees = count_degrees(value);
        let offsets = prefix_offsets(value, &degrees);
        let total_entries: usize = offsets[n];
        let (neighbors, weights) = fill_rows(value, &offsets, total_entries);
        let total = sum_edge_weights(value);
        let graph = InMemoryGraph {
            node_count: n,
            offsets,
            degrees,
            neighbors,
            weights,
            cached_total_weight: total,
        };
        proof {
            let rows = rows_of(edges, n as nat, count);
            assert forall|a: int, b: int| 0 <= a <= b <= n implies graph.offsets@[a]
                <= graph.offsets@[b] by {
                lemma_incident_count_part(edges, a, b);
            }
            assert forall|v: int| 0 <= v < n implies #[trigger] graph.row(v) == incident(
                edges,
                v,
            ) by {
                assert(rows[v] == incident(edges, v));
                assert(graph.offsets@[v + 1] == graph.offsets@[v] + rows[v].len());
                assert forall|j: int| 0 <= j < rows[v].len() implies graph.row(v)[j]
                    == rows[v][j] by {
                    assert(graph.neighbors@[graph.offsets@[v] + j] == rows[v][j].0);
                }
                assert(graph.row(v) =~= rows[v]);
            }
            lemma_flat_total(graph.neighbors@, graph.weights@, graph.offsets@, edges, false, n as int);
            lemma_flat_total(graph.neighbors@, graph.weights@, graph.offsets@, edges, true, n as int);
            lemma_flat_sums(graph.weights@, 0, graph.entries());
        }
        graph
    }
}

/// The sum over the adjacency up to the row of node `m` is the sum over the rows of the nodes below `m`.
proof fn lemma_flat_total(
    neighbors: Seq<usize>,
    weights: Seq<i64>,
    offsets: Seq<usize>,
    edges: Seq<Edge>,
    absolute: bool,
    m: int,
)
    requires
        0 <= m < offsets.len(),
        offsets[0] == 0,
        forall|x: int| 0 <= x < m ==> #[trigger] offsets[x + 1] == offsets[x] + incident(edges, x).len(),
        forall|x: int, j: int|
            0 <= x < m && 0 <= j < incident(edges, x).len() ==> weights[offsets[x] + j] == (
            #[trigger] incident(edges, x)[j]).1,
    ensures
        flat_sum(weights, absolute, 0, offsets[m] as int) == incident_sum(edges, absolute, m),
    decreases m,
{
    if m > 0 {
        lemma_flat_total(neighbors, weights, offsets, edges, absolute, m - 1);
        let row = incident(edges, m - 1);
        assert(offsets[m - 1 + 1] == offsets[m - 1] + row.len());
        lemma_row_sum(neighbors, weights, row, absolute, offsets[m - 1] as int, row.len() as int);
        assert(row.take(row.len() as int) =~= row);
        lemma_flat_sum_split(weights, absolute, 0, offsets[m - 1] as int, offsets[m] as int);
    }
}

/// The number of entries that the edges give to each node.
fn count_degrees(value: &GraphInput) -> (degrees: Vec<usize>)
    requires
        value.valid(),
    ensures
        degrees@.len() == value.node_count,
        forall|x: int|
            0 <= x < value.node_count ==> #[trigger] degrees@[x] == incident(value.edges@, x).len(),
{
    let n: usize = value.node_count;
    let ghost edges = value.edges@;
    let mut degrees: Vec<usize> = vec![0usize; n];
    let mut i: usize = 0;
    proof {
        assert forall|x: int| 0 <= x < n implies incident(edges.take(0), x).len() == 0 by {
            assert(edges.take(0).len() == 0);
        }
    }
    while i < value.edges.len()
        invariant
            value.valid(),
            n == value.node_count,
            edges == value.edges@,
            i <= edges.len(),
            degrees@.len() == n,
            forall|x: int|
                0 <= x < n ==> #[trigger] degrees@[x] == incident(edges.take(i as int), x).len(),
        decreases edges.len() - i,
    {
        let (u, v, _w) = value.edges[i];
        let ghost head = edges.take(i as int);
        let ghost i1: int = i + 1;
        proof {
            assert(edges[i as int].0 == u && edges[i as int].1 == v);
            assert(edges.take(i1) =~= head.push(edges[i as int]));
            lemma_incident_sum_total(edges, false, n as int, i1);
            assert forall|x: int| 0 <= x < n implies incident(edges.take(i1), x).len() <= 2 * i1 by {
                lemma_incident_count_part(edges.take(i1), x + 1, n as int);
                lemma_incident_count_nonneg(edges.take(i1), x);
            }
            lemma_incident_push(head, edges[i as int], u as int, false);
            lemma_incident_push(head, edges[i as int], v as int, false);
        }
        let at_u: usize = degrees[u] + 1;
        degrees.set(u, at_u);
        let at_v: usize = degrees[v] + 1;
        degrees.set(v, at_v);
        proof {
            assert forall|x: int| 0 <= x < n implies #[trigger] degrees@[x] == incident(
                edges.take(i1),
                x,
            ).len() by {
                lemma_incident_push(head, edges[i as int], x, false);
            }
        }
        i += 1;
    }
    proof {
        assert(edges.take(edges.len() as int) =~= edges);
    }
    degrees
}

/// The offsets of the rows: each row starts where the row before it ends.
fn prefix_offsets(value: &GraphInput, degrees: &Vec<usize>) -> (offsets: Vec<usize>)
    requires
        value.valid(),
        degrees@.len() == value.node_count,
        forall|x: int|
            0 <= x < value.node_count ==> #[trigger] degrees@[x] == incident(value.edges@, x).len(),
        incident_count(value.edges@, value.node_count as int) == 2 * value.edges@.len(),
    ensures
        offsets@.len() == value.node_count + 1,
        forall|x: int|
            0 <= x <= value.node_count ==> #[trigger] offsets@[x] == incident_count(value.edges@, x),
{
    let n: usize = value.node_count;
    let ghost edges = value.edges@;
    let mut offsets: Vec<usize> = vec![0usize; n + 1];
    let mut x: usize = 0;
    while x < n
        invariant
            value.valid(),
            n == value.node_count,
            edges == value.edges@,
            degrees@.len() == n,
            forall|y: int| 0 <= y < n ==> #[trigger] degrees@[y] == incident(edges, y).len(),
            incident_count(edges, n as int) == 2 * edges.len(),
            offsets@.len() == n + 1,
            x <= n,
            forall|y: int| 0 <= y <= x ==> #[trigger] offsets@[y] == incident_count(edges, y),
        decreases n - x,
    {
        proof {
            lemma_incident_count_part(edges, x + 1, n as int);
        }
        let next: usize = offsets[x] + degrees[x];
        offsets.set(x + 1, next);
        x += 1;
    }
    offsets
}

/// The sum of the weights of the edges.
fn sum_edge_weights(value: &GraphInput) -> (total: i64)
    requires
        value.valid(),
    ensures
        total == edge_sum(value.edges@, false, value.edges@.len() as int),
{
    let ghost edges = value.edges@;
    let mut total: i64 = 0;
    let mut i: usize = 0;
    while i < value.edges.len()
        invariant
            value.valid(),
            edges == value.edges@,
            i <= edges.len(),
            total == edge_sum(edges, false, i as int),
        decreases edges.len() - i,
    {
        let (_u, _v, w) = value.edges[i];
        let weight: i64 = match w {
            Some(x) => x,
            None => SCALE,
        };
        proof {
            assert(weight == edge_weight(edges[i as int]));
            lemma_edge_sums(edges, i + 1);
            lemma_edge_sum_part(edges, i + 1, edges.len() as int);
            lemma_edge_sums(edges, edges.len() as int);
        }
        total = total + weight;
        i += 1;
    }
    total
}

proof fn lemma_edge_sum_part(edges: Seq<Edge>, part: int, upto: int)
    requires
        0 <= part <= upto,
    ensures
        0 <= edge_sum(edges, true, part) <= edge_sum(edges, true, upto),
    decreases upto - part,
{
    if part < upto {
        lemma_edge_sum_part(edges, part, upto - 1);
    } else {
        lemma_edge_sums(edges, part);
    }
}

/// The neighbours and weights of all rows: each edge is put into the rows of both its endpoints.
fn fill_rows(value: &GraphInput, offsets: &Vec<usize>, total_entries: usize) -> (arrays: (
    Vec<usize>,
    Vec<i64>,
))
    requires
        value.valid(),
        offsets@.len() == value.node_count + 1,
        forall|x: int|
            0 <= x <= value.node_count ==> #[trigger] offsets@[x] == incident_count(value.edges@, x),
        total_entries == offsets@[value.node_count as int],
    ensures
        arrays.0@.len() == total_entries,
        arrays.1@.len() == total_entries,
        forall|k: int| 0 <= k < total_entries ==> (#[trigger] arrays.0@[k]) < value.node_count,
        forall|x: int, j: int|
            0 <= x < value.node_count && 0 <= j < incident(value.edges@, x).len()
                ==> arrays.0@[offsets@[x] + j] == (#[trigger] incident(value.edges@, x)[j]).0
                && arrays.1@[offsets@[x] + j] == incident(value.edges@, x)[j].1,
{
    let n: usize = value.node_count;
    let ghost edges = value.edges@;
    let mut neighbors: Vec<usize> = vec![0usize; total_entries];
    let mut weights: Vec<i64> = vec![0i64; total_entries];
    let mut cursor: Vec<usize> = offsets.clone();
    let mut i: usize = 0;
    proof {
        assert(cursor@ =~= offsets@.take(n as int + 1));
        assert forall|a: int, b: int| 0 <= a <= b < offsets@.len() implies offsets@[a]
            <= offsets@[b] by {
            lemma_incident_count_part(edges, a, b);
        }
        assert forall|x: int| 0 <= x < n implies incident(edges.take(0), x).len() == 0 by {
            assert(edges.take(0).len() == 0);
        }
        if total_entries > 0 {
            lemma_incident_sum_empty(edges.take(0), false, 0);
            assert(n > 0) by {
                if n == 0 {
                    assert(offsets@[0] == incident_count(edges, 0));
                }
            }
        }
    }
    let mut cursor2: Vec<usize> = Vec::new();
    let mut x: usize = 0;
    while x < n
        invariant
            x <= n,
            offsets@.len() == n + 1,
            cursor2@.len() == x,
            forall|y: int| 0 <= y < x ==> #[trigger] cursor2@[y] == offsets@[y],
        decreases n - x,
    {
        cursor2.push(offsets[x]);
        x += 1;
    }
    cursor = cursor2;
    proof {
        assert(filled(neighbors@, weights@, offsets@, cursor@, rows_of(edges, n as nat, 0))) by {
            assert forall|y: int| 0 <= y < n implies (#[trigger] cursor@[y]) == offsets@[y]
                + rows_of(edges, n as nat, 0)[y].len() && cursor@[y] <= offsets@[y + 1] by {
                assert(offsets@[y] <= offsets@[y + 1]);
            }
        }
    }
    while i < value.edges.len()
        invariant
            value.valid(),
            n == value.node_count,
            edges == value.edges@,
            offsets@.len() == n + 1,
            forall|y: int| 0 <= y <= n ==> #[trigger] offsets@[y] == incident_count(edges, y),
            forall|a: int, b: int| 0 <= a <= b < offsets@.len() ==> offsets@[a] <= offsets@[b],
            total_entries == offsets@[n as int],
            neighbors@.len() == total_entries,
            weights@.len() == total_entries,
            i <= edges.len(),
            filled(neighbors@, weights@, offsets@, cursor@, rows_of(edges, n as nat, i as int)),
            forall|k: int| 0 <= k < total_entries ==> (#[trigger] neighbors@[k]) < n,
        decreases edges.len() - i,
    {
        let (u, v, w) = value.edges[i];
        let weight: i64 = match w {
            Some(x) => x,
            None => SCALE,
        };
        let ghost head = edges.take(i as int);
        let ghost e = edges[i as int];
        let ghost i1: int = i + 1;
        let ghost rows0 = rows_of(edges, n as nat, i as int);
        let ghost rows1 = rows0.update(u as int, rows0[u as int].push((v, weight)));
        let ghost rows2 = rows1.update(v as int, rows1[v as int].push((u, weight)));
        proof {
            assert(e.0 == u && e.1 == v && weight == edge_weight(e));
            assert(edges.take(i1) =~= head.push(e));
            lemma_incident_push(head, e, u as int, false);
            lemma_incident_push(head, e, v as int, false);
            lemma_incident_prefix(edges, u as int, i1, edges.len() as int);
            lemma_incident_prefix(edges, v as int, i1, edges.len() as int);
            assert(edges.take(edges.len() as int) =~= edges);
            assert(offsets@[u + 1] == offsets@[u as int] + incident(edges, u as int).len());
            assert(offsets@[v + 1] == offsets@[v as int] + incident(edges, v as int).len());
            assert(cursor@[u as int] == offsets@[u as int] + rows0[u as int].len());
            assert(cursor@[v as int] == offsets@[v as int] + rows0[v as int].len());
        }
        place(
            &mut neighbors,
            &mut weights,
            offsets,
            &mut cursor,
            u,
            v,
            weight,
            Ghost(rows0),
            Ghost(n as int),
        );
        proof {
            assert(cursor@[v as int] == offsets@[v as int] + rows1[v as int].len());
        }
        place(
            &mut neighbors,
            &mut weights,
            offsets,
            &mut cursor,
            v,
            u,
            weight,
            Ghost(rows1),
            Ghost(n as int),
        );
        proof {
            assert(rows2 =~= rows_of(edges, n as nat, i1)) by {
                assert forall|y: int| 0 <= y < n implies rows2[y] == incident(edges.take(i1), y) by {
                    lemma_incident_push(head, e, y, false);
                    let rest = incident(head, y);
                    assert(head.push(e).drop_last() =~= head);
                    assert(rows0[y] == rest);
                }
            }
        }
        i += 1;
    }
    proof {
        assert(edges.take(edges.len() as int) =~= edges);
        let rows = rows_of(edges, n as nat, edges.len() as int);
        assert forall|y: int, j: int|
            0 <= y < n && 0 <= j < incident(edges, y).len() implies neighbors@[offsets@[y] + j] == (
        #[trigger] incident(edges, y)[j]).0 && weights@[offsets@[y] + j] == incident(
            edges,
            y,
        )[j].1 by {
            assert(rows[y] == incident(edges, y));
            assert(neighbors@[offsets@[y] + j] == rows[y][j].0);
        }
    }
    (neighbors, weights)
}

} // verus!
