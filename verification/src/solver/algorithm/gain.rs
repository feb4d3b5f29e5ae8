use crate::solver::graph::in_memory::{abs_weight_sum, InMemoryGraph};
use crate::solver::weight::{abs, MAX_RESOLUTION, MAX_TOTAL_WEIGHT, SCALE};
use vstd::prelude::*;

verus! {

/// The label of the neighbour at adjacency position `k`.
pub open spec fn label_at(neighbors: Seq<usize>, labels: Seq<usize>, k: int) -> int {
    labels[neighbors[k] as int] as int
}

/// The weight at the positions `lo..hi` whose neighbour carries label `c`.
pub open spec fn row_weight_to(
    neighbors: Seq<usize>,
    weights: Seq<i64>,
    labels: Seq<usize>,
    c: int,
    lo: int,
    hi: int,
) -> int
    decreases hi - lo,
{
    if hi <= lo {
        0
    } else {
        row_weight_to(neighbors, weights, labels, c, lo, hi - 1) + if label_at(
            neighbors,
            labels,
            hi - 1,
        ) == c {
            weights[hi - 1] as int
        } else {
            0
        }
    }
}

/// Whether a neighbour at one of the positions `lo..hi` carries label `c`.
pub open spec fn row_touches(
    neighbors: Seq<usize>,
    labels: Seq<usize>,
    c: int,
    lo: int,
    hi: int,
) -> bool {
    exists|k: int| lo <= k < hi && #[trigger] label_at(neighbors, labels, k) == c
}

/// The weight into a label lies within the absolute weight of the positions.
pub proof fn lemma_row_weight_to_bound(
    neighbors: Seq<usize>,
    weights: Seq<i64>,
    labels: Seq<usize>,
    c: int,
    lo: int,
    hi: int,
)
    ensures
        abs(row_weight_to(neighbors, weights, labels, c, lo, hi)) <= abs_weight_sum(
            weights,
            lo,
            hi,
        ),
    decreases hi - lo,
{
    if hi > lo {
        lemma_row_weight_to_bound(neighbors, weights, labels, c, lo, hi - 1);
    }
}

/// A label that no neighbour carries receives no weight.
pub proof fn lemma_row_weight_to_untouched(
    neighbors: Seq<usize>,
    weights: Seq<i64>,
    labels: Seq<usize>,
    c: int,
    lo: int,
    hi: int,
)
    requires
        !row_touches(neighbors, labels, c, lo, hi),
    ensures
        row_weight_to(neighbors, weights, labels, c, lo, hi) == 0,
    decreases hi - lo,
{
    if hi > lo {
        assert(label_at(neighbors, labels, hi - 1) != c);
        assert(!row_touches(neighbors, labels, c, lo, hi - 1)) by {
            if row_touches(neighbors, labels, c, lo, hi - 1) {
                let k = choose|k: int|
                    lo <= k < hi - 1 && #[trigger] label_at(neighbors, labels, k) == c;
                assert(lo <= k < hi && label_at(neighbors, labels, k) == c);
            }
        }
        lemma_row_weight_to_untouched(neighbors, weights, labels, c, lo, hi - 1);
    }
}

/// What a gain is computed from, besides the graph: the labels of the nodes,
/// the summed degree of each label, the weighted degree of each node, twice
/// the total edge weight, and the resolution in millionths.
pub struct Scores {
    pub labels: Seq<usize>,
    pub label_degrees: Seq<int>,
    pub node_degrees: Seq<int>,
    pub twice_total: int,
    pub gamma: int,
}

/// The integers that a sequence of machine integers holds.
pub open spec fn ints(values: Seq<i64>) -> Seq<int> {
    Seq::new(values.len(), |i: int| values[i] as int)
}

/// Whether the scores fit a graph and are small enough for every gain to fit in 128 bits.
pub open spec fn scores_ok(graph: &InMemoryGraph, s: Scores) -> bool {
    &&& graph.wf()
    &&& s.labels.len() == graph.node_count
    &&& s.label_degrees.len() == graph.node_count
    &&& s.node_degrees.len() == graph.node_count
    &&& forall|v: int| 0 <= v < s.labels.len() ==> (#[trigger] s.labels[v]) < graph.node_count
    &&& forall|c: int|
        0 <= c < s.label_degrees.len() ==> abs(#[trigger] s.label_degrees[c]) <= MAX_TOTAL_WEIGHT
    &&& forall|v: int|
        0 <= v < s.node_degrees.len() ==> abs(#[trigger] s.node_degrees[v]) <= MAX_TOTAL_WEIGHT
    &&& abs(s.twice_total) <= MAX_TOTAL_WEIGHT
    &&& 0 <= s.gamma <= MAX_RESOLUTION
}

/// The gain of a move, scaled by the positive factor `SCALE * (2m)^2`:
/// `SCALE * 2m * (w_cand - w_cur) + gamma * d_v * (D_cur - d_v - D_cand)`.
///
/// Its sign, and the order of two gains of one node, are those of
/// `(w_cand - w_cur) / 2m + gamma * d_v * (D_cur - d_v - D_cand) / (2m)^2`.
pub open spec fn gain_formula(
    twice_total: int,
    gamma: int,
    w_cand: int,
    w_cur: int,
    d_v: int,
    deg_cur: int,
    deg_cand: int,
) -> int {
    SCALE * twice_total * (w_cand - w_cur) + gamma * d_v * (deg_cur - d_v - deg_cand)
}

/// Whether the values are small enough for a gain to fit in 128 bits.
pub open spec fn gain_in_range(
    twice_total: int,
    gamma: int,
    w_cand: int,
    w_cur: int,
    d_v: int,
    deg_cur: int,
    deg_cand: int,
) -> bool {
    &&& abs(twice_total) <= MAX_TOTAL_WEIGHT
    &&& 0 <= gamma <= MAX_RESOLUTION
    &&& abs(w_cand) <= MAX_TOTAL_WEIGHT
    &&& abs(w_cur) <= MAX_TOTAL_WEIGHT
    &&& abs(d_v) <= MAX_TOTAL_WEIGHT
    &&& abs(deg_cur) <= MAX_TOTAL_WEIGHT
    &&& abs(deg_cand) <= MAX_TOTAL_WEIGHT
}

proof fn lemma_product_bound(a: int, b: int, c: int, x: int, y: int, z: int)
    by (nonlinear_arith)
    requires
        -x <= a <= x,
        -y <= b <= y,
        -z <= c <= z,
    ensures
        -(x * y) <= a * b <= x * y,
        -(x * y * z) <= a * b * c <= x * y * z,
{
}

/// The scaled gain of a move, computed exactly.
pub fn gain_value(
    twice_total: i64,
    gamma: i64,
    w_cand: i64,
    w_cur: i64,
    d_v: i64,
    deg_cur: i64,
    deg_cand: i64,
) -> (gain: i128)
    requires
        gain_in_range(
            twice_total as int,
            gamma as int,
            w_cand as int,
            w_cur as int,
            d_v as int,
            deg_cur as int,
            deg_cand as int,
        ),
    ensures
        gain == gain_formula(
            twice_total as int,
            gamma as int,
            w_cand as int,
            w_cur as int,
            d_v as int,
            deg_cur as int,
            deg_cand as int,
        ),
{
    let dw: i64 = w_cand - w_cur;
    let dd: i64 = deg_cur - d_v - deg_cand;
    proof {
        lemma_product_bound(
            SCALE as int,
            twice_total as int,
            dw as int,
            SCALE as int,
            MAX_TOTAL_WEIGHT as int,
            2 * MAX_TOTAL_WEIGHT,
        );
        lemma_product_bound(
            gamma as int,
            d_v as int,
            dd as int,
            MAX_RESOLUTION as int,
            MAX_TOTAL_WEIGHT as int,
            3 * MAX_TOTAL_WEIGHT,
        );
        assert(SCALE * MAX_TOTAL_WEIGHT * (2 * MAX_TOTAL_WEIGHT)
            == 2_000_000_000_000_000_000_000_000_000_000_000_000int);
        assert(MAX_RESOLUTION * MAX_TOTAL_WEIGHT * (3 * MAX_TOTAL_WEIGHT)
            == 150_000_000_000_000_000_000_000_000_000_000_000_000int);
    }
    let first: i128 = (SCALE as i128) * (twice_total as i128) * (dw as i128);
    let second: i128 = (gamma as i128) * (d_v as i128) * (dd as i128);
    first + second
}

/// The weight that node `v` sends into label `c`.
pub open spec fn weight_to(graph: &InMemoryGraph, labels: Seq<usize>, v: int, c: int) -> int {
    row_weight_to(graph.neighbors@, graph.weights@, labels, c, graph.row_lo(v), graph.row_hi(v))
}

/// Whether a neighbour of `v` carries label `c`.
pub open spec fn touches(graph: &InMemoryGraph, labels: Seq<usize>, v: int, c: int) -> bool {
    row_touches(graph.neighbors@, labels, c, graph.row_lo(v), graph.row_hi(v))
}

/// Whether `c` is a label that `v` may move to: another than its own, carried by a neighbour.
pub open spec fn is_candidate(graph: &InMemoryGraph, labels: Seq<usize>, v: int, c: int) -> bool {
    c != labels[v] && touches(graph, labels, v, c)
}

/// The scaled gain of moving `v` to label `c`.
pub open spec fn gain(graph: &InMemoryGraph, s: Scores, v: int, c: int) -> int {
    gain_formula(
        s.twice_total,
        s.gamma,
        weight_to(graph, s.labels, v, c),
        weight_to(graph, s.labels, v, s.labels[v] as int),
        s.node_degrees[v],
        s.label_degrees[s.labels[v] as int],
        s.label_degrees[c],
    )
}

/// Whether `c` is the label that `v` moves to: a candidate with a positive
/// gain that no other candidate exceeds, and the smallest such label.
pub open spec fn is_best(graph: &InMemoryGraph, s: Scores, v: int, c: int) -> bool {
    &&& is_candidate(graph, s.labels, v, c)
    &&& gain(graph, s, v, c) > 0
    &&& forall|other: int| #[trigger]
        is_candidate(graph, s.labels, v, other) ==> gain(graph, s, v, other) < gain(graph, s, v, c)
            || (gain(graph, s, v, other) == gain(graph, s, v, c) && c <= other)
}

/// The label that `v` moves to, if any. With a total weight of zero nothing moves.
pub open spec fn best_target(graph: &InMemoryGraph, s: Scores, v: int) -> Option<usize> {
    if s.twice_total != 0 && exists|c: usize| is_best(graph, s, v, c as int) {
        Some(choose|c: usize| is_best(graph, s, v, c as int))
    } else {
        None
    }
}

/// At most one label is the best.
pub proof fn lemma_best_unique(graph: &InMemoryGraph, s: Scores, v: int, a: int, b: int)
    requires
        is_best(graph, s, v, a),
        is_best(graph, s, v, b),
    ensures
        a == b,
{
}

} // verus!
