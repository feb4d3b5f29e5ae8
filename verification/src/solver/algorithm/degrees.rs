use crate::solver::algorithm::gain::{ints, scores_ok, Scores};
use crate::solver::graph::in_memory::{
    abs_weight_sum, lemma_abs_weight_sum_nonneg, lemma_abs_weight_sum_part,
    lemma_abs_weight_sum_split, lemma_weight_sum_bound, weight_sum, InMemoryGraph,
};
use crate::solver::weight::{abs, MAX_RESOLUTION, MAX_TOTAL_WEIGHT};
use vstd::prelude::*;

verus! {

/// The weighted degree of every node.
pub open spec fn graph_node_degrees(graph: &InMemoryGraph) -> Seq<int> {
    Seq::new(graph.node_count as nat, |v: int| graph.weighted_degree(v))
}

/// The summed degree of the nodes below `upto` that carry label `c`.
pub open spec fn label_degree(node_degrees: Seq<int>, labels: Seq<usize>, c: int, upto: int) -> int
    decreases upto,
{
    if upto <= 0 {
        0
    } else {
        label_degree(node_degrees, labels, c, upto - 1) + if labels[upto - 1] == c {
            node_degrees[upto - 1]
        } else {
            0
        }
    }
}

/// The sum of the absolute degrees of the nodes below `upto`.
pub open spec fn abs_degree_sum(node_degrees: Seq<int>, upto: int) -> int
    decreases upto,
{
    if upto <= 0 {
        0
    } else {
        abs_degree_sum(node_degrees, upto - 1) + abs(node_degrees[upto - 1])
    }
}

/// The summed degree of every label: entry `c` sums the weighted degrees of the nodes that carry `c`.
pub open spec fn exact_label_degrees(graph: &InMemoryGraph, labels: Seq<usize>) -> Seq<int> {
    Seq::new(
        graph.node_count as nat,
        |c: int| label_degree(graph_node_degrees(graph), labels, c, graph.node_count as int),
    )
}

/// The scores of a level: its labels, the exact degree of each label and node,
/// the graph's total weight, and the resolution.
pub open spec fn scores_of(graph: &InMemoryGraph, labels: Seq<usize>, gamma: int) -> Scores {
    Scores {
        labels,
        label_degrees: exact_label_degrees(graph, labels),
        node_degrees: graph_node_degrees(graph),
        twice_total: graph.twice_total(),
        gamma,
    }
}

/// Whether every label is a node id of a graph of `n` nodes, one label per node.
pub open spec fn labels_ok(labels: Seq<usize>, n: int) -> bool {
    labels.len() == n && forall|v: int| 0 <= v < n ==> (#[trigger] labels[v]) < n
}

/// A label's degree lies within the absolute degrees of the nodes.
pub proof fn lemma_label_degree_bound(node_degrees: Seq<int>, labels: Seq<usize>, c: int, upto: int)
    ensures
        abs(label_degree(node_degrees, labels, c, upto)) <= abs_degree_sum(node_degrees, upto),
        0 <= abs_degree_sum(node_degrees, upto),
    decreases upto,
{
    if upto > 0 {
        lemma_label_degree_bound(node_degrees, labels, c, upto - 1);
    }
}

/// The absolute degrees of the first `m` nodes lie within the absolute weight of their rows.
pub proof fn lemma_abs_degree_sum_bound(graph: &InMemoryGraph, m: int)
    requires
        graph.wf(),
        0 <= m <= graph.node_count,
    ensures
        abs_degree_sum(graph_node_degrees(graph), m) <= abs_weight_sum(
            graph.weights@,
            0,
            graph.offsets@[m] as int,
        ),
    decreases m,
{
    if m > 0 {
        lemma_abs_degree_sum_bound(graph, m - 1);
        graph.lemma_row_bounds(m - 1);
        lemma_weight_sum_bound(graph.weights@, graph.row_lo(m - 1), graph.row_hi(m - 1));
        lemma_abs_weight_sum_split(graph.weights@, 0, graph.row_lo(m - 1), graph.row_hi(m - 1));
    }
}

/// Every label's degree lies within the graph's bound on absolute weight.
pub proof fn lemma_label_degree_in_range(
    graph: &InMemoryGraph,
    labels: Seq<usize>,
    c: int,
    upto: int,
)
    requires
        graph.wf(),
        0 <= upto <= graph.node_count,
    ensures
        abs(label_degree(graph_node_degrees(graph), labels, c, upto)) <= MAX_TOTAL_WEIGHT,
{
    lemma_label_degree_bound(graph_node_degrees(graph), labels, c, upto);
    lemma_abs_degree_sum_bound(graph, upto);
    lemma_abs_weight_sum_part(
        graph.weights@,
        0,
        0,
        graph.offsets@[upto] as int,
        graph.entries(),
    );
}

/// Relabelling one node moves its degree from one label's sum to another's.
pub proof fn lemma_label_degree_update(
    node_degrees: Seq<int>,
    labels: Seq<usize>,
    v: int,
    target: usize,
    c: int,
    upto: int,
)
    requires
        0 <= v < labels.len(),
        upto <= labels.len(),
    ensures
        label_degree(node_degrees, labels.update(v, target), c, upto) == label_degree(
            node_degrees,
            labels,
            c,
            upto,
        ) + if v < upto {
            (if target == c {
                node_degrees[v]
            } else {
                0
            }) - (if labels[v] == c {
                node_degrees[v]
            } else {
                0
            })
        } else {
            0
        },
    decreases upto,
{
    if upto > 0 {
        lemma_label_degree_update(node_degrees, labels, v, target, c, upto - 1);
    }
}

/// The scores of a level are fit for the kernel.
pub proof fn lemma_scores_of_ok(graph: &InMemoryGraph, labels: Seq<usize>, gamma: int)
    requires
        graph.wf(),
        labels_ok(labels, graph.node_count as int),
        0 <= gamma <= MAX_RESOLUTION,
    ensures
        scores_ok(graph, scores_of(graph, labels, gamma)),
{
    let s = scores_of(graph, labels, gamma);
    assert forall|c: int| 0 <= c < s.label_degrees.len() implies abs(
        #[trigger] s.label_degrees[c],
    ) <= MAX_TOTAL_WEIGHT by {
        lemma_label_degree_in_range(graph, labels, c, graph.node_count as int);
    }
    assert forall|v: int| 0 <= v < s.node_degrees.len() implies abs(
        #[trigger] s.node_degrees[v],
    ) <= MAX_TOTAL_WEIGHT by {
        graph.lemma_weighted_degree_bound(v);
    }
    lemma_weight_sum_bound(graph.weights@, 0, graph.entries());
}

/// The weighted degree of every node.
pub fn compute_node_degrees(graph: &InMemoryGraph) -> (degrees: Vec<i64>)
    requires
        graph.wf(),
    ensures
        ints(degrees@) == graph_node_degrees(graph),
{
    let n: usize = graph.node_count;
    let mut node_degrees: Vec<i64> = vec![0i64; n];
    let ghost nd = graph_node_degrees(graph);
    let mut v: usize = 0;
    while v < n
        invariant
            graph.wf(),
            n == graph.node_count,
            nd == graph_node_degrees(graph),
            v <= n,
            node_degrees@.len() == n,
            forall|u: int| 0 <= u < v ==> #[trigger] node_degrees@[u] == nd[u],
        decreases n - v,
    {
        proof {
            graph.lemma_row_bounds(v as int);
        }
        let lo: usize = graph.offsets[v];
        let hi: usize = lo + graph.degrees[v];
        let mut sum: i64 = 0;
        let mut k: usize = lo;
        while k < hi
            invariant
                graph.wf(),
                lo <= k <= hi <= graph.entries(),
                sum == weight_sum(graph.weights@, lo as int, k as int),
            decreases hi - k,
        {
            proof {
                lemma_weight_sum_bound(graph.weights@, lo as int, k + 1);
                lemma_abs_weight_sum_part(graph.weights@, 0, lo as int, k + 1, graph.entries());
            }
            sum = sum + graph.weights[k];
            k += 1;
        }
        assert(sum == nd[v as int]);
        node_degrees.set(v, sum);
        v += 1;
    }
    assert(ints(node_degrees@) =~= nd);
    node_degrees
}

/// The weighted degree of every node, and the summed degree of every label.
pub fn compute_degrees(graph: &InMemoryGraph, labels: &Vec<usize>) -> (degrees: (
    Vec<i64>,
    Vec<i64>,
))
    requires
        graph.wf(),
        labels_ok(labels@, graph.node_count as int),
    ensures
        ints(degrees.0@) == graph_node_degrees(graph),
        ints(degrees.1@) == exact_label_degrees(graph, labels@),
{
    let n: usize = graph.node_count;
    let node_degrees = compute_node_degrees(graph);
    let mut label_degrees: Vec<i64> = vec![0i64; n];
    let ghost nd = graph_node_degrees(graph);
    assert(ints(node_degrees@).len() == n);
    let mut v: usize = 0;
    while v < n
        invariant
            graph.wf(),
            labels_ok(labels@, n as int),
            n == graph.node_count,
            nd == graph_node_degrees(graph),
            ints(node_degrees@) == nd,
            node_degrees@.len() == n,
            v <= n,
            label_degrees@.len() == n,
            forall|c: int|
                0 <= c < n ==> #[trigger] label_degrees@[c] == label_degree(
                    nd,
                    labels@,
                    c,
                    v as int,
                ),
        decreases n - v,
    {
        let c: usize = labels[v];
        proof {
            assert(ints(node_degrees@)[v as int] == nd[v as int]);
            lemma_label_degree_in_range(graph, labels@, c as int, v + 1);
        }
        let updated: i64 = label_degrees[c] + node_degrees[v];
        label_degrees.set(c, updated);
        v += 1;
    }
    assert(ints(label_degrees@) =~= exact_label_degrees(graph, labels@));
    (node_degrees, label_degrees)
}

/// Gives `node` the label `target`, and moves its degree from the label left to the label joined.
pub fn relabel(
    graph: &InMemoryGraph,
    labels: &mut Vec<usize>,
    label_degrees: &mut Vec<i64>,
    node_degrees: &Vec<i64>,
    node: usize,
    target: usize,
)
    requires
        graph.wf(),
        labels_ok(old(labels)@, graph.node_count as int),
        node < graph.node_count,
        target < graph.node_count,
        target != old(labels)@[node as int],
        ints(old(label_degrees)@) == exact_label_degrees(graph, old(labels)@),
        ints(node_degrees@) == graph_node_degrees(graph),
    ensures
        final(labels)@ == old(labels)@.update(node as int, target),
        labels_ok(final(labels)@, graph.node_count as int),
        ints(final(label_degrees)@) == exact_label_degrees(graph, final(labels)@),
{
    let n: usize = graph.node_count;
    let ghost nd = graph_node_degrees(graph);
    let ghost before = labels@;
    let ghost after = labels@.update(node as int, target);
    proof {
        assert(ints(node_degrees@).len() == n);
        assert(ints(label_degrees@).len() == n);
    }
    let from: usize = labels[node];
    let degree: i64 = node_degrees[node];
    proof {
        assert(ints(node_degrees@)[node as int] == nd[node as int]);
        graph.lemma_weighted_degree_bound(node as int);
        lemma_label_degree_in_range(graph, before, from as int, n as int);
        lemma_label_degree_in_range(graph, before, target as int, n as int);
        assert(ints(label_degrees@).len() == n);
        assert(ints(label_degrees@)[from as int] == exact_label_degrees(graph, before)[from as int]);
        assert(ints(label_degrees@)[target as int] == exact_label_degrees(
            graph,
            before,
        )[target as int]);
        lemma_label_degree_update(nd, before, node as int, target, from as int, n as int);
        lemma_label_degree_update(nd, before, node as int, target, target as int, n as int);
        lemma_label_degree_in_range(graph, after, from as int, n as int);
        lemma_label_degree_in_range(graph, after, target as int, n as int);
    }
    labels.set(node, target);
    assert(label_degrees@[from as int] - degree == exact_label_degrees(graph, after)[from as int]);
    let lowered: i64 = label_degrees[from] - degree;
    label_degrees.set(from, lowered);
    assert(label_degrees@[target as int] + degree == exact_label_degrees(
        graph,
        after,
    )[target as int]);
    let raised: i64 = label_degrees[target] + degree;
    label_degrees.set(target, raised);
    proof {
        assert forall|c: int| 0 <= c < n implies ints(label_degrees@)[c] == exact_label_degrees(
            graph,
            after,
        )[c] by {
            lemma_label_degree_update(nd, before, node as int, target, c, n as int);
            assert(ints(old(label_degrees)@)[c] == exact_label_degrees(graph, before)[c]);
        }
        assert(ints(label_degrees@) =~= exact_label_degrees(graph, after));
    }
}

} // verus!
