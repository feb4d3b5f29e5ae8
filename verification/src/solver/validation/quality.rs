use crate::solver::algorithm::aggregation::lemma_abs_edge_weight_sum_part;
use crate::solver::algorithm::degrees::labels_ok;
use crate::solver::algorithm::parallel_frontier::{count_true, lemma_count_true_bounds, SharedBitVec};
use crate::solver::graph::in_memory::edge_sum;
use crate::solver::types::{abs_edge_weight_sum, edge_weight, Edge, GraphInput};
use crate::solver::weight::{abs, MAX_RESOLUTION, SCALE};
use vstd::prelude::*;

verus! {

/// Whether one of the first `upto` nodes carries label `c`.
pub open spec fn label_used(labels: Seq<usize>, c: int, upto: int) -> bool {
    exists|v: int| 0 <= v < upto && #[trigger] labels[v] == c
}

/// For every node id, whether it is the community of some node.
pub open spec fn used_labels(labels: Seq<usize>) -> Seq<bool> {
    Seq::new(labels.len(), |c: int| label_used(labels, c, labels.len() as int))
}

/// The number of communities of a partition: the ids that some node carries.
pub open spec fn community_count(labels: Seq<usize>) -> int {
    count_true(used_labels(labels), labels.len() as int)
}

/// Counts the communities of a partition.
pub fn count_communities(labels: &Vec<usize>) -> (count: usize)
    requires
        labels_ok(labels@, labels@.len() as int),
    ensures
        count == community_count(labels@),
{
    let n: usize = labels.len();
    let mut used = SharedBitVec::new(n);
    let mut v: usize = 0;
    while v < n
        invariant
            n == labels@.len(),
            labels_ok(labels@, n as int),
            v <= n,
            used.wf(),
            used@.len() == n,
            forall|c: int| 0 <= c < n ==> #[trigger] used@[c] == label_used(labels@, c, v as int),
        decreases n - v,
    {
        let c: usize = labels[v];
        let ghost before = used@;
        used.set(c);
        proof {
            let v1: int = v + 1;
            assert forall|d: int| 0 <= d < n implies #[trigger] used@[d] == label_used(
                labels@,
                d,
                v1,
            ) by {
                if label_used(labels@, d, v as int) {
                    let u = choose|u: int| 0 <= u < v && #[trigger] labels@[u] == d;
                    assert(0 <= u < v1 && labels@[u] == d);
                }
                if d == c {
                    assert(0 <= v < v1 && labels@[v as int] == d);
                }
                if label_used(labels@, d, v1) && d != c {
                    let u = choose|u: int| 0 <= u < v1 && #[trigger] labels@[u] == d;
                    assert(u != v);
                    assert(0 <= u < v && labels@[u] == d);
                }
            }
        }
        v += 1;
    }
    assert(used@ =~= used_labels(labels@));
    let mut count: usize = 0;
    let mut c: usize = 0;
    while c < n
        invariant
            n == labels@.len(),
            used.wf(),
            used@.len() == n,
            c <= n,
            count == count_true(used@, c as int),
            count <= c,
        decreases n - c,
    {
        if used.get(c) {
            count += 1;
        }
        c += 1;
    }
    count
}

/// The weight that an edge brings into label `c`: its own for each end that
/// carries `c`.
pub open spec fn end_weight(edge: Edge, labels: Seq<usize>, c: int) -> int {
    (if labels[edge.0 as int] == c {
        edge_weight(edge) as int
    } else {
        0
    }) + (if labels[edge.1 as int] == c {
        edge_weight(edge) as int
    } else {
        0
    })
}

/// The degree of community `c` by the first `upto` edges: the summed degree of its nodes.
pub open spec fn community_degree(edges: Seq<Edge>, labels: Seq<usize>, c: int, upto: int) -> int
    decreases upto,
{
    if upto <= 0 {
        0
    } else {
        community_degree(edges, labels, c, upto - 1) + end_weight(edges[upto - 1], labels, c)
    }
}

/// Twice the weight of those of the first `upto` edges that lie inside a community.
pub open spec fn inner_weight(edges: Seq<Edge>, labels: Seq<usize>, upto: int) -> int
    decreases upto,
{
    if upto <= 0 {
        0
    } else {
        inner_weight(edges, labels, upto - 1) + if labels[edges[upto - 1].0 as int]
            == labels[edges[upto - 1].1 as int] {
            2 * edge_weight(edges[upto - 1])
        } else {
            0
        }
    }
}

/// What an edge adds to the sum of the squared community degrees: its weight
/// times the degrees of the communities of its two ends.
pub open spec fn edge_product(edges: Seq<Edge>, labels: Seq<usize>, i: int) -> int {
    edge_weight(edges[i]) * (community_degree(
        edges,
        labels,
        labels[edges[i].0 as int] as int,
        edges.len() as int,
    ) + community_degree(edges, labels, labels[edges[i].1 as int] as int, edges.len() as int))
}

/// The sum over the first `upto` edges of what each adds to the sum of the
/// squared community degrees.
pub open spec fn degree_product(edges: Seq<Edge>, labels: Seq<usize>, upto: int) -> int
    decreases upto,
{
    if upto <= 0 {
        0
    } else {
        degree_product(edges, labels, upto - 1) + edge_product(edges, labels, upto - 1)
    }
}

/// Twice the total weight of the edges.
pub open spec fn twice_weight(edges: Seq<Edge>) -> int {
    2 * edge_sum(edges, false, edges.len() as int)
}

/// The sum of the squared degrees of the communities below `n`.
pub open spec fn degree_squares(edges: Seq<Edge>, labels: Seq<usize>, n: int) -> int
    decreases n,
{
    if n <= 0 {
        0
    } else {
        degree_squares(edges, labels, n - 1) + community_degree(
            edges,
            labels,
            n - 1,
            edges.len() as int,
        ) * community_degree(edges, labels, n - 1, edges.len() as int)
    }
}

/// The degrees of the communities below `n`, each times its degree by the first `upto` edges.
pub open spec fn weighed_degrees(edges: Seq<Edge>, labels: Seq<usize>, n: int, upto: int) -> int
    decreases n,
{
    if n <= 0 {
        0
    } else {
        weighed_degrees(edges, labels, n - 1, upto) + community_degree(
            edges,
            labels,
            n - 1,
            edges.len() as int,
        ) * community_degree(edges, labels, n - 1, upto)
    }
}

/// The degree of a community below `m`, and zero for any other label.
pub open spec fn degree_below(edges: Seq<Edge>, labels: Seq<usize>, c: int, m: int) -> int {
    if 0 <= c < m {
        community_degree(edges, labels, c, edges.len() as int)
    } else {
        0
    }
}

/// One more edge adds, to the weighed degrees of the communities below `m`,
/// its weight times the degrees of the communities of its ends that are below `m`.
proof fn lemma_weighed_step(edges: Seq<Edge>, labels: Seq<usize>, m: int, upto: int)
    requires
        0 <= m,
        0 < upto <= edges.len(),
    ensures
        weighed_degrees(edges, labels, m, upto) == weighed_degrees(edges, labels, m, upto - 1)
            + edge_weight(edges[upto - 1]) * (degree_below(
            edges,
            labels,
            labels[edges[upto - 1].0 as int] as int,
            m,
        ) + degree_below(edges, labels, labels[edges[upto - 1].1 as int] as int, m)),
    decreases m,
{
    if m > 0 {
        lemma_weighed_step(edges, labels, m - 1, upto);
        let c = m - 1;
        let e = edges[upto - 1];
        let w = edge_weight(e) as int;
        let d = community_degree(edges, labels, c, edges.len() as int);
        let before = community_degree(edges, labels, c, upto - 1);
        let lu = labels[e.0 as int] as int;
        let lv = labels[e.1 as int] as int;
        let first = if lu == c {
            w
        } else {
            0
        };
        let second = if lv == c {
            w
        } else {
            0
        };
        assert(community_degree(edges, labels, c, upto) == before + first + second);
        assert(d * (before + first + second) == d * before + d * first + d * second)
            by (nonlinear_arith);
        assert(d * first == w * (degree_below(edges, labels, lu, m) - degree_below(
            edges,
            labels,
            lu,
            m - 1,
        ))) by (nonlinear_arith)
            requires
                first == (if lu == c {
                    w
                } else {
                    0
                }),
                degree_below(edges, labels, lu, m) - degree_below(edges, labels, lu, m - 1) == (if lu
                    == c {
                    d
                } else {
                    0
                }),
        ;
        assert(d * second == w * (degree_below(edges, labels, lv, m) - degree_below(
            edges,
            labels,
            lv,
            m - 1,
        ))) by (nonlinear_arith)
            requires
                second == (if lv == c {
                    w
                } else {
                    0
                }),
                degree_below(edges, labels, lv, m) - degree_below(edges, labels, lv, m - 1) == (if lv
                    == c {
                    d
                } else {
                    0
                }),
        ;
        let a1 = degree_below(edges, labels, lu, m);
        let a0 = degree_below(edges, labels, lu, m - 1);
        let b1 = degree_below(edges, labels, lv, m);
        let b0 = degree_below(edges, labels, lv, m - 1);
        assert(w * (a0 + b0) + w * (a1 - a0) + w * (b1 - b0) == w * (a1 + b1)) by (nonlinear_arith);
        let now = community_degree(edges, labels, c, upto);
        assert(d * now == d * before + d * first + d * second);
        assert(weighed_degrees(edges, labels, m, upto) == weighed_degrees(edges, labels, m - 1, upto)
            + d * now);
        assert(weighed_degrees(edges, labels, m, upto - 1) == weighed_degrees(
            edges,
            labels,
            m - 1,
            upto - 1,
        ) + d * before);
        assert(weighed_degrees(edges, labels, m - 1, upto) == weighed_degrees(
            edges,
            labels,
            m - 1,
            upto - 1,
        ) + w * (a0 + b0));
    } else {
        let w = edge_weight(edges[upto - 1]) as int;
        let lu = labels[edges[upto - 1].0 as int] as int;
        let lv = labels[edges[upto - 1].1 as int] as int;
        assert(degree_below(edges, labels, lu, m) == 0);
        assert(degree_below(edges, labels, lv, m) == 0);
        assert(w * (0 + 0) == 0) by (nonlinear_arith);
    }
}

/// Without edges counted, the weighed degrees are zero.
proof fn lemma_weighed_none(edges: Seq<Edge>, labels: Seq<usize>, m: int)
    ensures
        weighed_degrees(edges, labels, m, 0) == 0,
    decreases m,
{
    if m > 0 {
        lemma_weighed_none(edges, labels, m - 1);
        assert(community_degree(edges, labels, m - 1, 0) == 0);
        let d = community_degree(edges, labels, m - 1, edges.len() as int);
        assert(d * 0 == 0) by (nonlinear_arith);
    }
}

/// The edge-wise sum over the first `upto` edges is the weighed degrees by those edges.
proof fn lemma_product_weighed(edges: Seq<Edge>, labels: Seq<usize>, n: int, upto: int)
    requires
        0 <= upto <= edges.len(),
        labels_ok(labels, n),
        forall|i: int| 0 <= i < edges.len() ==> (#[trigger] edges[i]).0 < n && edges[i].1 < n,
    ensures
        degree_product(edges, labels, upto) == weighed_degrees(edges, labels, n, upto),
    decreases upto,
{
    if upto == 0 {
        lemma_weighed_none(edges, labels, n);
    } else {
        lemma_product_weighed(edges, labels, n, upto - 1);
        lemma_weighed_step(edges, labels, n, upto);
        let e = edges[upto - 1];
        assert(e.0 < n && e.1 < n);
        assert(labels[e.0 as int] < n && labels[e.1 as int] < n);
    }
}

/// With all edges counted, the weighed degrees are the squared degrees.
proof fn lemma_weighed_all(edges: Seq<Edge>, labels: Seq<usize>, m: int)
    ensures
        weighed_degrees(edges, labels, m, edges.len() as int) == degree_squares(edges, labels, m),
    decreases m,
{
    if m > 0 {
        lemma_weighed_all(edges, labels, m - 1);
    }
}

/// The edge-wise sum is the sum of the squared community degrees.
pub proof fn lemma_product_is_squares(edges: Seq<Edge>, labels: Seq<usize>, n: int)
    requires
        labels_ok(labels, n),
        forall|i: int| 0 <= i < edges.len() ==> (#[trigger] edges[i]).0 < n && edges[i].1 < n,
    ensures
        degree_product(edges, labels, edges.len() as int) == degree_squares(edges, labels, n),
{
    lemma_product_weighed(edges, labels, n, edges.len() as int);
    lemma_weighed_all(edges, labels, n);
}

/// The modularity of a partition, times the square of twice the total weight,
/// in millionths: with `2m` for twice the total weight, `L` for
/// [`inner_weight`], `S` for the sum of the squared community degrees and the
/// resolution `gamma` in millionths, the modularity is
/// `L / 2m - (gamma / 10^6) * S / (2m)^2`.
pub open spec fn quality_numerator(edges: Seq<Edge>, labels: Seq<usize>, gamma: int) -> int {
    SCALE * twice_weight(edges) * inner_weight(edges, labels, edges.len() as int) - gamma
        * degree_squares(edges, labels, labels.len() as int)
}

/// The quotient of `a` by a positive `b`, rounded toward zero.
pub open spec fn toward_zero(a: int, b: int) -> int {
    if a >= 0 {
        a / b
    } else {
        -((-a) / b)
    }
}

/// `x` held to what an `i64` can take, but for its least value.
pub open spec fn held(x: int) -> i64 {
    if x > i64::MAX {
        i64::MAX
    } else if x < -i64::MAX {
        (-i64::MAX) as i64
    } else {
        x as i64
    }
}

/// The modularity of a partition of a graph, in millionths, rounded toward
/// zero and held to an `i64`; zero where the total weight is zero.
pub open spec fn modularity(edges: Seq<Edge>, labels: Seq<usize>, gamma: int) -> i64 {
    if twice_weight(edges) == 0 {
        0
    } else {
        held(
            toward_zero(
                quality_numerator(edges, labels, gamma),
                twice_weight(edges) * twice_weight(edges),
            ),
        )
    }
}

/// The sums of one pass over the edges: the total weight, the weight inside
/// communities, and the degree of every community.
struct EdgeSums {
    total: i64,
    inner: i64,
    degrees: Vec<i64>,
}

/// Sums the weights of the edges: all, those inside communities, and by community.
fn sum_edges(graph: &GraphInput, labels: &Vec<usize>) -> (sums: EdgeSums)
    requires
        graph.valid(),
        labels_ok(labels@, graph.node_count as int),
    ensures
        sums.total == edge_sum(graph.edges@, false, graph.edges@.len() as int),
        sums.inner == inner_weight(graph.edges@, labels@, graph.edges@.len() as int),
        sums.degrees@.len() == graph.node_count,
        forall|c: int|
            0 <= c < graph.node_count ==> (#[trigger] sums.degrees@[c]) == community_degree(
                graph.edges@,
                labels@,
                c,
                graph.edges@.len() as int,
            ),
        abs(sums.total as int) <= abs_edge_weight_sum(graph.edges@, graph.edges@.len() as int),
        abs(sums.inner as int) <= 2 * abs_edge_weight_sum(graph.edges@, graph.edges@.len() as int),
        forall|c: int|
            0 <= c < graph.node_count ==> abs((#[trigger] sums.degrees@[c]) as int) <= 2
                * abs_edge_weight_sum(graph.edges@, graph.edges@.len() as int),
{
    let n: usize = graph.node_count;
    let ghost edges = graph.edges@;
    let ghost bound = abs_edge_weight_sum(edges, edges.len() as int);
    let mut total: i64 = 0;
    let mut inner: i64 = 0;
    let mut degrees: Vec<i64> = vec![0i64; n];
    let mut i: usize = 0;
    while i < graph.edges.len()
        invariant
            graph.valid(),
            labels_ok(labels@, n as int),
            n == graph.node_count,
            edges == graph.edges@,
            bound == abs_edge_weight_sum(edges, edges.len() as int),
            i <= edges.len(),
            total == edge_sum(edges, false, i as int),
            inner == inner_weight(edges, labels@, i as int),
            degrees@.len() == n,
            forall|c: int|
                0 <= c < n ==> (#[trigger] degrees@[c]) == community_degree(edges, labels@, c, i as int),
            abs(total as int) <= abs_edge_weight_sum(edges, i as int),
            abs(inner as int) <= 2 * abs_edge_weight_sum(edges, i as int),
            forall|c: int|
                0 <= c < n ==> abs((#[trigger] degrees@[c]) as int) <= 2 * abs_edge_weight_sum(
                    edges,
                    i as int,
                ),
        decreases edges.len() - i,
    {
        let (u, v, w) = graph.edges[i];
        let weight: i64 = match w {
            Some(x) => x,
            None => SCALE,
        };
        let ghost i1: int = i + 1;
        proof {
            assert(weight == edge_weight(edges[i as int]));
            lemma_abs_edge_weight_sum_part(edges, i1, edges.len() as int);
            lemma_abs_edge_weight_sum_part(edges, i as int, i1);
            assert(abs_edge_weight_sum(edges, i1) == abs_edge_weight_sum(edges, i as int) + abs(
                weight as int,
            ));
            assert(u < n && v < n);
        }
        let lu: usize = labels[u];
        let lv: usize = labels[v];
        total = total + weight;
        if lu == lv {
            inner = inner + 2 * weight;
        }
        let ghost before = degrees@;
        let first: i64 = degrees[lu] + weight;
        degrees.set(lu, first);
        let second: i64 = degrees[lv] + weight;
        degrees.set(lv, second);
        proof {
            assert forall|c: int| 0 <= c < n implies (#[trigger] degrees@[c]) == community_degree(
                edges,
                labels@,
                c,
                i1,
            ) && abs(degrees@[c] as int) <= 2 * abs_edge_weight_sum(edges, i1) by {
                assert(degrees@[c] == before[c] + end_weight(edges[i as int], labels@, c));
            }
        }
        i += 1;
    }
    EdgeSums { total, inner, degrees }
}

/// Sums, edge by edge, the weight times the degrees of the communities of its ends.
fn sum_products(graph: &GraphInput, labels: &Vec<usize>, degrees: &Vec<i64>) -> (sum: i128)
    requires
        graph.valid(),
        labels_ok(labels@, graph.node_count as int),
        degrees@.len() == graph.node_count,
        forall|c: int|
            0 <= c < graph.node_count ==> (#[trigger] degrees@[c]) == community_degree(
                graph.edges@,
                labels@,
                c,
                graph.edges@.len() as int,
            ),
        forall|c: int|
            0 <= c < graph.node_count ==> abs((#[trigger] degrees@[c]) as int) <= 2
                * abs_edge_weight_sum(graph.edges@, graph.edges@.len() as int),
    ensures
        sum == degree_product(graph.edges@, labels@, graph.edges@.len() as int),
        abs(sum as int) <= 1_000_000_000_000_000_000_000_000_000_000,
{
    let n: usize = graph.node_count;
    let ghost edges = graph.edges@;
    let ghost bound = abs_edge_weight_sum(edges, edges.len() as int);
    let mut sum: i128 = 0;
    let mut i: usize = 0;
    assert(2 * bound <= 1_000_000_000_000_000);
    proof {
        lemma_abs_edge_weight_sum_part(edges, 0, edges.len() as int);
    }
    while i < graph.edges.len()
        invariant
            graph.valid(),
            labels_ok(labels@, n as int),
            n == graph.node_count,
            edges == graph.edges@,
            bound == abs_edge_weight_sum(edges, edges.len() as int),
            0 <= 2 * bound <= 1_000_000_000_000_000,
            degrees@.len() == n,
            forall|c: int|
                0 <= c < n ==> (#[trigger] degrees@[c]) == community_degree(
                    edges,
                    labels@,
                    c,
                    edges.len() as int,
                ),
            forall|c: int| 0 <= c < n ==> abs((#[trigger] degrees@[c]) as int) <= 2 * bound,
            i <= edges.len(),
            sum == degree_product(edges, labels@, i as int),
            abs(sum as int) <= abs_edge_weight_sum(edges, i as int) * 2_000_000_000_000_000,
            0 <= abs_edge_weight_sum(edges, i as int) <= bound,
        decreases edges.len() - i,
    {
        let (u, v, w) = graph.edges[i];
        let weight: i64 = match w {
            Some(x) => x,
            None => SCALE,
        };
        let ghost i1: int = i + 1;
        proof {
            assert(weight == edge_weight(edges[i as int]));
            lemma_abs_edge_weight_sum_part(edges, i1, edges.len() as int);
            assert(abs_edge_weight_sum(edges, i1) == abs_edge_weight_sum(edges, i as int) + abs(
                weight as int,
            ));
            assert(u < n && v < n);
        }
        let du: i64 = degrees[labels[u]];
        let dv: i64 = degrees[labels[v]];
        let both: i128 = du as i128 + dv as i128;
        proof {
            assert(abs(both as int) <= 2_000_000_000_000_000);
            assert(abs(weight as int) <= 1_000_000_000_000_000);
            assert(abs(weight as int * both as int) <= abs(weight as int) * 2_000_000_000_000_000)
                by (nonlinear_arith)
                requires
                    abs(both as int) <= 2_000_000_000_000_000,
            ;
            assert(abs_edge_weight_sum(edges, i1) * 2_000_000_000_000_000 == abs_edge_weight_sum(
                edges,
                i as int,
            ) * 2_000_000_000_000_000 + abs(weight as int) * 2_000_000_000_000_000)
                by (nonlinear_arith)
                requires
                    abs_edge_weight_sum(edges, i1) == abs_edge_weight_sum(edges, i as int) + abs(
                        weight as int,
                    ),
            ;
            assert(abs_edge_weight_sum(edges, i1) * 2_000_000_000_000_000
                <= 1_000_000_000_000_000_000_000_000_000_000) by (nonlinear_arith)
                requires
                    0 <= abs_edge_weight_sum(edges, i1) <= bound,
                    2 * bound <= 1_000_000_000_000_000,
            ;
            assert(abs(weight as int) * 2_000_000_000_000_000
                <= 2_000_000_000_000_000_000_000_000_000_000) by (nonlinear_arith)
                requires
                    abs(weight as int) <= 1_000_000_000_000_000,
            ;
            assert(weight as int * both as int == edge_product(edges, labels@, i as int));
        }
        let product: i128 = weight as i128 * both;
        sum = sum + product;
        i += 1;
    }
    proof {
        assert(abs_edge_weight_sum(edges, i as int) * 2_000_000_000_000_000
            <= 1_000_000_000_000_000_000_000_000_000_000) by (nonlinear_arith)
            requires
                0 <= abs_edge_weight_sum(edges, i as int) <= bound,
                2 * bound <= 1_000_000_000_000_000,
        ;
    }
    sum
}

/// The modularity of a partition of a graph at the resolution `gamma`, in millionths.
pub fn modularity_of(graph: &GraphInput, labels: &Vec<usize>, gamma: i64) -> (score: i64)
    requires
        graph.valid(),
        labels_ok(labels@, graph.node_count as int),
        0 <= gamma <= MAX_RESOLUTION,
    ensures
        score == modularity(graph.edges@, labels@, gamma as int),
{
    let ghost edges = graph.edges@;
    let ghost bound = abs_edge_weight_sum(edges, edges.len() as int);
    let sums = sum_edges(graph, labels);
    assert(2 * bound <= 1_000_000_000_000_000);
    if sums.total == 0 {
        return 0;
    }
    let product: i128 = sum_products(graph, labels, &sums.degrees);
    let twice: i128 = 2 * (sums.total as i128);
    let inner: i128 = sums.inner as i128;
    proof {
        assert(abs(twice as int) <= 1_000_000_000_000_000);
        assert(abs(inner as int) <= 1_000_000_000_000_000);
        assert(abs(twice as int * inner as int) <= 1_000_000_000_000_000_000_000_000_000_000)
            by (nonlinear_arith)
            requires
                abs(twice as int) <= 1_000_000_000_000_000,
                abs(inner as int) <= 1_000_000_000_000_000,
        ;
        assert(abs(gamma as int * product as int)
            <= 50_000_000 * 1_000_000_000_000_000_000_000_000_000_000) by (nonlinear_arith)
            requires
                0 <= gamma <= 50_000_000,
                abs(product as int) <= 1_000_000_000_000_000_000_000_000_000_000,
        ;
        assert(0 < twice as int * twice as int <= 1_000_000_000_000_000_000_000_000_000_000)
            by (nonlinear_arith)
            requires
                abs(twice as int) <= 1_000_000_000_000_000,
                twice != 0,
        ;
    }
    let weighed: i128 = twice * inner;
    let gained: i128 = 1_000_000 * weighed;
    let expected: i128 = (gamma as i128) * product;
    let numerator: i128 = gained - expected;
    let square: i128 = twice * twice;
    proof {
        lemma_product_is_squares(edges, labels@, graph.node_count as int);
        assert(numerator == quality_numerator(edges, labels@, gamma as int)) by (nonlinear_arith)
            requires
                numerator == 1_000_000 * (twice * inner) - gamma * product,
                quality_numerator(edges, labels@, gamma as int) == SCALE * twice * inner - gamma
                    * product,
                SCALE == 1_000_000,
        ;
        assert(square == twice_weight(edges) * twice_weight(edges));
    }
    let magnitude: u128 = if numerator < 0 {
        (-numerator) as u128
    } else {
        numerator as u128
    };
    let quotient: u128 = magnitude / (square as u128);
    let limit: u128 = 9_223_372_036_854_775_807;
    if numerator >= 0 {
        if quotient > limit {
            i64::MAX
        } else {
            quotient as i64
        }
    } else {
        if quotient > limit {
            -i64::MAX
        } else {
            -(quotient as i64)
        }
    }
}

} // verus!
