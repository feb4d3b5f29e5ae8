use crate::solver::algorithm::degrees::{
    graph_node_degrees, label_degree, lemma_label_degree_in_range, lemma_label_degree_update,
};
use crate::solver::algorithm::gain::{
    gain_formula, gain_value, ints, label_at, lemma_row_weight_to_bound,
    lemma_row_weight_to_untouched, row_touches, row_weight_to, touches, weight_to,
};
use crate::solver::graph::in_memory::{lemma_abs_weight_sum_part, InMemoryGraph};
use crate::solver::weight::{abs, MAX_RESOLUTION, MAX_TOTAL_WEIGHT};
use crate::solver::algorithm::components::distinct;
use crate::solver::algorithm::parallel_frontier::{
    lemma_lists_ones_unique, list_has, lists_ones, ones_of, SharedBitVec,
};
use crate::solver::algorithm::sorting::{
    key_low, lemma_pair_key_halves, lemma_pair_key_order, make_key, pair_key, sort_keys,
    sorted_keys, split_key,
};
use std::collections::HashMap;
use vstd::prelude::*;
use vstd::std_specs::hash::group_hash_axioms;

verus! {

broadcast use group_hash_axioms;

/// The sub-community of each node of community `home`; the other nodes carry
/// `usize::MAX`, which is no sub-community.
pub open spec fn within(comm: Seq<usize>, sub: Seq<usize>, home: int) -> Seq<usize> {
    Seq::new(
        sub.len(),
        |u: int|
            if comm[u] == home {
                sub[u]
            } else {
                usize::MAX
            },
    )
}

/// The number of nodes below `upto` that carry label `c`.
pub open spec fn label_count(labels: Seq<usize>, c: int, upto: int) -> int
    decreases upto,
{
    if upto <= 0 {
        0
    } else {
        label_count(labels, c, upto - 1) + if labels[upto - 1] == c {
            1int
        } else {
            0int
        }
    }
}

/// A count lies between zero and the number of nodes counted.
pub proof fn lemma_label_count_bounds(labels: Seq<usize>, c: int, upto: int)
    requires
        0 <= upto,
    ensures
        0 <= label_count(labels, c, upto) <= upto,
    decreases upto,
{
    if upto > 0 {
        lemma_label_count_bounds(labels, c, upto - 1);
    }
}

/// Relabelling one node takes it from one label's count and adds it to another's.
pub proof fn lemma_label_count_update(labels: Seq<usize>, v: int, target: usize, c: int, upto: int)
    requires
        0 <= v < labels.len(),
        upto <= labels.len(),
    ensures
        label_count(labels.update(v, target), c, upto) == label_count(labels, c, upto) + if v
            < upto {
            (if target == c {
                1int
            } else {
                0int
            }) - (if labels[v] == c {
                1int
            } else {
                0int
            })
        } else {
            0int
        },
    decreases upto,
{
    if upto > 0 {
        lemma_label_count_update(labels, v, target, c, upto - 1);
    }
}

/// The label of a node is carried at least once.
pub proof fn lemma_label_count_positive(labels: Seq<usize>, v: int, upto: int)
    requires
        0 <= v < upto <= labels.len(),
    ensures
        label_count(labels, labels[v] as int, upto) >= 1,
    decreases upto,
{
    lemma_label_count_bounds(labels, labels[v] as int, upto - 1);
    if v < upto - 1 {
        lemma_label_count_positive(labels, v, upto - 1);
    }
}

/// The scaled gain of moving `v` into sub-community `c`, counting only the
/// weight to neighbours of its own community.
pub open spec fn merge_gain(
    graph: &InMemoryGraph,
    comm: Seq<usize>,
    sub: Seq<usize>,
    gamma: int,
    v: int,
    c: int,
) -> int {
    let inner = within(comm, sub, comm[v] as int);
    let degrees = graph_node_degrees(graph);
    gain_formula(
        graph.twice_total(),
        gamma,
        weight_to(graph, inner, v, c),
        weight_to(graph, inner, v, sub[v] as int),
        degrees[v],
        label_degree(degrees, sub, sub[v] as int, graph.node_count as int),
        label_degree(degrees, sub, c, graph.node_count as int),
    )
}

/// Whether `c` is a sub-community that `v` may join: another than its own,
/// carried by a neighbour of its own community.
pub open spec fn is_merge_candidate(
    graph: &InMemoryGraph,
    comm: Seq<usize>,
    sub: Seq<usize>,
    v: int,
    c: int,
) -> bool {
    c != sub[v] && c != usize::MAX && touches(graph, within(comm, sub, comm[v] as int), v, c)
}

/// Whether `c` is the sub-community that `v` joins: a candidate with a positive
/// gain that no other candidate exceeds, and the smallest such id.
pub open spec fn is_best_merge(
    graph: &InMemoryGraph,
    comm: Seq<usize>,
    sub: Seq<usize>,
    gamma: int,
    v: int,
    c: int,
) -> bool {
    &&& is_merge_candidate(graph, comm, sub, v, c)
    &&& merge_gain(graph, comm, sub, gamma, v, c) > 0
    &&& forall|other: int| #[trigger]
        is_merge_candidate(graph, comm, sub, v, other) ==> merge_gain(
            graph,
            comm,
            sub,
            gamma,
            v,
            other,
        ) < merge_gain(graph, comm, sub, gamma, v, c) || (merge_gain(
            graph,
            comm,
            sub,
            gamma,
            v,
            other,
        ) == merge_gain(graph, comm, sub, gamma, v, c) && c <= other)
}

/// Whether `v` is alone in its sub-community.
pub open spec fn is_singleton(sub: Seq<usize>, v: int) -> bool {
    label_count(sub, sub[v] as int, sub.len() as int) == 1
}

/// The sub-community that `v` joins, if any. Only a node that is alone in its
/// sub-community joins another, and with a total weight of zero none does.
pub open spec fn merge_target(
    graph: &InMemoryGraph,
    comm: Seq<usize>,
    sub: Seq<usize>,
    gamma: int,
    v: int,
) -> Option<usize> {
    if graph.twice_total() != 0 && is_singleton(sub, v) && exists|c: usize|
        is_best_merge(graph, comm, sub, gamma, v, c as int) {
        Some(choose|c: usize| is_best_merge(graph, comm, sub, gamma, v, c as int))
    } else {
        None
    }
}

/// The weight that a table holds for a key: zero where it holds none.
pub open spec fn weight_or_zero(table: Map<usize, i64>, key: usize) -> int {
    if table.contains_key(key) {
        table[key] as int
    } else {
        0
    }
}

/// The count that a table holds for a key: zero where it holds none.
pub open spec fn count_or_zero(table: Map<usize, usize>, key: usize) -> int {
    if table.contains_key(key) {
        table[key] as int
    } else {
        0
    }
}

/// Whether the table holds the summed degree of every sub-community.
pub open spec fn degrees_exact(table: Map<usize, i64>, graph: &InMemoryGraph, sub: Seq<usize>) -> bool {
    forall|c: usize| #[trigger]
        weight_or_zero(table, c) == label_degree(
            graph_node_degrees(graph),
            sub,
            c as int,
            graph.node_count as int,
        )
}

/// Whether the table holds the size of every sub-community.
pub open spec fn sizes_exact(table: Map<usize, usize>, sub: Seq<usize>) -> bool {
    forall|c: usize| #[trigger] count_or_zero(table, c) == label_count(sub, c as int, sub.len() as int)
}

/// The weight that the table holds for `key`.
pub fn weight_of(table: &HashMap<usize, i64>, key: usize) -> (w: i64)
    ensures
        w == weight_or_zero(table@, key),
{
    match table.get(&key) {
        Some(w) => *w,
        None => 0,
    }
}

/// The count that the table holds for `key`.
pub fn count_of(table: &HashMap<usize, usize>, key: usize) -> (c: usize)
    ensures
        c == count_or_zero(table@, key),
{
    match table.get(&key) {
        Some(c) => *c,
        None => 0,
    }
}

/// Whether every sub-community id is below `usize::MAX`.
pub open spec fn ids_below_max(sub: Seq<usize>) -> bool {
    forall|v: int| 0 <= v < sub.len() ==> (#[trigger] sub[v]) < usize::MAX
}

/// The summed degree and the size of every sub-community.
pub fn sub_tables(graph: &InMemoryGraph, sub: &Vec<usize>, node_degrees: &Vec<i64>) -> (tables: (
    HashMap<usize, i64>,
    HashMap<usize, usize>,
))
    requires
        graph.wf(),
        sub@.len() == graph.node_count,
        ints(node_degrees@) == graph_node_degrees(graph),
    ensures
        degrees_exact(tables.0@, graph, sub@),
        sizes_exact(tables.1@, sub@),
{
    let n: usize = graph.node_count;
    let ghost nd = graph_node_degrees(graph);
    let mut degrees: HashMap<usize, i64> = HashMap::new();
    let mut sizes: HashMap<usize, usize> = HashMap::new();
    let mut v: usize = 0;
    while v < n
        invariant
            graph.wf(),
            n == graph.node_count,
            sub@.len() == n,
            nd == graph_node_degrees(graph),
            ints(node_degrees@) == nd,
            v <= n,
            forall|c: usize| #[trigger]
                weight_or_zero(degrees@, c) == label_degree(nd, sub@, c as int, v as int),
            forall|c: usize| #[trigger]
                count_or_zero(sizes@, c) == label_count(sub@, c as int, v as int),
        decreases n - v,
    {
        let s: usize = sub[v];
        proof {
            assert(ints(node_degrees@).len() == n);
            assert(ints(node_degrees@)[v as int] == nd[v as int]);
            lemma_label_degree_in_range(graph, sub@, s as int, v + 1);
            lemma_label_count_bounds(sub@, s as int, v as int);
            assert(weight_or_zero(degrees@, s) == label_degree(nd, sub@, s as int, v as int));
            assert(count_or_zero(sizes@, s) == label_count(sub@, s as int, v as int));
        }
        let ghost degrees_before = degrees@;
        let ghost sizes_before = sizes@;
        let d: i64 = weight_of(&degrees, s) + node_degrees[v];
        degrees.insert(s, d);
        let k: usize = count_of(&sizes, s) + 1;
        sizes.insert(s, k);
        proof {
            let v1: int = v + 1;
            assert forall|c: usize| #[trigger]
                weight_or_zero(degrees@, c) == label_degree(nd, sub@, c as int, v1) by {
                assert(weight_or_zero(degrees_before, c) == label_degree(
                    nd,
                    sub@,
                    c as int,
                    v as int,
                ));
            }
            assert forall|c: usize| #[trigger]
                count_or_zero(sizes@, c) == label_count(sub@, c as int, v1) by {
                assert(count_or_zero(sizes_before, c) == label_count(sub@, c as int, v as int));
            }
        }
        v += 1;
    }
    (degrees, sizes)
}

/// Whether some node carries label `c`.
pub open spec fn label_in_use(labels: Seq<usize>, c: usize) -> bool {
    exists|u: int| 0 <= u < labels.len() && #[trigger] labels[u] == c
}

/// At most one sub-community is the best to join.
pub proof fn lemma_best_merge_unique(
    graph: &InMemoryGraph,
    comm: Seq<usize>,
    sub: Seq<usize>,
    gamma: int,
    v: int,
    a: int,
    b: int,
)
    requires
        is_best_merge(graph, comm, sub, gamma, v, a),
        is_best_merge(graph, comm, sub, gamma, v, b),
    ensures
        a == b,
{
}

/// Whether the accumulator holds, for the positions `lo..upto` of a row, the
/// weight into every sub-community that a neighbour of community `home` carries.
pub open spec fn gathered(
    acc: Map<usize, i64>,
    keys: Seq<usize>,
    neighbors: Seq<usize>,
    weights: Seq<i64>,
    inner: Seq<usize>,
    lo: int,
    upto: int,
) -> bool {
    &&& forall|c: usize|
        c != usize::MAX ==> #[trigger] weight_or_zero(acc, c) == row_weight_to(
            neighbors,
            weights,
            inner,
            c as int,
            lo,
            upto,
        )
    &&& forall|c: usize| #[trigger]
        acc.contains_key(c) <==> c != usize::MAX && row_touches(neighbors, inner, c as int, lo, upto)
    &&& forall|c: usize| #[trigger] acc.contains_key(c) ==> keys.contains(c)
    &&& forall|i: int| 0 <= i < keys.len() ==> acc.contains_key(#[trigger] keys[i])
}

/// Gathers the weight that `node` sends into each sub-community of its own community.
fn gather_inner_weights(
    graph: &InMemoryGraph,
    node: usize,
    node_to_community: &Vec<usize>,
    node_to_subcommunity: &Vec<usize>,
) -> (found: (HashMap<usize, i64>, Vec<usize>))
    requires
        graph.wf(),
        node < graph.node_count,
        node_to_community@.len() == graph.node_count,
        node_to_subcommunity@.len() == graph.node_count,
        ids_below_max(node_to_subcommunity@),
    ensures
        gathered(
            found.0@,
            found.1@,
            graph.neighbors@,
            graph.weights@,
            within(node_to_community@, node_to_subcommunity@, node_to_community@[node as int] as int),
            graph.row_lo(node as int),
            graph.row_hi(node as int),
        ),
{
    proof {
        graph.lemma_row_bounds(node as int);
    }
    let n: usize = graph.node_count;
    let lo: usize = graph.offsets[node];
    let hi: usize = lo + graph.degrees[node];
    let home: usize = node_to_community[node];
    let ghost nbr = graph.neighbors@;
    let ghost wts = graph.weights@;
    let ghost inner = within(node_to_community@, node_to_subcommunity@, home as int);
    let mut acc: HashMap<usize, i64> = HashMap::new();
    let mut keys: Vec<usize> = Vec::new();
    let mut k: usize = lo;
    proof {
        assert forall|c: usize| !row_touches(nbr, inner, c as int, lo as int, lo as int) by {}
    }
    while k < hi
        invariant
            graph.wf(),
            n == graph.node_count,
            nbr == graph.neighbors@,
            wts == graph.weights@,
            node_to_community@.len() == n,
            node_to_subcommunity@.len() == n,
            ids_below_max(node_to_subcommunity@),
            inner == within(node_to_community@, node_to_subcommunity@, home as int),
            lo <= k <= hi <= graph.entries(),
            gathered(acc@, keys@, nbr, wts, inner, lo as int, k as int),
        decreases hi - k,
    {
        let u: usize = graph.neighbors[k];
        let w: i64 = graph.weights[k];
        let ghost acc_before = acc@;
        let ghost keys_before = keys@;
        let ghost k1: int = k + 1;
        if node_to_community[u] == home {
            let c: usize = node_to_subcommunity[u];
            proof {
                assert(inner[u as int] == c);
                assert(label_at(nbr, inner, k as int) == c);
                lemma_row_weight_to_bound(nbr, wts, inner, c as int, lo as int, k1);
                lemma_abs_weight_sum_part(wts, 0, lo as int, k1, graph.entries());
                assert(weight_or_zero(acc@, c) == row_weight_to(
                    nbr,
                    wts,
                    inner,
                    c as int,
                    lo as int,
                    k as int,
                ));
            }
            let known: bool = acc.contains_key(&c);
            let sum: i64 = weight_of(&acc, c) + w;
            acc.insert(c, sum);
            if !known {
                keys.push(c);
                assert(keys@[keys_before.len() as int] == c);
            }
            proof {
                assert forall|x: usize| #[trigger] acc@.contains_key(x) implies keys@.contains(
                    x,
                ) by {
                    if x == c {
                        if known {
                            assert(keys_before.contains(c));
                            let i = choose|i: int| 0 <= i < keys_before.len() && keys_before[i] == c;
                            assert(keys@[i] == c);
                        }
                    } else {
                        assert(acc_before.contains_key(x));
                        assert(keys_before.contains(x));
                        let i = choose|i: int| 0 <= i < keys_before.len() && keys_before[i] == x;
                        assert(keys@[i] == x);
                    }
                }
                assert forall|i: int| 0 <= i < keys@.len() implies acc@.contains_key(
                    #[trigger] keys@[i],
                ) by {
                    if i < keys_before.len() {
                        assert(acc_before.contains_key(keys_before[i]));
                    }
                }
            }
        }
        proof {
            let label = label_at(nbr, inner, k as int);
            assert forall|x: usize| row_touches(nbr, inner, x as int, lo as int, k1) == (
            row_touches(nbr, inner, x as int, lo as int, k as int) || label == x as int) by {
                if row_touches(nbr, inner, x as int, lo as int, k1) {
                    let kk = choose|kk: int|
                        lo <= kk < k1 && #[trigger] label_at(nbr, inner, kk) == x as int;
                    if kk < k {
                        assert(row_touches(nbr, inner, x as int, lo as int, k as int));
                    }
                }
                if row_touches(nbr, inner, x as int, lo as int, k as int) {
                    let kk = choose|kk: int|
                        lo <= kk < k && #[trigger] label_at(nbr, inner, kk) == x as int;
                    assert(lo <= kk < k1);
                }
                if label == x as int {
                    assert(lo <= k < k1 && label_at(nbr, inner, k as int) == x as int);
                }
            }
            assert forall|x: usize| x != usize::MAX implies #[trigger] weight_or_zero(acc@, x)
                == row_weight_to(nbr, wts, inner, x as int, lo as int, k1) by {
                assert(weight_or_zero(acc_before, x) == row_weight_to(
                    nbr,
                    wts,
                    inner,
                    x as int,
                    lo as int,
                    k as int,
                ));
            }
            assert forall|x: usize| #[trigger]
                acc@.contains_key(x) <==> x != usize::MAX && row_touches(
                    nbr,
                    inner,
                    x as int,
                    lo as int,
                    k1,
                ) by {
                assert(acc_before.contains_key(x) <==> x != usize::MAX && row_touches(
                    nbr,
                    inner,
                    x as int,
                    lo as int,
                    k as int,
                ));
            }
            assert(gathered(acc@, keys@, nbr, wts, inner, lo as int, k1));
        }
        k += 1;
    }
    (acc, keys)
}

/// Finds the sub-community that `node` joins, if any: among the sub-communities
/// of its neighbours of the same community, the one of the greatest positive
/// gain, and among equals the one of the smallest id. Only a node that is alone
/// in its sub-community joins another.
pub fn evaluate_merge(
    graph: &InMemoryGraph,
    node: usize,
    node_to_community: &Vec<usize>,
    node_to_subcommunity: &Vec<usize>,
    subcommunity_degrees: &HashMap<usize, i64>,
    subcommunity_sizes: &HashMap<usize, usize>,
    node_degrees: &Vec<i64>,
    twice_total_weight: i64,
    resolution_parameter: i64,
) -> (target: Option<usize>)
    requires
        graph.wf(),
        node < graph.node_count,
        node_to_community@.len() == graph.node_count,
        node_to_subcommunity@.len() == graph.node_count,
        ids_below_max(node_to_subcommunity@),
        degrees_exact(subcommunity_degrees@, graph, node_to_subcommunity@),
        sizes_exact(subcommunity_sizes@, node_to_subcommunity@),
        ints(node_degrees@) == graph_node_degrees(graph),
        twice_total_weight == graph.twice_total(),
        0 <= resolution_parameter <= MAX_RESOLUTION,
    ensures
        target == merge_target(
            graph,
            node_to_community@,
            node_to_subcommunity@,
            resolution_parameter as int,
            node as int,
        ),
        match target {
            Some(c) => c != node_to_subcommunity@[node as int] && c < usize::MAX && label_in_use(
                node_to_subcommunity@,
                c,
            ),
            None => true,
        },
{
    let n: usize = graph.node_count;
    let ghost comm = node_to_community@;
    let ghost sub = node_to_subcommunity@;
    let ghost gamma = resolution_parameter as int;
    let ghost nd = graph_node_degrees(graph);
    let current: usize = node_to_subcommunity[node];
    proof {
        assert(count_or_zero(subcommunity_sizes@, current) == label_count(
            sub,
            current as int,
            n as int,
        ));
    }
    if twice_total_weight == 0 || count_of(subcommunity_sizes, current) != 1 {
        return None;
    }
    let ghost inner = within(comm, sub, comm[node as int] as int);
    let (acc, keys) = gather_inner_weights(graph, node, node_to_community, node_to_subcommunity);
    proof {
        crate::solver::graph::in_memory::lemma_weight_sum_bound(graph.weights@, 0, graph.entries());
        graph.lemma_row_bounds(node as int);
        assert(ints(node_degrees@).len() == n);
        assert(ints(node_degrees@)[node as int] == nd[node as int]);
        graph.lemma_weighted_degree_bound(node as int);
        lemma_label_degree_in_range(graph, sub, current as int, n as int);
        assert(weight_or_zero(subcommunity_degrees@, current) == label_degree(
            nd,
            sub,
            current as int,
            n as int,
        ));
        assert(weight_or_zero(acc@, current) == weight_to(graph, inner, node as int, current as int));
        lemma_row_weight_to_bound(
            graph.neighbors@,
            graph.weights@,
            inner,
            current as int,
            graph.row_lo(node as int),
            graph.row_hi(node as int),
        );
        lemma_abs_weight_sum_part(
            graph.weights@,
            0,
            graph.row_lo(node as int),
            graph.row_hi(node as int),
            graph.entries(),
        );
    }
    let weight_to_current: i64 = weight_of(&acc, current);
    let node_degree: i64 = node_degrees[node];
    let current_degree: i64 = weight_of(subcommunity_degrees, current);
    let mut found: bool = false;
    let mut best_gain: i128 = 0;
    let mut best: usize = current;
    let mut i: usize = 0;
    while i < keys.len()
        invariant
            graph.wf(),
            node < graph.node_count,
            n == graph.node_count,
            comm == node_to_community@,
            sub == node_to_subcommunity@,
            comm.len() == n,
            sub.len() == n,
            gamma == resolution_parameter as int,
            0 <= resolution_parameter <= MAX_RESOLUTION,
            nd == graph_node_degrees(graph),
            twice_total_weight == graph.twice_total(),
            abs(twice_total_weight as int) <= MAX_TOTAL_WEIGHT,
            current == sub[node as int],
            inner == within(comm, sub, comm[node as int] as int),
            degrees_exact(subcommunity_degrees@, graph, sub),
            gathered(
                acc@,
                keys@,
                graph.neighbors@,
                graph.weights@,
                inner,
                graph.row_lo(node as int),
                graph.row_hi(node as int),
            ),
            weight_to_current == weight_to(graph, inner, node as int, current as int),
            abs(weight_to_current as int) <= MAX_TOTAL_WEIGHT,
            node_degree == nd[node as int],
            abs(node_degree as int) <= MAX_TOTAL_WEIGHT,
            current_degree == label_degree(nd, sub, current as int, n as int),
            abs(current_degree as int) <= MAX_TOTAL_WEIGHT,
            i <= keys@.len(),
            !found ==> forall|j: int|
                0 <= j < i && keys@[j] != current ==> merge_gain(
                    graph,
                    comm,
                    sub,
                    gamma,
                    node as int,
                    #[trigger] keys@[j] as int,
                ) <= 0,
            found ==> is_merge_candidate(graph, comm, sub, node as int, best as int) && best_gain
                == merge_gain(graph, comm, sub, gamma, node as int, best as int) && best_gain > 0,
            found ==> forall|j: int|
                0 <= j < i && keys@[j] != current ==> merge_gain(
                    graph,
                    comm,
                    sub,
                    gamma,
                    node as int,
                    #[trigger] keys@[j] as int,
                ) < best_gain || (merge_gain(graph, comm, sub, gamma, node as int, keys@[j] as int)
                    == best_gain && best <= keys@[j]),
        decreases keys@.len() - i,
    {
        let candidate: usize = keys[i];
        if candidate != current {
            proof {
                assert(acc@.contains_key(candidate));
                assert(candidate != usize::MAX);
                assert(weight_or_zero(acc@, candidate) == weight_to(
                    graph,
                    inner,
                    node as int,
                    candidate as int,
                ));
                graph.lemma_row_bounds(node as int);
                lemma_row_weight_to_bound(
                    graph.neighbors@,
                    graph.weights@,
                    inner,
                    candidate as int,
                    graph.row_lo(node as int),
                    graph.row_hi(node as int),
                );
                lemma_abs_weight_sum_part(
                    graph.weights@,
                    0,
                    graph.row_lo(node as int),
                    graph.row_hi(node as int),
                    graph.entries(),
                );
                lemma_label_degree_in_range(graph, sub, candidate as int, n as int);
                assert(weight_or_zero(subcommunity_degrees@, candidate) == label_degree(
                    nd,
                    sub,
                    candidate as int,
                    n as int,
                ));
            }
            let candidate_gain: i128 = gain_value(
                twice_total_weight,
                resolution_parameter,
                weight_of(&acc, candidate),
                weight_to_current,
                node_degree,
                current_degree,
                weight_of(subcommunity_degrees, candidate),
            );
            assert(candidate_gain == merge_gain(graph, comm, sub, gamma, node as int, candidate as int));
            if candidate_gain > 0 && (!found || candidate_gain > best_gain || (candidate_gain
                == best_gain && candidate < best)) {
                found = true;
                best_gain = candidate_gain;
                best = candidate;
            }
        }
        i += 1;
    }
    proof {
        if found {
            assert(is_best_merge(graph, comm, sub, gamma, node as int, best as int)) by {
                assert forall|other: int| #[trigger]
                    is_merge_candidate(graph, comm, sub, node as int, other) implies merge_gain(
                    graph,
                    comm,
                    sub,
                    gamma,
                    node as int,
                    other,
                ) < merge_gain(graph, comm, sub, gamma, node as int, best as int) || (merge_gain(
                    graph,
                    comm,
                    sub,
                    gamma,
                    node as int,
                    other,
                ) == merge_gain(graph, comm, sub, gamma, node as int, best as int) && best
                    <= other) by {
                    let k = choose|k: int|
                        graph.row_lo(node as int) <= k < graph.row_hi(node as int)
                            && #[trigger] label_at(graph.neighbors@, inner, k) == other;
                    let c = inner[graph.neighbors@[k] as int];
                    assert(c as int == other);
                    assert(acc@.contains_key(c));
                    assert(keys@.contains(c));
                    let j = choose|j: int| 0 <= j < keys@.len() && keys@[j] == c;
                    assert(keys@[j] as int == other);
                }
            }
            let chosen = choose|c: usize| is_best_merge(graph, comm, sub, gamma, node as int, c as int);
            lemma_best_merge_unique(graph, comm, sub, gamma, node as int, chosen as int, best as int);
            assert(label_in_use(sub, best)) by {
                let k = choose|k: int|
                    graph.row_lo(node as int) <= k < graph.row_hi(node as int)
                        && #[trigger] label_at(graph.neighbors@, inner, k) == best as int;
                graph.lemma_row_bounds(node as int);
                let u = graph.neighbors@[k] as int;
                assert(inner[u] == best);
                assert(sub[u] == best);
            }
        } else {
            assert forall|c: usize| !is_best_merge(graph, comm, sub, gamma, node as int, c as int) by {
                if is_best_merge(graph, comm, sub, gamma, node as int, c as int) {
                    assert(acc@.contains_key(c));
                    assert(keys@.contains(c));
                    let j = choose|j: int| 0 <= j < keys@.len() && keys@[j] == c;
                    assert(merge_gain(graph, comm, sub, gamma, node as int, keys@[j] as int) <= 0);
                }
            }
        }
    }
    if found {
        Some(best)
    } else {
        None
    }
}

/// What is added to a weighted degree to make the high half of its key: two to the power of 63.
pub const DEGREE_SHIFT: i128 = 0x8000_0000_0000_0000;

/// The key by which a refined node is ordered: its weighted degree first, its id second.
pub open spec fn degree_key(node_degrees: Seq<int>, v: usize) -> u128 {
    pair_key(node_degrees[v as int] + DEGREE_SHIFT, v as int)
}

/// The keys of the given nodes.
pub open spec fn degree_keys(node_degrees: Seq<int>, nodes: Seq<usize>) -> Seq<u128> {
    Seq::new(nodes.len(), |i: int| degree_key(node_degrees, nodes[i]))
}

/// The refined nodes in the order in which the merge stage takes them:
/// ascending by weighted degree, and among equals by id.
pub open spec fn refine_order(graph: &InMemoryGraph, refined: Seq<bool>) -> Seq<usize> {
    let sorted = sorted_keys(degree_keys(graph_node_degrees(graph), ones_of(refined)));
    Seq::new(sorted.len(), |i: int| key_low(sorted[i]) as usize)
}

/// Lists the refined nodes ascending by weighted degree, and among equals by id.
pub fn order_by_degree(graph: &InMemoryGraph, refined: &SharedBitVec, node_degrees: &Vec<i64>) -> (order:
    Vec<usize>)
    requires
        graph.wf(),
        refined.wf(),
        refined@.len() == graph.node_count,
        ints(node_degrees@) == graph_node_degrees(graph),
    ensures
        order@ == refine_order(graph, refined@),
        distinct(order@),
        forall|i: int|
            0 <= i < order@.len() ==> (#[trigger] order@[i]) < graph.node_count
                && refined@[order@[i] as int],
        forall|v: int| 0 <= v < graph.node_count && refined@[v] ==> list_has(order@, v),
{
    let n: usize = graph.node_count;
    let ghost nd = graph_node_degrees(graph);
    let ones = refined.iter_ones();
    proof {
        lemma_lists_ones_unique(ones@, refined@);
        assert(ints(node_degrees@).len() == n);
    }
    let mut keys: Vec<u128> = Vec::new();
    let mut i: usize = 0;
    while i < ones.len()
        invariant
            graph.wf(),
            n == graph.node_count,
            nd == graph_node_degrees(graph),
            ints(node_degrees@) == nd,
            node_degrees@.len() == n,
            lists_ones(ones@, refined@),
            refined@.len() == n,
            i <= ones@.len(),
            keys@.len() == i,
            forall|j: int| 0 <= j < i ==> #[trigger] keys@[j] == degree_key(nd, ones@[j]),
        decreases ones@.len() - i,
    {
        let v: usize = ones[i];
        proof {
            assert(ints(node_degrees@)[v as int] == nd[v as int]);
            graph.lemma_weighted_degree_bound(v as int);
        }
        let shifted: i128 = node_degrees[v] as i128 + DEGREE_SHIFT;
        let key: u128 = make_key(shifted as u64, v as u64);
        keys.push(key);
        i += 1;
    }
    let ghost unsorted = keys@;
    proof {
        assert(unsorted =~= degree_keys(nd, ones@));
    }
    sort_keys(&mut keys);
    proof {
        unsorted.to_multiset_ensures();
        keys@.to_multiset_ensures();
        assert forall|a: int, b: int| 0 <= a < unsorted.len() && 0 <= b < unsorted.len() && a
            != b implies unsorted[a] != unsorted[b] by {
            lemma_degree_key_order(graph, ones@[a], ones@[b]);
            if a < b {
                assert(ones@[a] < ones@[b]);
            } else {
                assert(ones@[b] < ones@[a]);
            }
        }
        assert(unsorted.no_duplicates());
        unsorted.lemma_multiset_has_no_duplicates();
        keys@.lemma_multiset_has_no_duplicates_conv();
        assert forall|x: u128| unsorted.contains(x) <==> keys@.contains(x) by {
            assert(unsorted.to_multiset().count(x) == keys@.to_multiset().count(x));
        }
    }
    let mut order: Vec<usize> = Vec::new();
    let mut j: usize = 0;
    while j < keys.len()
        invariant
            graph.wf(),
            n == graph.node_count,
            nd == graph_node_degrees(graph),
            lists_ones(ones@, refined@),
            refined@.len() == n,
            unsorted == degree_keys(nd, ones@),
            forall|x: u128| unsorted.contains(x) <==> keys@.contains(x),
            keys@.no_duplicates(),
            j <= keys@.len(),
            order@.len() == j,
            forall|a: int| 0 <= a < j ==> #[trigger] order@[a] == key_low(keys@[a]) as usize,
            forall|a: int|
                0 <= a < j ==> (#[trigger] order@[a]) < n && refined@[order@[a] as int]
                    && keys@[a] == degree_key(nd, order@[a]),
        decreases keys@.len() - j,
    {
        let key: u128 = keys[j];
        let (_, low) = split_key(key);
        proof {
            assert(keys@.contains(key));
            assert(unsorted.contains(key));
            let a = choose|a: int| 0 <= a < unsorted.len() && unsorted[a] == key;
            let v = ones@[a];
            graph.lemma_weighted_degree_bound(v as int);
            lemma_pair_key_halves(nd[v as int] + DEGREE_SHIFT, v as int);
            assert(low == v);
        }
        order.push(low as usize);
        j += 1;
    }
    proof {
        assert(order@ =~= refine_order(graph, refined@));
        assert forall|a: int, b: int| 0 <= a < b < order@.len() implies order@[a] != order@[b] by {
            assert(keys@[a] != keys@[b]);
        }
        assert forall|v: int| 0 <= v < n && refined@[v] implies list_has(order@, v) by {
            let a = choose|a: int| 0 <= a < ones@.len() && #[trigger] ones@[a] == v;
            assert(unsorted[a] == degree_key(nd, v as usize));
            assert(unsorted.contains(degree_key(nd, v as usize)));
            assert(keys@.contains(degree_key(nd, v as usize)));
            let b = choose|b: int| 0 <= b < keys@.len() && keys@[b] == degree_key(nd, v as usize);
            lemma_degree_key_order(graph, order@[b], v as usize);
            assert(order@[b] == v);
        }
    }
    order
}

/// Keys order as the nodes do by weighted degree and id, and differ where the nodes differ.
pub proof fn lemma_degree_key_order(graph: &InMemoryGraph, a: usize, b: usize)
    requires
        graph.wf(),
        a < graph.node_count,
        b < graph.node_count,
    ensures
        degree_key(graph_node_degrees(graph), a) == degree_key(graph_node_degrees(graph), b) <==> a
            == b,
        degree_key(graph_node_degrees(graph), a) <= degree_key(graph_node_degrees(graph), b) <==> (
        graph.weighted_degree(a as int) < graph.weighted_degree(b as int) || (graph.weighted_degree(
            a as int,
        ) == graph.weighted_degree(b as int) && a <= b)),
{
    graph.lemma_weighted_degree_bound(a as int);
    graph.lemma_weighted_degree_bound(b as int);
    lemma_pair_key_order(
        graph.weighted_degree(a as int) + DEGREE_SHIFT,
        a as int,
        graph.weighted_degree(b as int) + DEGREE_SHIFT,
        b as int,
    );
}

/// A merge target is a sub-community that some node carries, and not the node's own.
pub proof fn lemma_merge_target_in_use(
    graph: &InMemoryGraph,
    comm: Seq<usize>,
    sub: Seq<usize>,
    gamma: int,
    v: int,
)
    requires
        graph.wf(),
        0 <= v < graph.node_count,
        comm.len() == graph.node_count,
        sub.len() == graph.node_count,
        merge_target(graph, comm, sub, gamma, v) is Some,
    ensures
        label_in_use(sub, merge_target(graph, comm, sub, gamma, v)->0),
        merge_target(graph, comm, sub, gamma, v)->0 != sub[v],
        merge_target(graph, comm, sub, gamma, v)->0 != usize::MAX,
{
    let c = merge_target(graph, comm, sub, gamma, v)->0;
    assert(is_best_merge(graph, comm, sub, gamma, v, c as int));
    let inner = within(comm, sub, comm[v] as int);
    let k = choose|k: int|
        graph.row_lo(v) <= k < graph.row_hi(v) && #[trigger] label_at(graph.neighbors@, inner, k)
            == c as int;
    graph.lemma_row_bounds(v);
    let u = graph.neighbors@[k] as int;
    assert(inner[u] == c);
    assert(sub[u] == c);
}

/// One deterministic merge step: `v` joins its merge target, if it has one.
pub open spec fn merge_step(
    graph: &InMemoryGraph,
    comm: Seq<usize>,
    gamma: int,
    sub: Seq<usize>,
    v: int,
) -> Seq<usize> {
    match merge_target(graph, comm, sub, gamma, v) {
        Some(c) => sub.update(v, c),
        None => sub,
    }
}

/// Deterministic merging: the nodes of `order` take their steps one after the
/// other, each on the sub-communities as the steps before it left them.
pub open spec fn merge_in_order(
    graph: &InMemoryGraph,
    comm: Seq<usize>,
    gamma: int,
    sub: Seq<usize>,
    order: Seq<usize>,
) -> Seq<usize>
    decreases order.len(),
{
    if order.len() == 0 {
        sub
    } else {
        merge_step(
            graph,
            comm,
            gamma,
            merge_in_order(graph, comm, gamma, sub, order.drop_last()),
            order.last() as int,
        )
    }
}

/// Throughput merging: every node of `nodes` is judged on the sub-communities
/// as they are, and then all that have a merge target join it.
pub open spec fn merge_at_once(
    graph: &InMemoryGraph,
    comm: Seq<usize>,
    gamma: int,
    sub: Seq<usize>,
    nodes: Seq<usize>,
) -> Seq<usize> {
    Seq::new(
        sub.len(),
        |v: int|
            if list_has(nodes, v) {
                match merge_target(graph, comm, sub, gamma, v) {
                    Some(c) => c,
                    None => sub[v],
                }
            } else {
                sub[v]
            },
    )
}

/// Whether no label of `after` is new: each is carried by a node of `before`.
pub open spec fn labels_kept(before: Seq<usize>, after: Seq<usize>) -> bool {
    after.len() == before.len() && forall|v: int|
        0 <= v < after.len() ==> label_in_use(before, #[trigger] after[v])
}

/// Moves `node` into the sub-community `target`, and brings the two tables up to date.
pub fn join_subcommunity(
    graph: &InMemoryGraph,
    node_to_subcommunity: &mut Vec<usize>,
    subcommunity_degrees: &mut HashMap<usize, i64>,
    subcommunity_sizes: &mut HashMap<usize, usize>,
    node_degrees: &Vec<i64>,
    node: usize,
    target: usize,
)
    requires
        graph.wf(),
        old(node_to_subcommunity)@.len() == graph.node_count,
        node < graph.node_count,
        target != old(node_to_subcommunity)@[node as int],
        degrees_exact(old(subcommunity_degrees)@, graph, old(node_to_subcommunity)@),
        sizes_exact(old(subcommunity_sizes)@, old(node_to_subcommunity)@),
        ints(node_degrees@) == graph_node_degrees(graph),
    ensures
        final(node_to_subcommunity)@ == old(node_to_subcommunity)@.update(node as int, target),
        degrees_exact(final(subcommunity_degrees)@, graph, final(node_to_subcommunity)@),
        sizes_exact(final(subcommunity_sizes)@, final(node_to_subcommunity)@),
{
    let n: usize = graph.node_count;
    let ghost nd = graph_node_degrees(graph);
    let ghost before = node_to_subcommunity@;
    let ghost after = before.update(node as int, target);
    let ghost degrees0 = subcommunity_degrees@;
    let ghost sizes0 = subcommunity_sizes@;
    let from: usize = node_to_subcommunity[node];
    proof {
        assert(ints(node_degrees@).len() == n);
        assert(ints(node_degrees@)[node as int] == nd[node as int]);
        assert(weight_or_zero(degrees0, from) == label_degree(nd, before, from as int, n as int));
        assert(weight_or_zero(degrees0, target) == label_degree(nd, before, target as int, n as int));
        assert(count_or_zero(sizes0, from) == label_count(before, from as int, n as int));
        assert(count_or_zero(sizes0, target) == label_count(before, target as int, n as int));
        lemma_label_degree_update(nd, before, node as int, target, from as int, n as int);
        lemma_label_degree_update(nd, before, node as int, target, target as int, n as int);
        lemma_label_degree_in_range(graph, after, from as int, n as int);
        lemma_label_degree_in_range(graph, after, target as int, n as int);
        lemma_label_count_positive(before, node as int, n as int);
        lemma_label_count_bounds(before, target as int, n as int);
        lemma_label_count_update(before, node as int, target, target as int, n as int);
        lemma_label_count_bounds(after, target as int, n as int);
    }
    let degree: i64 = node_degrees[node];
    let lowered: i64 = weight_of(subcommunity_degrees, from) - degree;
    subcommunity_degrees.insert(from, lowered);
    let raised: i64 = weight_of(subcommunity_degrees, target) + degree;
    subcommunity_degrees.insert(target, raised);
    let fewer: usize = count_of(subcommunity_sizes, from) - 1;
    subcommunity_sizes.insert(from, fewer);
    let more: usize = count_of(subcommunity_sizes, target) + 1;
    subcommunity_sizes.insert(target, more);
    node_to_subcommunity.set(node, target);
    proof {
        assert forall|c: usize| #[trigger]
            weight_or_zero(subcommunity_degrees@, c) == label_degree(
                nd,
                after,
                c as int,
                n as int,
            ) by {
            lemma_label_degree_update(nd, before, node as int, target, c as int, n as int);
            assert(weight_or_zero(degrees0, c) == label_degree(nd, before, c as int, n as int));
        }
        assert forall|c: usize| #[trigger]
            count_or_zero(subcommunity_sizes@, c) == label_count(after, c as int, n as int) by {
            lemma_label_count_update(before, node as int, target, c as int, n as int);
            assert(count_or_zero(sizes0, c) == label_count(before, c as int, n as int));
        }
    }
}

/// Deterministic merging of refined singletons, in the given order.
pub fn merge_singletons(
    graph: &InMemoryGraph,
    order: &Vec<usize>,
    node_to_community: &Vec<usize>,
    node_to_subcommunity: &mut Vec<usize>,
    subcommunity_degrees: &mut HashMap<usize, i64>,
    subcommunity_sizes: &mut HashMap<usize, usize>,
    node_degrees: &Vec<i64>,
    twice_total_weight: i64,
    resolution_parameter: i64,
)
    requires
        graph.wf(),
        node_to_community@.len() == graph.node_count,
        old(node_to_subcommunity)@.len() == graph.node_count,
        ids_below_max(old(node_to_subcommunity)@),
        forall|i: int| 0 <= i < order@.len() ==> (#[trigger] order@[i]) < graph.node_count,
        degrees_exact(old(subcommunity_degrees)@, graph, old(node_to_subcommunity)@),
        sizes_exact(old(subcommunity_sizes)@, old(node_to_subcommunity)@),
        ints(node_degrees@) == graph_node_degrees(graph),
        twice_total_weight == graph.twice_total(),
        0 <= resolution_parameter <= MAX_RESOLUTION,
    ensures
        final(node_to_subcommunity)@ == merge_in_order(
            graph,
            node_to_community@,
            resolution_parameter as int,
            old(node_to_subcommunity)@,
            order@,
        ),
        labels_kept(old(node_to_subcommunity)@, final(node_to_subcommunity)@),
        degrees_exact(final(subcommunity_degrees)@, graph, final(node_to_subcommunity)@),
        sizes_exact(final(subcommunity_sizes)@, final(node_to_subcommunity)@),
{
    let n: usize = graph.node_count;
    let ghost comm = node_to_community@;
    let ghost gamma = resolution_parameter as int;
    let ghost sub0 = node_to_subcommunity@;
    let mut i: usize = 0;
    proof {
        assert(order@.take(0) =~= Seq::empty());
        assert forall|v: int| 0 <= v < n implies label_in_use(sub0, #[trigger] sub0[v]) by {}
    }
    while i < order.len()
        invariant
            graph.wf(),
            n == graph.node_count,
            comm == node_to_community@,
            comm.len() == n,
            gamma == resolution_parameter as int,
            0 <= resolution_parameter <= MAX_RESOLUTION,
            sub0.len() == n,
            node_to_subcommunity@.len() == n,
            ids_below_max(node_to_subcommunity@),
            forall|j: int| 0 <= j < order@.len() ==> (#[trigger] order@[j]) < n,
            degrees_exact(subcommunity_degrees@, graph, node_to_subcommunity@),
            sizes_exact(subcommunity_sizes@, node_to_subcommunity@),
            ints(node_degrees@) == graph_node_degrees(graph),
            twice_total_weight == graph.twice_total(),
            i <= order@.len(),
            node_to_subcommunity@ == merge_in_order(graph, comm, gamma, sub0, order@.take(i as int)),
            labels_kept(sub0, node_to_subcommunity@),
        decreases order@.len() - i,
    {
        let node: usize = order[i];
        let ghost before = node_to_subcommunity@;
        let ghost taken = order@.take(i + 1);
        proof {
            assert(taken.drop_last() =~= order@.take(i as int));
            assert(taken.last() == node);
        }
        let target = evaluate_merge(
            graph,
            node,
            node_to_community,
            node_to_subcommunity,
            subcommunity_degrees,
            subcommunity_sizes,
            node_degrees,
            twice_total_weight,
            resolution_parameter,
        );
        match target {
            Some(best) => {
                join_subcommunity(
                    graph,
                    node_to_subcommunity,
                    subcommunity_degrees,
                    subcommunity_sizes,
                    node_degrees,
                    node,
                    best,
                );
                proof {
                    assert forall|v: int| 0 <= v < n implies label_in_use(
                        sub0,
                        #[trigger] node_to_subcommunity@[v],
                    ) by {
                        if v == node {
                            let u = choose|u: int| 0 <= u < before.len() && #[trigger] before[u] == best;
                            assert(label_in_use(sub0, before[u]));
                        } else {
                            assert(label_in_use(sub0, before[v]));
                        }
                    }
                }
            },
            None => {},
        }
        proof {
            assert(node_to_subcommunity@ == merge_step(graph, comm, gamma, before, node as int));
        }
        i += 1;
    }
    proof {
        assert(order@.take(order@.len() as int) =~= order@);
    }
}

} // verus!
