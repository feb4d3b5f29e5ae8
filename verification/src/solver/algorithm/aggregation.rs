use crate::solver::algorithm::parallel_frontier::SharedBitVec;
use crate::solver::algorithm::refinement::{lemma_max_label, max_label};
use crate::solver::algorithm::sorting::{
    ascending, key_high, key_low, lemma_pair_key_halves, lemma_pair_key_order, make_key, pair_key,
    sort_keys, split_key,
};
use crate::solver::graph::in_memory::{
    abs_weight_sum, lemma_abs_weight_sum_nonneg, lemma_abs_weight_sum_part,
    lemma_abs_weight_sum_split, InMemoryGraph,
};
use crate::solver::types::{abs_edge_weight_sum, edge_weight, Edge, GraphInput};
use crate::solver::weight::{abs, MAX_TOTAL_WEIGHT, SCALE};
use std::collections::HashMap;
use vstd::prelude::*;
use vstd::std_specs::hash::group_hash_axioms;

verus! {

broadcast use group_hash_axioms;

/// The key of the undirected edge between `a` and `b`: the smaller endpoint first.
pub open spec fn canon_key(a: usize, b: usize) -> u128 {
    if a <= b {
        pair_key(a as int, b as int)
    } else {
        pair_key(b as int, a as int)
    }
}

/// What a change of `w` on the edge between `a` and `b` adds to the weight of `key`.
pub open spec fn hit(key: u128, a: usize, b: usize, w: int) -> int {
    if canon_key(a, b) == key {
        w
    } else {
        0
    }
}

/// What the first `upto` changed edges add to the weight of `key`: each edge
/// counts between the sub-communities that its endpoints had before.
pub open spec fn delta_part(edges: Seq<Edge>, s_pre: Seq<usize>, key: u128, upto: int) -> int
    decreases upto,
{
    if upto <= 0 {
        0
    } else {
        delta_part(edges, s_pre, key, upto - 1) + hit(
            key,
            s_pre[edges[upto - 1].0 as int],
            s_pre[edges[upto - 1].1 as int],
            edge_weight(edges[upto - 1]) as int,
        )
    }
}

/// Whether the edge from the refined node `v` to `u` is moved: `u` kept its
/// sub-community, or `v` is the smaller of the two.
pub open spec fn moves_edge(s_pre: Seq<usize>, s_cur: Seq<usize>, v: int, u: int) -> bool {
    s_cur[u] == s_pre[u] || v < u
}

/// What the adjacency entry at `k` of the refined node `v` adds to the weight
/// of `key`: a moved edge is retired between the sub-communities of before and
/// posted between the sub-communities of now.
pub open spec fn entry_part(
    graph: &InMemoryGraph,
    s_pre: Seq<usize>,
    s_cur: Seq<usize>,
    v: int,
    key: u128,
    k: int,
) -> int {
    let u = graph.neighbors@[k] as int;
    if moves_edge(s_pre, s_cur, v, u) {
        hit(key, s_pre[v], s_pre[u], -(graph.weights@[k] as int)) + hit(
            key,
            s_cur[v],
            s_cur[u],
            graph.weights@[k] as int,
        )
    } else {
        0
    }
}

/// What the adjacency entries `lo..hi` of the refined node `v` add to the weight of `key`.
pub open spec fn row_part(
    graph: &InMemoryGraph,
    s_pre: Seq<usize>,
    s_cur: Seq<usize>,
    v: int,
    key: u128,
    lo: int,
    hi: int,
) -> int
    decreases hi - lo,
{
    if hi <= lo {
        0
    } else {
        row_part(graph, s_pre, s_cur, v, key, lo, hi - 1) + entry_part(
            graph,
            s_pre,
            s_cur,
            v,
            key,
            hi - 1,
        )
    }
}

/// What the refined nodes below `upto` add to the weight of `key`.
pub open spec fn refined_part(
    graph: &InMemoryGraph,
    s_pre: Seq<usize>,
    s_cur: Seq<usize>,
    refined: Seq<bool>,
    key: u128,
    upto: int,
) -> int
    decreases upto,
{
    if upto <= 0 {
        0
    } else {
        refined_part(graph, s_pre, s_cur, refined, key, upto - 1) + if refined[upto - 1] {
            row_part(
                graph,
                s_pre,
                s_cur,
                upto - 1,
                key,
                graph.row_lo(upto - 1),
                graph.row_hi(upto - 1),
            )
        } else {
            0
        }
    }
}

/// The weight that the next level's change carries between the two
/// sub-communities of `key`: the changed edges of this level, and the moved
/// edges of the refined nodes.
pub open spec fn agg_weight(
    graph: &InMemoryGraph,
    edges: Seq<Edge>,
    s_pre: Seq<usize>,
    s_cur: Seq<usize>,
    refined: Seq<bool>,
    key: u128,
) -> int {
    delta_part(edges, s_pre, key, edges.len() as int) + refined_part(
        graph,
        s_pre,
        s_cur,
        refined,
        key,
        graph.node_count as int,
    )
}

/// The key of an edge as it stands.
pub open spec fn edge_key(edge: Edge) -> u128 {
    pair_key(edge.0 as int, edge.1 as int)
}

/// Whether `out` is the compressed change of the next level: one edge for each
/// pair of sub-communities whose weight is not zero, the smaller endpoint
/// first, with that weight, in ascending order of the pairs.
pub open spec fn is_compressed(
    out: Seq<Edge>,
    graph: &InMemoryGraph,
    edges: Seq<Edge>,
    s_pre: Seq<usize>,
    s_cur: Seq<usize>,
    refined: Seq<bool>,
) -> bool {
    &&& forall|i: int|
        0 <= i < out.len() ==> (#[trigger] out[i]).0 <= out[i].1 && out[i].2 == Some(
            agg_weight(graph, edges, s_pre, s_cur, refined, edge_key(out[i])) as i64,
        ) && agg_weight(graph, edges, s_pre, s_cur, refined, edge_key(out[i])) != 0
    &&& forall|i: int, j: int| 0 <= i < j < out.len() ==> edge_key(out[i]) < edge_key(out[j])
    &&& forall|key: u128|
        agg_weight(graph, edges, s_pre, s_cur, refined, key) != 0 ==> exists|i: int|
            0 <= i < out.len() && #[trigger] edge_key(out[i]) == key
}

/// The compressed change of the next level.
pub open spec fn compressed(
    graph: &InMemoryGraph,
    edges: Seq<Edge>,
    s_pre: Seq<usize>,
    s_cur: Seq<usize>,
    refined: Seq<bool>,
) -> Seq<Edge> {
    choose|out: Seq<Edge>| is_compressed(out, graph, edges, s_pre, s_cur, refined)
}

/// The keys of the edges, in their order.
pub open spec fn edge_keys(out: Seq<Edge>) -> Seq<u128> {
    Seq::new(out.len(), |i: int| edge_key(out[i]))
}

/// There is one compressed change.
pub proof fn lemma_compressed_unique(
    a: Seq<Edge>,
    b: Seq<Edge>,
    graph: &InMemoryGraph,
    edges: Seq<Edge>,
    s_pre: Seq<usize>,
    s_cur: Seq<usize>,
    refined: Seq<bool>,
)
    requires
        is_compressed(a, graph, edges, s_pre, s_cur, refined),
        is_compressed(b, graph, edges, s_pre, s_cur, refined),
    ensures
        a == b,
{
    let ka = edge_keys(a);
    let kb = edge_keys(b);
    assert forall|x: u128| ka.contains(x) <==> kb.contains(x) by {
        if ka.contains(x) {
            let i = choose|i: int| 0 <= i < ka.len() && ka[i] == x;
            assert(edge_key(a[i]) == x);
            assert(agg_weight(graph, edges, s_pre, s_cur, refined, edge_key(a[i])) != 0);
            let j = choose|j: int| 0 <= j < b.len() && #[trigger] edge_key(b[j]) == x;
            assert(kb[j] == x);
        }
        if kb.contains(x) {
            let i = choose|i: int| 0 <= i < kb.len() && kb[i] == x;
            assert(edge_key(b[i]) == x);
            assert(agg_weight(graph, edges, s_pre, s_cur, refined, edge_key(b[i])) != 0);
            let j = choose|j: int| 0 <= j < a.len() && #[trigger] edge_key(a[j]) == x;
            assert(ka[j] == x);
        }
    }
    assert(crate::solver::algorithm::sorting::strictly_ascending(ka)) by {
        assert forall|i: int, j: int| 0 <= i < j < ka.len() implies ka[i] < ka[j] by {
            assert(edge_key(a[i]) < edge_key(a[j]));
        }
    }
    assert(crate::solver::algorithm::sorting::strictly_ascending(kb)) by {
        assert forall|i: int, j: int| 0 <= i < j < kb.len() implies kb[i] < kb[j] by {
            assert(edge_key(b[i]) < edge_key(b[j]));
        }
    }
    crate::solver::algorithm::sorting::lemma_strictly_ascending_unique(ka, kb);
    assert(a.len() == b.len());
    assert forall|i: int| 0 <= i < a.len() implies a[i] == b[i] by {
        assert(ka[i] == kb[i]);
        lemma_pair_key_halves(a[i].0 as int, a[i].1 as int);
        lemma_pair_key_halves(b[i].0 as int, b[i].1 as int);
    }
    assert(a =~= b);
}

/// The changed edges add no more than their absolute weights.
pub proof fn lemma_delta_part_bound(edges: Seq<Edge>, s_pre: Seq<usize>, key: u128, upto: int)
    ensures
        abs(delta_part(edges, s_pre, key, upto)) <= abs_edge_weight_sum(edges, upto),
        0 <= abs_edge_weight_sum(edges, upto),
    decreases upto,
{
    if upto > 0 {
        lemma_delta_part_bound(edges, s_pre, key, upto - 1);
    }
}

/// The entries of a row add no more than twice their absolute weights.
pub proof fn lemma_row_part_bound(
    graph: &InMemoryGraph,
    s_pre: Seq<usize>,
    s_cur: Seq<usize>,
    v: int,
    key: u128,
    lo: int,
    hi: int,
)
    ensures
        abs(row_part(graph, s_pre, s_cur, v, key, lo, hi)) <= 2 * abs_weight_sum(
            graph.weights@,
            lo,
            hi,
        ),
    decreases hi - lo,
{
    if hi > lo {
        lemma_row_part_bound(graph, s_pre, s_cur, v, key, lo, hi - 1);
    }
}

/// The refined nodes add no more than twice the absolute weights of their rows.
pub proof fn lemma_refined_part_bound(
    graph: &InMemoryGraph,
    s_pre: Seq<usize>,
    s_cur: Seq<usize>,
    refined: Seq<bool>,
    key: u128,
    upto: int,
)
    requires
        graph.wf(),
        0 <= upto <= graph.node_count,
    ensures
        abs(refined_part(graph, s_pre, s_cur, refined, key, upto)) <= 2 * abs_weight_sum(
            graph.weights@,
            0,
            graph.offsets@[upto] as int,
        ),
    decreases upto,
{
    if upto > 0 {
        lemma_refined_part_bound(graph, s_pre, s_cur, refined, key, upto - 1);
        graph.lemma_row_bounds(upto - 1);
        lemma_row_part_bound(
            graph,
            s_pre,
            s_cur,
            upto - 1,
            key,
            graph.row_lo(upto - 1),
            graph.row_hi(upto - 1),
        );
        lemma_abs_weight_sum_split(
            graph.weights@,
            0,
            graph.row_lo(upto - 1),
            graph.row_hi(upto - 1),
        );
        lemma_abs_weight_sum_nonneg(graph.weights@, graph.row_lo(upto - 1), graph.row_hi(upto - 1));
    } else {
        assert(graph.offsets@[0] == 0);
    }
}

/// The weight that a table holds for a key: zero where it holds none.
pub open spec fn sum_or_zero(table: Map<u128, i64>, key: u128) -> int {
    if table.contains_key(key) {
        table[key] as int
    } else {
        0
    }
}

/// Whether `keys` lists the keys of the table, each once.
pub open spec fn lists_keys(keys: Seq<u128>, table: Map<u128, i64>) -> bool {
    &&& keys.no_duplicates()
    &&& forall|key: u128| #[trigger] table.contains_key(key) <==> keys.contains(key)
}

/// Whether every key joins two ids that are at most `greatest`, the smaller first.
pub open spec fn keys_ok(keys: Seq<u128>, greatest: int) -> bool {
    forall|i: int|
        0 <= i < keys.len() ==> key_high(#[trigger] keys[i]) <= key_low(keys[i]) <= greatest
}

/// Adds a change of `w` on the edge between `a` and `b` to the table.
fn add_change(
    table: &mut HashMap<u128, i64>,
    keys: &mut Vec<u128>,
    a: usize,
    b: usize,
    w: i64,
    Ghost(limit): Ghost<int>,
)
    requires
        lists_keys(old(keys)@, old(table)@),
        forall|key: u128| abs(#[trigger] sum_or_zero(old(table)@, key) + hit(key, a, b, w as int))
            <= limit,
        limit <= i64::MAX,
    ensures
        lists_keys(final(keys)@, final(table)@),
        forall|greatest: int|
            keys_ok(old(keys)@, greatest) && a <= greatest && b <= greatest ==> keys_ok(
                final(keys)@,
                greatest,
            ),
        forall|key: u128| #[trigger]
            sum_or_zero(final(table)@, key) == sum_or_zero(old(table)@, key) + hit(
                key,
                a,
                b,
                w as int,
            ),
{
    let key: u128 = if a <= b {
        make_key(a as u64, b as u64)
    } else {
        make_key(b as u64, a as u64)
    };
    assert(key == canon_key(a, b));
    let known: bool = table.contains_key(&key);
    let current: i64 = match table.get(&key) {
        Some(x) => *x,
        None => 0,
    };
    assert(current == sum_or_zero(table@, key));
    assert(abs(sum_or_zero(table@, key) + hit(key, a, b, w as int)) <= limit);
    let sum: i64 = current + w;
    table.insert(key, sum);
    if !known {
        let ghost before = keys@;
        keys.push(key);
        proof {
            assert forall|x: u128| #[trigger] table@.contains_key(x) <==> keys@.contains(x) by {
                if x == key {
                    assert(keys@[before.len() as int] == key);
                } else {
                    if before.contains(x) {
                        let i = choose|i: int| 0 <= i < before.len() && before[i] == x;
                        assert(keys@[i] == x);
                    }
                    if keys@.contains(x) {
                        let i = choose|i: int| 0 <= i < keys@.len() && keys@[i] == x;
                        assert(before[i] == x);
                    }
                }
            }
            assert forall|greatest: int|
                keys_ok(before, greatest) && a <= greatest && b <= greatest implies keys_ok(
                keys@,
                greatest,
            ) by {
                assert forall|i: int| 0 <= i < keys@.len() implies key_high(#[trigger] keys@[i])
                    <= key_low(keys@[i]) <= greatest by {
                    if i < before.len() {
                        assert(keys@[i] == before[i]);
                    }
                }
            }
            assert(keys@.no_duplicates()) by {
                assert forall|i: int, j: int|
                    0 <= i < keys@.len() && 0 <= j < keys@.len() && i != j implies keys@[i]
                    != keys@[j] by {
                    if i < before.len() && j < before.len() {
                        assert(before[i] != before[j]);
                    } else if i < before.len() {
                        assert(before.contains(before[i]));
                    } else {
                        assert(before.contains(before[j]));
                    }
                }
            }
        }
    }
}

/// The bound on every sum of the table: the changed edges, and twice the adjacency.
pub const MAX_AGGREGATE: i64 = 3_000_000_000_000_000;

/// Whether the table holds, for every key, what the changed edges and the
/// refined nodes below `v` add to it, and the entries `lo..k` of the row of `v`.
pub open spec fn accumulated(
    table: Map<u128, i64>,
    graph: &InMemoryGraph,
    edges: Seq<Edge>,
    s_pre: Seq<usize>,
    s_cur: Seq<usize>,
    refined: Seq<bool>,
    v: int,
    lo: int,
    k: int,
) -> bool {
    forall|key: u128| #[trigger]
        sum_or_zero(table, key) == delta_part(edges, s_pre, key, edges.len() as int)
            + refined_part(graph, s_pre, s_cur, refined, key, v) + row_part(
            graph,
            s_pre,
            s_cur,
            v,
            key,
            lo,
            k,
        )
}

/// The absolute weights of the first edges are no more than those of all.
pub proof fn lemma_abs_edge_weight_sum_part(edges: Seq<Edge>, part: int, upto: int)
    requires
        0 <= part <= upto,
    ensures
        0 <= abs_edge_weight_sum(edges, part) <= abs_edge_weight_sum(edges, upto),
    decreases upto - part,
{
    if part < upto {
        lemma_abs_edge_weight_sum_part(edges, part, upto - 1);
    } else {
        lemma_delta_part_bound(edges, Seq::empty(), 0, part);
    }
}

/// Adds the changed edges of this level to the table, each between the
/// sub-communities that its endpoints had before.
fn add_delta_edges(
    delta_graph: &GraphInput,
    previous_node_to_subcommunity: &Vec<usize>,
    table: &mut HashMap<u128, i64>,
    keys: &mut Vec<u128>,
    Ghost(greatest): Ghost<int>,
)
    requires
        old(table)@ == Map::<u128, i64>::empty(),
        old(keys)@.len() == 0,
        forall|i: int|
            0 <= i < delta_graph.edges@.len() ==> (#[trigger] delta_graph.edges@[i]).0
                < previous_node_to_subcommunity@.len() && delta_graph.edges@[i].1
                < previous_node_to_subcommunity@.len(),
        abs_edge_weight_sum(delta_graph.edges@, delta_graph.edges@.len() as int)
            <= MAX_TOTAL_WEIGHT,
        forall|v: int|
            0 <= v < previous_node_to_subcommunity@.len()
                ==> (#[trigger] previous_node_to_subcommunity@[v]) <= greatest,
    ensures
        lists_keys(final(keys)@, final(table)@),
        keys_ok(final(keys)@, greatest),
        forall|key: u128| #[trigger]
            sum_or_zero(final(table)@, key) == delta_part(
                delta_graph.edges@,
                previous_node_to_subcommunity@,
                key,
                delta_graph.edges@.len() as int,
            ),
{
    let ghost edges = delta_graph.edges@;
    let ghost s_pre = previous_node_to_subcommunity@;
    let mut i: usize = 0;
    while i < delta_graph.edges.len()
        invariant
            edges == delta_graph.edges@,
            s_pre == previous_node_to_subcommunity@,
            forall|j: int|
                0 <= j < edges.len() ==> (#[trigger] edges[j]).0 < s_pre.len() && edges[j].1
                    < s_pre.len(),
            abs_edge_weight_sum(edges, edges.len() as int) <= MAX_TOTAL_WEIGHT,
            forall|v: int| 0 <= v < s_pre.len() ==> (#[trigger] s_pre[v]) <= greatest,
            i <= edges.len(),
            lists_keys(keys@, table@),
            keys_ok(keys@, greatest),
            forall|key: u128| #[trigger] sum_or_zero(table@, key) == delta_part(edges, s_pre, key, i as int),
        decreases edges.len() - i,
    {
        let (u, v, w) = delta_graph.edges[i];
        let alpha: i64 = match w {
            Some(x) => x,
            None => SCALE,
        };
        let a: usize = previous_node_to_subcommunity[u];
        let b: usize = previous_node_to_subcommunity[v];
        let ghost before = table@;
        let ghost i1: int = i + 1;
        proof {
            assert(edges[i as int].0 == u && edges[i as int].1 == v);
            assert(alpha == edge_weight(edges[i as int]));
            lemma_abs_edge_weight_sum_part(edges, i1, edges.len() as int);
            assert forall|key: u128| abs(
                #[trigger] sum_or_zero(table@, key) + hit(key, a, b, alpha as int),
            ) <= MAX_AGGREGATE by {
                lemma_delta_part_bound(edges, s_pre, key, i1);
                assert(sum_or_zero(table@, key) == delta_part(edges, s_pre, key, i as int));
            }
        }
        add_change(table, keys, a, b, alpha, Ghost(MAX_AGGREGATE as int));
        proof {
            assert forall|key: u128| #[trigger]
                sum_or_zero(table@, key) == delta_part(edges, s_pre, key, i1) by {
                assert(sum_or_zero(before, key) == delta_part(edges, s_pre, key, i as int));
            }
        }
        i += 1;
    }
}

/// Adds the moved edges of one refined node to the table.
fn add_refined_row(
    graph: &InMemoryGraph,
    node: usize,
    previous_node_to_subcommunity: &Vec<usize>,
    current_node_to_subcommunity: &Vec<usize>,
    table: &mut HashMap<u128, i64>,
    keys: &mut Vec<u128>,
    Ghost(edges): Ghost<Seq<Edge>>,
    Ghost(refined): Ghost<Seq<bool>>,
    Ghost(greatest): Ghost<int>,
)
    requires
        graph.wf(),
        node < graph.node_count,
        previous_node_to_subcommunity@.len() == graph.node_count,
        current_node_to_subcommunity@.len() == graph.node_count,
        abs_edge_weight_sum(edges, edges.len() as int) <= MAX_TOTAL_WEIGHT,
        lists_keys(old(keys)@, old(table)@),
        keys_ok(old(keys)@, greatest),
        forall|v: int|
            0 <= v < graph.node_count ==> (#[trigger] previous_node_to_subcommunity@[v])
                <= greatest,
        forall|v: int|
            0 <= v < graph.node_count ==> (#[trigger] current_node_to_subcommunity@[v])
                <= greatest,
        accumulated(
            old(table)@,
            graph,
            edges,
            previous_node_to_subcommunity@,
            current_node_to_subcommunity@,
            refined,
            node as int,
            graph.row_lo(node as int),
            graph.row_lo(node as int),
        ),
    ensures
        lists_keys(final(keys)@, final(table)@),
        keys_ok(final(keys)@, greatest),
        accumulated(
            final(table)@,
            graph,
            edges,
            previous_node_to_subcommunity@,
            current_node_to_subcommunity@,
            refined,
            node as int,
            graph.row_lo(node as int),
            graph.row_hi(node as int),
        ),
{
    proof {
        graph.lemma_row_bounds(node as int);
    }
    let ghost s_pre = previous_node_to_subcommunity@;
    let ghost s_cur = current_node_to_subcommunity@;
    let lo: usize = graph.offsets[node];
    let hi: usize = lo + graph.degrees[node];
    let mut k: usize = lo;
    while k < hi
        invariant
            graph.wf(),
            node < graph.node_count,
            s_pre == previous_node_to_subcommunity@,
            s_cur == current_node_to_subcommunity@,
            s_pre.len() == graph.node_count,
            s_cur.len() == graph.node_count,
            abs_edge_weight_sum(edges, edges.len() as int) <= MAX_TOTAL_WEIGHT,
            forall|v: int| 0 <= v < graph.node_count ==> (#[trigger] s_pre[v]) <= greatest,
            forall|v: int| 0 <= v < graph.node_count ==> (#[trigger] s_cur[v]) <= greatest,
            lo == graph.row_lo(node as int),
            hi == graph.row_hi(node as int),
            lo <= k <= hi <= graph.entries(),
            lists_keys(keys@, table@),
            keys_ok(keys@, greatest),
            accumulated(table@, graph, edges, s_pre, s_cur, refined, node as int, lo as int, k as int),
        decreases hi - k,
    {
        let u: usize = graph.neighbors[k];
        let w: i64 = graph.weights[k];
        let ghost k1: int = k + 1;
        let ghost start = table@;
        proof {
            lemma_abs_weight_sum_part(graph.weights@, 0, k as int, k1, graph.entries());
            assert(abs_weight_sum(graph.weights@, k as int, k1) == abs(w as int)) by {
                assert(abs_weight_sum(graph.weights@, k as int, k as int) == 0);
            }
        }
        if current_node_to_subcommunity[u] == previous_node_to_subcommunity[u] || node < u {
            let a: usize = previous_node_to_subcommunity[node];
            let b: usize = previous_node_to_subcommunity[u];
            let c: usize = current_node_to_subcommunity[node];
            let d: usize = current_node_to_subcommunity[u];
            proof {
                assert forall|key: u128| abs(
                    #[trigger] sum_or_zero(table@, key) + hit(key, a, b, -(w as int)),
                ) <= MAX_AGGREGATE by {
                    lemma_sum_bound(graph, edges, s_pre, s_cur, refined, node as int, key, k as int);
                    assert(accumulated(
                        table@,
                        graph,
                        edges,
                        s_pre,
                        s_cur,
                        refined,
                        node as int,
                        lo as int,
                        k as int,
                    ));
                    assert(sum_or_zero(table@, key) == delta_part(
                        edges,
                        s_pre,
                        key,
                        edges.len() as int,
                    ) + refined_part(graph, s_pre, s_cur, refined, key, node as int) + row_part(
                        graph,
                        s_pre,
                        s_cur,
                        node as int,
                        key,
                        lo as int,
                        k as int,
                    ));
                }
            }
            add_change(table, keys, a, b, -w, Ghost(MAX_AGGREGATE as int));
            let ghost middle = table@;
            proof {
                assert forall|key: u128| abs(
                    #[trigger] sum_or_zero(table@, key) + hit(key, c, d, w as int),
                ) <= MAX_AGGREGATE by {
                    lemma_sum_bound(graph, edges, s_pre, s_cur, refined, node as int, key, k1);
                    assert(sum_or_zero(middle, key) == sum_or_zero(start, key) + hit(
                        key,
                        a,
                        b,
                        -(w as int),
                    ));
                    assert(sum_or_zero(start, key) == delta_part(
                        edges,
                        s_pre,
                        key,
                        edges.len() as int,
                    ) + refined_part(graph, s_pre, s_cur, refined, key, node as int) + row_part(
                        graph,
                        s_pre,
                        s_cur,
                        node as int,
                        key,
                        lo as int,
                        k as int,
                    ));
                }
            }
            add_change(table, keys, c, d, w, Ghost(MAX_AGGREGATE as int));
            proof {
                assert forall|key: u128| #[trigger]
                    sum_or_zero(table@, key) == delta_part(edges, s_pre, key, edges.len() as int)
                        + refined_part(graph, s_pre, s_cur, refined, key, node as int) + row_part(
                        graph,
                        s_pre,
                        s_cur,
                        node as int,
                        key,
                        lo as int,
                        k1,
                    ) by {
                    assert(sum_or_zero(middle, key) == sum_or_zero(start, key) + hit(
                        key,
                        a,
                        b,
                        -(w as int),
                    ));
                    assert(sum_or_zero(start, key) == delta_part(
                        edges,
                        s_pre,
                        key,
                        edges.len() as int,
                    ) + refined_part(graph, s_pre, s_cur, refined, key, node as int) + row_part(
                        graph,
                        s_pre,
                        s_cur,
                        node as int,
                        key,
                        lo as int,
                        k as int,
                    ));
                }
            }
        } else {
            proof {
                assert forall|key: u128| #[trigger]
                    sum_or_zero(table@, key) == delta_part(edges, s_pre, key, edges.len() as int)
                        + refined_part(graph, s_pre, s_cur, refined, key, node as int) + row_part(
                        graph,
                        s_pre,
                        s_cur,
                        node as int,
                        key,
                        lo as int,
                        k1,
                    ) by {
                    assert(sum_or_zero(start, key) == delta_part(
                        edges,
                        s_pre,
                        key,
                        edges.len() as int,
                    ) + refined_part(graph, s_pre, s_cur, refined, key, node as int) + row_part(
                        graph,
                        s_pre,
                        s_cur,
                        node as int,
                        key,
                        lo as int,
                        k as int,
                    ));
                }
            }
        }
        proof {
            assert(accumulated(table@, graph, edges, s_pre, s_cur, refined, node as int, lo as int, k1));
        }
        k += 1;
    }
}

/// Every sum that the table passes through lies within the bound: the changed
/// edges, the refined nodes below `v`, the entries of the row of `v` below `k`,
/// and half of the entry at `k`.
proof fn lemma_sum_bound(
    graph: &InMemoryGraph,
    edges: Seq<Edge>,
    s_pre: Seq<usize>,
    s_cur: Seq<usize>,
    refined: Seq<bool>,
    v: int,
    key: u128,
    k: int,
)
    requires
        graph.wf(),
        0 <= v < graph.node_count,
        graph.row_lo(v) <= k <= graph.row_hi(v),
        abs_edge_weight_sum(edges, edges.len() as int) <= MAX_TOTAL_WEIGHT,
    ensures
        abs(
            delta_part(edges, s_pre, key, edges.len() as int) + refined_part(
                graph,
                s_pre,
                s_cur,
                refined,
                key,
                v,
            ) + row_part(graph, s_pre, s_cur, v, key, graph.row_lo(v), k),
        ) <= MAX_TOTAL_WEIGHT + 2 * abs_weight_sum(graph.weights@, 0, k),
        k < graph.row_hi(v) ==> MAX_TOTAL_WEIGHT + 2 * abs_weight_sum(graph.weights@, 0, k) + abs(
            graph.weights@[k] as int,
        ) <= MAX_AGGREGATE,
        MAX_TOTAL_WEIGHT + 2 * abs_weight_sum(graph.weights@, 0, k) <= MAX_AGGREGATE,
{
    graph.lemma_row_bounds(v);
    lemma_delta_part_bound(edges, s_pre, key, edges.len() as int);
    lemma_refined_part_bound(graph, s_pre, s_cur, refined, key, v);
    lemma_row_part_bound(graph, s_pre, s_cur, v, key, graph.row_lo(v), k);
    lemma_abs_weight_sum_split(graph.weights@, 0, graph.row_lo(v), k);
    lemma_abs_weight_sum_part(graph.weights@, 0, 0, k, graph.entries());
    if k < graph.row_hi(v) {
        lemma_abs_weight_sum_part(graph.weights@, 0, 0, k + 1, graph.entries());
        assert(abs_weight_sum(graph.weights@, 0, k + 1) == abs_weight_sum(graph.weights@, 0, k)
            + abs(graph.weights@[k] as int));
        lemma_abs_weight_sum_nonneg(graph.weights@, 0, k);
    }
}

/// The sub-communities that the next run takes as those of before: the ones
/// of now for the refined nodes, and the ones of before for the others.
pub open spec fn next_previous(s_pre: Seq<usize>, s_cur: Seq<usize>, refined: Seq<bool>) -> Seq<usize> {
    Seq::new(
        s_pre.len(),
        |v: int|
            if refined[v] {
                s_cur[v]
            } else {
                s_pre[v]
            },
    )
}

/// The greatest sub-community id of before or now.
pub open spec fn greatest_of(s_pre: Seq<usize>, s_cur: Seq<usize>) -> int {
    if max_label(s_cur, s_cur.len() as int) >= max_label(s_pre, s_pre.len() as int) {
        max_label(s_cur, s_cur.len() as int)
    } else {
        max_label(s_pre, s_pre.len() as int)
    }
}

/// Whether every id is below `usize::MAX`.
pub open spec fn below_max(ids: Seq<usize>) -> bool {
    forall|v: int| 0 <= v < ids.len() ==> (#[trigger] ids[v]) < usize::MAX
}

/// The greatest id; zero where there is none.
fn greatest_id(ids: &Vec<usize>) -> (greatest: usize)
    ensures
        greatest == max_label(ids@, ids@.len() as int),
{
    let mut greatest: usize = 0;
    let mut v: usize = 0;
    while v < ids.len()
        invariant
            v <= ids@.len(),
            greatest == max_label(ids@, v as int),
        decreases ids@.len() - v,
    {
        if ids[v] > greatest {
            greatest = ids[v];
        }
        v += 1;
    }
    greatest
}

/// Gathers the weight between every pair of sub-communities.
fn gather_changes(
    graph: &InMemoryGraph,
    delta_graph: &GraphInput,
    previous_node_to_subcommunity: &Vec<usize>,
    current_node_to_subcommunity: &Vec<usize>,
    refined_nodes: &SharedBitVec,
    Ghost(greatest): Ghost<int>,
) -> (gathered: (HashMap<u128, i64>, Vec<u128>))
    requires
        graph.wf(),
        forall|i: int|
            0 <= i < delta_graph.edges@.len() ==> (#[trigger] delta_graph.edges@[i]).0
                < graph.node_count && delta_graph.edges@[i].1 < graph.node_count,
        abs_edge_weight_sum(delta_graph.edges@, delta_graph.edges@.len() as int)
            <= MAX_TOTAL_WEIGHT,
        previous_node_to_subcommunity@.len() == graph.node_count,
        current_node_to_subcommunity@.len() == graph.node_count,
        refined_nodes.wf(),
        refined_nodes@.len() == graph.node_count,
        forall|v: int|
            0 <= v < graph.node_count ==> (#[trigger] previous_node_to_subcommunity@[v])
                <= greatest,
        forall|v: int|
            0 <= v < graph.node_count ==> (#[trigger] current_node_to_subcommunity@[v])
                <= greatest,
    ensures
        lists_keys(gathered.1@, gathered.0@),
        keys_ok(gathered.1@, greatest),
        forall|key: u128| #[trigger]
            sum_or_zero(gathered.0@, key) == agg_weight(
                graph,
                delta_graph.edges@,
                previous_node_to_subcommunity@,
                current_node_to_subcommunity@,
                refined_nodes@,
                key,
            ),
{
    let n: usize = graph.node_count;
    let ghost edges = delta_graph.edges@;
    let ghost s_pre = previous_node_to_subcommunity@;
    let ghost s_cur = current_node_to_subcommunity@;
    let ghost refined = refined_nodes@;
    let mut table: HashMap<u128, i64> = HashMap::new();
    let mut keys: Vec<u128> = Vec::new();
    add_delta_edges(delta_graph, previous_node_to_subcommunity, &mut table, &mut keys, Ghost(greatest));
    let mut v: usize = 0;
    while v < n
        invariant
            graph.wf(),
            n == graph.node_count,
            edges == delta_graph.edges@,
            s_pre == previous_node_to_subcommunity@,
            s_cur == current_node_to_subcommunity@,
            refined == refined_nodes@,
            refined_nodes.wf(),
            s_pre.len() == n,
            s_cur.len() == n,
            refined.len() == n,
            abs_edge_weight_sum(edges, edges.len() as int) <= MAX_TOTAL_WEIGHT,
            forall|u: int| 0 <= u < n ==> (#[trigger] s_pre[u]) <= greatest,
            forall|u: int| 0 <= u < n ==> (#[trigger] s_cur[u]) <= greatest,
            v <= n,
            lists_keys(keys@, table@),
            keys_ok(keys@, greatest),
            forall|key: u128| #[trigger]
                sum_or_zero(table@, key) == delta_part(edges, s_pre, key, edges.len() as int)
                    + refined_part(graph, s_pre, s_cur, refined, key, v as int),
        decreases n - v,
    {
        let ghost before = table@;
        let ghost v1: int = v + 1;
        if refined_nodes.get(v) {
            proof {
                assert(accumulated(
                    table@,
                    graph,
                    edges,
                    s_pre,
                    s_cur,
                    refined,
                    v as int,
                    graph.row_lo(v as int),
                    graph.row_lo(v as int),
                )) by {
                    assert forall|key: u128| #[trigger]
                        sum_or_zero(table@, key) == delta_part(
                            edges,
                            s_pre,
                            key,
                            edges.len() as int,
                        ) + refined_part(graph, s_pre, s_cur, refined, key, v as int) + row_part(
                            graph,
                            s_pre,
                            s_cur,
                            v as int,
                            key,
                            graph.row_lo(v as int),
                            graph.row_lo(v as int),
                        ) by {}
                }
            }
            add_refined_row(
                graph,
                v,
                previous_node_to_subcommunity,
                current_node_to_subcommunity,
                &mut table,
                &mut keys,
                Ghost(edges),
                Ghost(refined),
                Ghost(greatest),
            );
        }
        proof {
            assert forall|key: u128| #[trigger]
                sum_or_zero(table@, key) == delta_part(edges, s_pre, key, edges.len() as int)
                    + refined_part(graph, s_pre, s_cur, refined, key, v1) by {
                if refined[v as int] {
                    assert(sum_or_zero(table@, key) == delta_part(
                        edges,
                        s_pre,
                        key,
                        edges.len() as int,
                    ) + refined_part(graph, s_pre, s_cur, refined, key, v as int) + row_part(
                        graph,
                        s_pre,
                        s_cur,
                        v as int,
                        key,
                        graph.row_lo(v as int),
                        graph.row_hi(v as int),
                    ));
                } else {
                    assert(sum_or_zero(before, key) == delta_part(
                        edges,
                        s_pre,
                        key,
                        edges.len() as int,
                    ) + refined_part(graph, s_pre, s_cur, refined, key, v as int));
                }
            }
        }
        v += 1;
    }
    (table, keys)
}

/// Whether the first `upto` keys are written out: one edge for each whose weight is not zero.
pub open spec fn written(out: Seq<Edge>, keys: Seq<u128>, table: Map<u128, i64>, upto: int) -> bool {
    &&& forall|i: int|
        0 <= i < out.len() ==> (#[trigger] out[i]).0 <= out[i].1 && out[i].2 == Some(
            sum_or_zero(table, edge_key(out[i])) as i64,
        ) && sum_or_zero(table, edge_key(out[i])) != 0 && exists|a: int|
            0 <= a < upto && #[trigger] keys[a] == edge_key(out[i])
    &&& forall|i: int, j: int| 0 <= i < j < out.len() ==> edge_key(out[i]) < edge_key(out[j])
    &&& forall|a: int|
        0 <= a < upto && sum_or_zero(table, #[trigger] keys[a]) != 0 ==> exists|i: int|
            0 <= i < out.len() && #[trigger] edge_key(out[i]) == keys[a]
}

/// Writes the table out: one edge for each key whose weight is not zero, in ascending order of the keys.
fn write_changes(table: &HashMap<u128, i64>, keys: &Vec<u128>, Ghost(greatest): Ghost<int>) -> (out:
    Vec<Edge>)
    requires
        ascending(keys@),
        keys@.no_duplicates(),
        forall|key: u128| #[trigger] table@.contains_key(key) <==> keys@.contains(key),
        keys_ok(keys@, greatest),
        greatest < usize::MAX,
    ensures
        written(out@, keys@, table@, keys@.len() as int),
        forall|i: int| 0 <= i < out@.len() ==> (#[trigger] out@[i]).0 <= greatest && out@[i].1 <= greatest,
{
    let mut out: Vec<Edge> = Vec::new();
    let mut a: usize = 0;
    while a < keys.len()
        invariant
            ascending(keys@),
            keys@.no_duplicates(),
            forall|key: u128| #[trigger] table@.contains_key(key) <==> keys@.contains(key),
            keys_ok(keys@, greatest),
            greatest < usize::MAX,
            a <= keys@.len(),
            written(out@, keys@, table@, a as int),
            forall|i: int|
                0 <= i < out@.len() ==> (#[trigger] out@[i]).0 <= greatest && out@[i].1 <= greatest,
        decreases keys@.len() - a,
    {
        let key: u128 = keys[a];
        let weight: i64 = match table.get(&key) {
            Some(x) => *x,
            None => 0,
        };
        let ghost before = out@;
        let ghost a1: int = a + 1;
        proof {
            assert(weight == sum_or_zero(table@, key));
            assert(key_high(keys@[a as int]) <= key_low(keys@[a as int]) <= greatest);
        }
        if weight != 0 {
            let (high, low) = split_key(key);
            out.push((high as usize, low as usize, Some(weight)));
            proof {
                let last = before.len() as int;
                assert(out@[last] == (high as usize, low as usize, Some(weight)));
                assert(edge_key(out@[last]) == key);
                assert forall|i: int, j: int| 0 <= i < j < out@.len() implies edge_key(out@[i])
                    < edge_key(out@[j]) by {
                    if j == last {
                        assert(out@[i] == before[i]);
                        let b = choose|b: int| 0 <= b < a && #[trigger] keys@[b] == edge_key(before[i]);
                        assert(keys@[b] <= keys@[a as int]);
                        assert(keys@[b] != keys@[a as int]);
                    } else {
                        assert(out@[i] == before[i] && out@[j] == before[j]);
                    }
                }
                assert forall|i: int| 0 <= i < out@.len() implies (#[trigger] out@[i]).0
                    <= out@[i].1 && out@[i].2 == Some(sum_or_zero(table@, edge_key(out@[i])) as i64)
                    && sum_or_zero(table@, edge_key(out@[i])) != 0 && exists|b: int|
                    0 <= b < a1 && #[trigger] keys@[b] == edge_key(out@[i]) by {
                    if i < last {
                        assert(out@[i] == before[i]);
                        let b = choose|b: int| 0 <= b < a && #[trigger] keys@[b] == edge_key(before[i]);
                        assert(0 <= b < a1);
                    } else {
                        assert(keys@[a as int] == edge_key(out@[i]));
                    }
                }
                assert forall|b: int|
                    0 <= b < a1 && sum_or_zero(table@, #[trigger] keys@[b]) != 0 implies exists|
                    i: int,
                |
                    0 <= i < out@.len() && #[trigger] edge_key(out@[i]) == keys@[b] by {
                    if b < a {
                        let i = choose|i: int|
                            0 <= i < before.len() && #[trigger] edge_key(before[i]) == keys@[b];
                        assert(out@[i] == before[i]);
                        assert(edge_key(out@[i]) == keys@[b]);
                    } else {
                        assert(edge_key(out@[last]) == keys@[b]);
                    }
                }
            }
        } else {
            proof {
                assert forall|i: int| 0 <= i < out@.len() implies (#[trigger] out@[i]).0
                    <= out@[i].1 && out@[i].2 == Some(sum_or_zero(table@, edge_key(out@[i])) as i64)
                    && sum_or_zero(table@, edge_key(out@[i])) != 0 && exists|b: int|
                    0 <= b < a1 && #[trigger] keys@[b] == edge_key(out@[i]) by {
                    let b = choose|b: int| 0 <= b < a && #[trigger] keys@[b] == edge_key(out@[i]);
                    assert(0 <= b < a1);
                }
            }
        }
        proof {
            assert(written(out@, keys@, table@, a1));
        }
        a += 1;
    }
    out
}

/// The aggregation operator of one level.
///
/// Builds the change of the next level: each changed edge of this level
/// between the sub-communities that its endpoints had before, and each moved
/// edge of a refined node retired there and posted between the
/// sub-communities of now; the weights are summed by pair, and pairs that sum
/// to zero are dropped. Returns it with the sub-communities to take as those of before.
pub fn inc_aggregation(
    graph: &InMemoryGraph,
    delta_graph: &GraphInput,
    previous_node_to_subcommunity: &Vec<usize>,
    current_node_to_subcommunity: &Vec<usize>,
    refined_nodes: &SharedBitVec,
) -> (next: (GraphInput, Vec<usize>))
    requires
        graph.wf(),
        forall|i: int|
            0 <= i < delta_graph.edges@.len() ==> (#[trigger] delta_graph.edges@[i]).0
                < graph.node_count && delta_graph.edges@[i].1 < graph.node_count,
        abs_edge_weight_sum(delta_graph.edges@, delta_graph.edges@.len() as int)
            <= MAX_TOTAL_WEIGHT,
        previous_node_to_subcommunity@.len() == graph.node_count,
        current_node_to_subcommunity@.len() == graph.node_count,
        below_max(previous_node_to_subcommunity@),
        below_max(current_node_to_subcommunity@),
        refined_nodes.wf(),
        refined_nodes@.len() == graph.node_count,
    ensures
        next.0.dataset_id@ == delta_graph.dataset_id@,
        next.0.node_count == greatest_of(
            previous_node_to_subcommunity@,
            current_node_to_subcommunity@,
        ) + 1,
        is_compressed(
            next.0.edges@,
            graph,
            delta_graph.edges@,
            previous_node_to_subcommunity@,
            current_node_to_subcommunity@,
            refined_nodes@,
        ),
        next.0.edges@ == compressed(
            graph,
            delta_graph.edges@,
            previous_node_to_subcommunity@,
            current_node_to_subcommunity@,
            refined_nodes@,
        ),
        forall|i: int|
            0 <= i < next.0.edges@.len() ==> (#[trigger] next.0.edges@[i]).0 < next.0.node_count
                && next.0.edges@[i].1 < next.0.node_count,
        next.1@ == next_previous(
            previous_node_to_subcommunity@,
            current_node_to_subcommunity@,
            refined_nodes@,
        ),
{
    let n: usize = graph.node_count;
    let ghost edges = delta_graph.edges@;
    let ghost s_pre = previous_node_to_subcommunity@;
    let ghost s_cur = current_node_to_subcommunity@;
    let ghost refined = refined_nodes@;
    let greatest_cur = greatest_id(current_node_to_subcommunity);
    let greatest_pre = greatest_id(previous_node_to_subcommunity);
    let greatest: usize = if greatest_cur >= greatest_pre {
        greatest_cur
    } else {
        greatest_pre
    };
    proof {
        crate::solver::algorithm::refinement::lemma_max_label_in_use(s_cur, n as int);
        crate::solver::algorithm::refinement::lemma_max_label_in_use(s_pre, n as int);
        assert forall|v: int| 0 <= v < n implies (#[trigger] s_pre[v]) <= greatest by {
            lemma_max_label(s_pre, n as int, v);
        }
        assert forall|v: int| 0 <= v < n implies (#[trigger] s_cur[v]) <= greatest by {
            lemma_max_label(s_cur, n as int, v);
        }
    }
    let (table, mut keys) = gather_changes(
        graph,
        delta_graph,
        previous_node_to_subcommunity,
        current_node_to_subcommunity,
        refined_nodes,
        Ghost(greatest as int),
    );
    let ghost unsorted = keys@;
    sort_keys(&mut keys);
    proof {
        unsorted.to_multiset_ensures();
        keys@.to_multiset_ensures();
        unsorted.lemma_multiset_has_no_duplicates();
        keys@.lemma_multiset_has_no_duplicates_conv();
        assert forall|x: u128| unsorted.contains(x) <==> keys@.contains(x) by {
            assert(unsorted.to_multiset().count(x) == keys@.to_multiset().count(x));
        }
        assert(keys_ok(keys@, greatest as int)) by {
            assert forall|i: int| 0 <= i < keys@.len() implies key_high(#[trigger] keys@[i])
                <= key_low(keys@[i]) <= greatest by {
                assert(keys@.contains(keys@[i]));
                assert(unsorted.contains(keys@[i]));
                let j = choose|j: int| 0 <= j < unsorted.len() && unsorted[j] == keys@[i];
                assert(key_high(unsorted[j]) <= key_low(unsorted[j]) <= greatest);
            }
        }
    }
    let out = write_changes(&table, &keys, Ghost(greatest as int));
    let mut next_previous_map: Vec<usize> = Vec::new();
    let mut v: usize = 0;
    while v < n
        invariant
            n == graph.node_count,
            s_pre == previous_node_to_subcommunity@,
            s_cur == current_node_to_subcommunity@,
            refined == refined_nodes@,
            refined_nodes.wf(),
            s_pre.len() == n,
            s_cur.len() == n,
            refined.len() == n,
            v <= n,
            next_previous_map@.len() == v,
            forall|u: int|
                0 <= u < v ==> #[trigger] next_previous_map@[u] == next_previous(
                    s_pre,
                    s_cur,
                    refined,
                )[u],
        decreases n - v,
    {
        if refined_nodes.get(v) {
            next_previous_map.push(current_node_to_subcommunity[v]);
        } else {
            next_previous_map.push(previous_node_to_subcommunity[v]);
        }
        v += 1;
    }
    proof {
        assert(next_previous_map@ =~= next_previous(s_pre, s_cur, refined));
        assert(is_compressed(out@, graph, edges, s_pre, s_cur, refined)) by {
            assert forall|i: int| 0 <= i < out@.len() implies (#[trigger] out@[i]).0 <= out@[i].1
                && out@[i].2 == Some(
                agg_weight(graph, edges, s_pre, s_cur, refined, edge_key(out@[i])) as i64,
            ) && agg_weight(graph, edges, s_pre, s_cur, refined, edge_key(out@[i])) != 0 by {
                assert(sum_or_zero(table@, edge_key(out@[i])) == agg_weight(
                    graph,
                    edges,
                    s_pre,
                    s_cur,
                    refined,
                    edge_key(out@[i]),
                ));
            }
            assert forall|key: u128|
                agg_weight(graph, edges, s_pre, s_cur, refined, key) != 0 implies exists|i: int|
                0 <= i < out@.len() && #[trigger] edge_key(out@[i]) == key by {
                assert(sum_or_zero(table@, key) == agg_weight(
                    graph,
                    edges,
                    s_pre,
                    s_cur,
                    refined,
                    key,
                ));
                assert(table@.contains_key(key));
                assert(keys@.contains(key));
                let a = choose|a: int| 0 <= a < keys@.len() && keys@[a] == key;
                assert(sum_or_zero(table@, keys@[a]) != 0);
            }
        }
    }
    proof {
        lemma_compressed_unique(
            out@,
            compressed(graph, edges, s_pre, s_cur, refined),
            graph,
            edges,
            s_pre,
            s_cur,
            refined,
        );
    }
    let next_delta_graph = GraphInput {
        dataset_id: delta_graph.dataset_id.clone(),
        node_count: greatest + 1,
        edges: out,
    };
    (next_delta_graph, next_previous_map)
}

} // verus!
