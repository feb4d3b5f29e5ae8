use crate::solver::algorithm::degrees::{
    exact_label_degrees, graph_node_degrees, label_degree, labels_ok,
    lemma_label_degree_in_range, lemma_label_degree_update, lemma_scores_of_ok, scores_of,
};
use crate::solver::algorithm::dense::DenseBitset;
use crate::solver::algorithm::gain::{
    best_target, ints, is_best, is_candidate, scores_ok, Scores,
};
use crate::solver::algorithm::parallel_frontier::{
    degree_updates, execute_shard, list_has, ShardResult, lists_ones, moves, node_activates, node_affects, scores,
    shard_activates, shard_affects, shard_moved, shard_moves, SharedBitVec,
};
use crate::solver::graph::in_memory::InMemoryGraph;
use crate::solver::weight::{abs, MAX_RESOLUTION, MAX_TOTAL_WEIGHT};
use crate::solver::algorithm::components::distinct;
use crate::solver::algorithm::merge::{
    degrees_exact, evaluate_merge, ids_below_max, label_in_use, labels_kept,
    lemma_merge_target_in_use, merge_at_once, merge_target, sizes_exact, weight_of,
    weight_or_zero,
};
use std::collections::HashMap;
use vstd::prelude::*;
use vstd::slice::slice_subrange;
use vstd::std_specs::hash::group_hash_axioms;

verus! {

broadcast use group_hash_axioms;

/// One scratch pair per worker: a weight accumulator over the communities,
/// zero between uses, and the list of the entries that a use has written.
pub struct BufferPool {
    buffers: Vec<(Vec<i64>, Vec<usize>)>,
}

impl BufferPool {
    /// The number of workers that the pool serves.
    pub closed spec fn workers(&self) -> nat {
        self.buffers@.len()
    }

    /// Whether every accumulator has `node_count` entries, all zero.
    pub closed spec fn zeroed(&self, node_count: nat) -> bool {
        forall|t: int|
            0 <= t < self.buffers@.len() ==> (#[trigger] self.buffers@[t]).0@ =~= Seq::new(
                node_count,
                |c: int| 0i64,
            )
    }

    /// Whether every dirty list is empty.
    pub closed spec fn clean(&self) -> bool {
        forall|t: int| 0 <= t < self.buffers@.len() ==> (#[trigger] self.buffers@[t]).1@.len() == 0
    }

    /// A pool for `num_threads` workers on a level of `node_count` nodes.
    pub fn new(node_count: usize, num_threads: usize) -> (pool: Self)
        ensures
            pool.workers() == num_threads,
            pool.zeroed(node_count as nat),
            pool.clean(),
    {
        let mut buffers: Vec<(Vec<i64>, Vec<usize>)> = Vec::new();
        let mut t: usize = 0;
        while t < num_threads
            invariant
                t <= num_threads,
                buffers@.len() == t,
                forall|i: int|
                    0 <= i < t ==> (#[trigger] buffers@[i]).0@ =~= Seq::new(
                        node_count as nat,
                        |c: int| 0i64,
                    ) && buffers@[i].1@.len() == 0,
            decreases num_threads - t,
        {
            let zeros: Vec<i64> = vec![0i64; node_count];
            buffers.push((zeros, Vec::new()));
            t += 1;
        }
        BufferPool { buffers }
    }

    /// The number of workers that the pool serves.
    pub fn len(&self) -> (workers: usize)
        ensures
            workers == self.workers(),
    {
        self.buffers.len()
    }

    /// Empties every dirty list. The accumulators are left as they are.
    pub fn reset(&mut self)
        ensures
            final(self).workers() == old(self).workers(),
            final(self).clean(),
            forall|node_count: nat| old(self).zeroed(node_count) ==> final(self).zeroed(node_count),
    {
        let mut t: usize = 0;
        while t < self.buffers.len()
            invariant
                t <= self.buffers@.len(),
                self.buffers@.len() == old(self).buffers@.len(),
                forall|i: int|
                    0 <= i < self.buffers@.len() ==> (#[trigger] self.buffers@[i]).0@ == old(
                        self,
                    ).buffers@[i].0@,
                forall|i: int| 0 <= i < t ==> (#[trigger] self.buffers@[i]).1@.len() == 0,
            decreases self.buffers@.len() - t,
        {
            let pair = &mut self.buffers[t];
            pair.1.clear();
            t += 1;
        }
    }
}

/// The move of `v` in a round, if it makes one: its best target where it is in the frontier.
pub open spec fn round_target(graph: &InMemoryGraph, s: Scores, active: Seq<bool>, v: int) -> Option<
    usize,
> {
    if active[v] {
        best_target(graph, s, v)
    } else {
        None
    }
}

/// The labels after a round: every node of the frontier that has a best target carries it.
pub open spec fn round_labels(graph: &InMemoryGraph, s: Scores, active: Seq<bool>) -> Seq<usize> {
    Seq::new(
        s.labels.len(),
        |v: int|
            match round_target(graph, s, active, v) {
                Some(c) => c,
                None => s.labels[v],
            },
    )
}

/// The nodes that a round moves.
pub open spec fn round_changed(graph: &InMemoryGraph, s: Scores, active: Seq<bool>) -> Seq<bool> {
    Seq::new(s.labels.len(), |v: int| round_target(graph, s, active, v) is Some)
}

/// Whether a node of the frontier makes a move that wakes `u`.
pub open spec fn round_wakes(graph: &InMemoryGraph, s: Scores, active: Seq<bool>, u: int) -> bool {
    exists|v: int|
        0 <= v < active.len() && active[v] && #[trigger] node_activates(graph, s, v, u)
}

/// Whether a node of the frontier makes a move that marks `u` for refinement.
pub open spec fn round_marks(
    graph: &InMemoryGraph,
    s: Scores,
    sub: Seq<usize>,
    active: Seq<bool>,
    u: int,
) -> bool {
    exists|v: int|
        0 <= v < active.len() && active[v] && #[trigger] node_affects(graph, s, sub, v, u)
}

/// The frontier of the next round: the nodes that the moves of this round wake.
pub open spec fn round_next_active(graph: &InMemoryGraph, s: Scores, active: Seq<bool>) -> Seq<
    bool,
> {
    Seq::new(s.labels.len(), |u: int| round_wakes(graph, s, active, u))
}

/// The nodes that the moves of a round mark for refinement.
pub open spec fn round_affected(
    graph: &InMemoryGraph,
    s: Scores,
    sub: Seq<usize>,
    active: Seq<bool>,
) -> Seq<bool> {
    Seq::new(s.labels.len(), |u: int| round_marks(graph, s, sub, active, u))
}

/// The moves of two shards, one after the other, are the moves of the joined shard.
pub proof fn lemma_shard_moves_concat(
    graph: &InMemoryGraph,
    s: Scores,
    a: Seq<usize>,
    b: Seq<usize>,
)
    ensures
        shard_moves(graph, s, a + b) == shard_moves(graph, s, a) + shard_moves(graph, s, b),
    decreases b.len(),
{
    if b.len() == 0 {
        assert(a + b =~= a);
        assert(shard_moves(graph, s, a) + shard_moves(graph, s, b) =~= shard_moves(graph, s, a));
    } else {
        assert((a + b).drop_last() =~= a + b.drop_last());
        assert((a + b).last() == b.last());
        lemma_shard_moves_concat(graph, s, a, b.drop_last());
        let rest = shard_moves(graph, s, b.drop_last());
        match best_target(graph, s, b.last() as int) {
            Some(c) => {
                assert((shard_moves(graph, s, a) + rest).push((b.last(), c)) =~= shard_moves(
                    graph,
                    s,
                    a,
                ) + rest.push((b.last(), c)));
            },
            None => {},
        }
    }
}

/// The degree deltas of two runs of moves, one after the other, are those of the joined run.
pub proof fn lemma_degree_updates_concat(
    labels: Seq<usize>,
    node_degrees: Seq<i64>,
    a: Seq<(usize, usize)>,
    b: Seq<(usize, usize)>,
)
    ensures
        degree_updates(labels, node_degrees, a + b) == degree_updates(labels, node_degrees, a)
            + degree_updates(labels, node_degrees, b),
    decreases b.len(),
{
    if b.len() == 0 {
        assert(a + b =~= a);
        assert(degree_updates(labels, node_degrees, a) + degree_updates(labels, node_degrees, b)
            =~= degree_updates(labels, node_degrees, a));
    } else {
        assert((a + b).drop_last() =~= a + b.drop_last());
        assert((a + b).last() == b.last());
        lemma_degree_updates_concat(labels, node_degrees, a, b.drop_last());
        let m = b.last();
        let first = (labels[m.0 as int], (-node_degrees[m.0 as int]) as i64);
        let second = (m.1, node_degrees[m.0 as int]);
        let da = degree_updates(labels, node_degrees, a);
        let db = degree_updates(labels, node_degrees, b.drop_last());
        assert((da + db).push(first).push(second) =~= da + db.push(first).push(second));
    }
}

/// Move `j` stands in the degree deltas at the places `2j` and `2j + 1`.
pub proof fn lemma_degree_updates_at(
    labels: Seq<usize>,
    node_degrees: Seq<i64>,
    moved: Seq<(usize, usize)>,
    j: int,
)
    requires
        0 <= j < moved.len(),
    ensures
        degree_updates(labels, node_degrees, moved).len() == 2 * moved.len(),
        degree_updates(labels, node_degrees, moved)[2 * j] == (
            labels[moved[j].0 as int],
            (-node_degrees[moved[j].0 as int]) as i64,
        ),
        degree_updates(labels, node_degrees, moved)[2 * j + 1] == (
            moved[j].1,
            node_degrees[moved[j].0 as int],
        ),
    decreases moved.len(),
{
    lemma_degree_updates_len(labels, node_degrees, moved);
    lemma_degree_updates_len(labels, node_degrees, moved.drop_last());
    if j < moved.len() - 1 {
        lemma_degree_updates_at(labels, node_degrees, moved.drop_last(), j);
    }
}

/// Each move gives two degree deltas.
pub proof fn lemma_degree_updates_len(
    labels: Seq<usize>,
    node_degrees: Seq<i64>,
    moved: Seq<(usize, usize)>,
)
    ensures
        degree_updates(labels, node_degrees, moved).len() == 2 * moved.len(),
    decreases moved.len(),
{
    if moved.len() > 0 {
        lemma_degree_updates_len(labels, node_degrees, moved.drop_last());
    }
}

/// Whether one of the moves is a move of `v`.
pub open spec fn moves_have(moved: Seq<(usize, usize)>, v: int) -> bool {
    exists|j: int| 0 <= j < moved.len() && (#[trigger] moved[j]).0 == v
}

/// What holds of the moves of an ascending list of nodes: each is the best
/// target of a node of the list, the nodes ascend, and no node of the list that
/// has a best target is left out.
pub proof fn lemma_shard_moves_facts(graph: &InMemoryGraph, s: Scores, list: Seq<usize>)
    requires
        forall|a: int, b: int| 0 <= a < b < list.len() ==> list[a] < list[b],
    ensures
        shard_moves(graph, s, list).len() <= list.len(),
        forall|j: int|
            0 <= j < shard_moves(graph, s, list).len() ==> best_target(
                graph,
                s,
                (#[trigger] shard_moves(graph, s, list)[j]).0 as int,
            ) == Some(shard_moves(graph, s, list)[j].1) && list_has(
                list,
                shard_moves(graph, s, list)[j].0 as int,
            ),
        forall|a: int, b: int|
            0 <= a < b < shard_moves(graph, s, list).len() ==> shard_moves(graph, s, list)[a].0
                < shard_moves(graph, s, list)[b].0,
        forall|v: int|
            list_has(list, v) && moves(graph, s, v) ==> #[trigger] moves_have(
                shard_moves(graph, s, list),
                v,
            ),
    decreases list.len(),
{
    if list.len() > 0 {
        let head = list.drop_last();
        let last = list.last();
        lemma_shard_moves_facts(graph, s, head);
        let rest = shard_moves(graph, s, head);
        let all = shard_moves(graph, s, list);
        assert forall|j: int| 0 <= j < all.len() implies best_target(
            graph,
            s,
            (#[trigger] all[j]).0 as int,
        ) == Some(all[j].1) && list_has(list, all[j].0 as int) by {
            if j < rest.len() {
                assert(all[j] == rest[j]);
                let i = choose|i: int| 0 <= i < head.len() && #[trigger] head[i] == rest[j].0;
                assert(list[i] == all[j].0);
            } else {
                assert(list[list.len() - 1] == all[j].0);
            }
        }
        assert forall|a: int, b: int| 0 <= a < b < all.len() implies all[a].0 < all[b].0 by {
            if b < rest.len() {
                assert(all[a] == rest[a] && all[b] == rest[b]);
            } else {
                assert(all[a] == rest[a]);
                let i = choose|i: int| 0 <= i < head.len() && #[trigger] head[i] == rest[a].0;
                assert(list[i] < list[list.len() - 1]);
            }
        }
        assert forall|v: int| list_has(list, v) && moves(graph, s, v) implies #[trigger] moves_have(
            all,
            v,
        ) by {
            let i = choose|i: int| 0 <= i < list.len() && #[trigger] list[i] == v;
            if i < head.len() {
                assert(head[i] == v);
                assert(list_has(head, v));
                assert(moves_have(rest, v));
                let j = choose|j: int| 0 <= j < rest.len() && (#[trigger] rest[j]).0 == v;
                assert(all[j] == rest[j]);
            } else {
                assert(all[all.len() - 1].0 == v);
            }
        }
    }
}

/// Evaluates the frontier in shards of equal size, one per worker of the pool,
/// against the partition as it stands, and gathers the moves in shard order.
fn run_shards(
    graph: &InMemoryGraph,
    list: &Vec<usize>,
    node_to_community: &Vec<usize>,
    node_to_subcommunity: &Vec<usize>,
    community_degrees: &Vec<i64>,
    node_degrees: &Vec<i64>,
    twice_total_weight: i64,
    resolution_parameter: i64,
    shared_changed: &mut SharedBitVec,
    shared_affected: &mut SharedBitVec,
    shared_next_active: &mut SharedBitVec,
    buffer_pool: &mut BufferPool,
) -> (result: ShardResult)
    requires
        graph.wf(),
        labels_ok(node_to_community@, graph.node_count as int),
        node_to_subcommunity@.len() == graph.node_count,
        ints(community_degrees@) == exact_label_degrees(graph, node_to_community@),
        ints(node_degrees@) == graph_node_degrees(graph),
        twice_total_weight == graph.twice_total(),
        0 <= resolution_parameter <= MAX_RESOLUTION,
        forall|i: int| 0 <= i < list@.len() ==> (#[trigger] list@[i]) < graph.node_count,
        old(buffer_pool).workers() > 0,
        old(buffer_pool).zeroed(graph.node_count as nat),
        old(buffer_pool).clean(),
        old(shared_changed).wf(),
        old(shared_changed)@ == Seq::new(graph.node_count as nat, |i: int| false),
        old(shared_affected).wf(),
        old(shared_affected)@ == Seq::new(graph.node_count as nat, |i: int| false),
        old(shared_next_active).wf(),
        old(shared_next_active)@ == Seq::new(graph.node_count as nat, |i: int| false),
    ensures
        result.node_to_community_updates@ == shard_moves(
            graph,
            scores_of(graph, node_to_community@, resolution_parameter as int),
            list@,
        ),
        result.community_degree_updates@ == degree_updates(
            node_to_community@,
            node_degrees@,
            result.node_to_community_updates@,
        ),
        final(shared_changed).wf(),
        final(shared_changed)@.len() == graph.node_count,
        final(shared_affected).wf(),
        final(shared_affected)@.len() == graph.node_count,
        final(shared_next_active).wf(),
        final(shared_next_active)@.len() == graph.node_count,
        forall|u: int|
            0 <= u < graph.node_count ==> #[trigger] final(shared_changed)@[u] == shard_moved(
                graph,
                scores_of(graph, node_to_community@, resolution_parameter as int),
                list@,
                u,
            ),
        forall|u: int|
            0 <= u < graph.node_count ==> #[trigger] final(shared_next_active)@[u]
                == shard_activates(
                graph,
                scores_of(graph, node_to_community@, resolution_parameter as int),
                list@,
                u,
            ),
        forall|u: int|
            0 <= u < graph.node_count ==> #[trigger] final(shared_affected)@[u] == shard_affects(
                graph,
                scores_of(graph, node_to_community@, resolution_parameter as int),
                node_to_subcommunity@,
                list@,
                u,
            ),
        final(buffer_pool).workers() == old(buffer_pool).workers(),
        final(buffer_pool).zeroed(graph.node_count as nat),
        final(buffer_pool).clean(),
{
    let n: usize = graph.node_count;
    let ghost s = scores_of(graph, node_to_community@, resolution_parameter as int);
    let ghost sub = node_to_subcommunity@;
    proof {
        lemma_scores_of_ok(graph, node_to_community@, resolution_parameter as int);
        assert(s == scores(
            node_to_community@,
            community_degrees@,
            node_degrees@,
            twice_total_weight,
            resolution_parameter,
        ));
    }
    let num_threads: usize = buffer_pool.len();
    let quotient: usize = list.len() / num_threads;
    let remainder: usize = list.len() % num_threads;
    proof {
        let len = list@.len() as int;
        let t = num_threads as int;
        assert(quotient == len / t && remainder == len % t);
        assert(len == (len / t) * t + len % t && (t >= 2 ==> len / t <= len / 2)) by (nonlinear_arith)
            requires
                t > 0,
                len >= 0,
        ;
        assert(quotient == 0 && remainder == 0 ==> len == 0) by (nonlinear_arith)
            requires
                len == quotient * t + remainder,
        ;
        assert(t == 1 ==> remainder == 0);
    }
    let chunk_size: usize = if remainder != 0 {
        quotient + 1
    } else {
        quotient
    };
    let mut all_moves: Vec<(usize, usize)> = Vec::new();
    let mut all_deltas: Vec<(usize, i64)> = Vec::new();
    let mut start: usize = 0;
    let mut worker: usize = 0;
    while start < list.len()
        invariant
            graph.wf(),
            scores_ok(graph, s),
            s == scores(
                node_to_community@,
                community_degrees@,
                node_degrees@,
                twice_total_weight,
                resolution_parameter,
            ),
            sub == node_to_subcommunity@,
            sub.len() == n,
            n == graph.node_count,
            forall|i: int| 0 <= i < list@.len() ==> (#[trigger] list@[i]) < n,
            start <= list@.len(),
            worker <= start,
            list@.len() > 0 ==> chunk_size > 0,
            num_threads == buffer_pool.workers(),
            num_threads > 0,
            buffer_pool.zeroed(n as nat),
            buffer_pool.clean(),
            shared_changed.wf(),
            shared_changed@.len() == n,
            shared_affected.wf(),
            shared_affected@.len() == n,
            shared_next_active.wf(),
            shared_next_active@.len() == n,
            all_moves@ == shard_moves(graph, s, list@.take(start as int)),
            all_deltas@ == degree_updates(node_to_community@, node_degrees@, all_moves@),
            forall|u: int|
                0 <= u < n ==> #[trigger] shared_changed@[u] == shard_moved(
                    graph,
                    s,
                    list@.take(start as int),
                    u,
                ),
            forall|u: int|
                0 <= u < n ==> #[trigger] shared_next_active@[u] == shard_activates(
                    graph,
                    s,
                    list@.take(start as int),
                    u,
                ),
            forall|u: int|
                0 <= u < n ==> #[trigger] shared_affected@[u] == shard_affects(
                    graph,
                    s,
                    sub,
                    list@.take(start as int),
                    u,
                ),
        decreases list@.len() - start,
    {
        let end: usize = if list.len() - start <= chunk_size {
            list.len()
        } else {
            start + chunk_size
        };
        let shard = slice_subrange(list.as_slice(), start, end);
        let ghost done = list@.take(start as int);
        let ghost next = list@.take(end as int);
        let ghost changed_before = shared_changed@;
        let ghost active_before = shared_next_active@;
        let ghost affected_before = shared_affected@;
        let ghost moves_before = all_moves@;
        proof {
            assert(next =~= done + shard@);
            assert forall|i: int| 0 <= i < shard@.len() implies (#[trigger] shard@[i]) < n by {
                assert(shard@[i] == list@[start + i]);
            }
        }
        let slot: usize = worker % num_threads;
        let pair = &mut buffer_pool.buffers[slot];
        let mut result = execute_shard(
            graph,
            shard,
            node_to_community,
            node_to_subcommunity,
            community_degrees,
            node_degrees,
            twice_total_weight,
            resolution_parameter,
            shared_changed,
            shared_affected,
            shared_next_active,
            &mut pair.0,
            &mut pair.1,
        );
        all_moves.append(&mut result.node_to_community_updates);
        all_deltas.append(&mut result.community_degree_updates);
        proof {
            lemma_shard_moves_concat(graph, s, done, shard@);
            lemma_degree_updates_concat(
                node_to_community@,
                node_degrees@,
                moves_before,
                shard_moves(graph, s, shard@),
            );
            assert forall|u: int| 0 <= u < n implies #[trigger] shared_changed@[u] == shard_moved(
                graph,
                s,
                next,
                u,
            ) by {
                assert(changed_before[u] == shard_moved(graph, s, done, u));
                if shard_moved(graph, s, next, u) {
                    let i = choose|i: int|
                        0 <= i < next.len() && #[trigger] next[i] == u && moves(graph, s, u);
                    if i < start {
                        assert(done[i] == u);
                    } else {
                        assert(shard@[i - start] == u);
                    }
                }
                if shard_moved(graph, s, done, u) {
                    let i = choose|i: int|
                        0 <= i < done.len() && #[trigger] done[i] == u && moves(graph, s, u);
                    assert(next[i] == u);
                }
                if shard_moved(graph, s, shard@, u) {
                    let i = choose|i: int|
                        0 <= i < shard@.len() && #[trigger] shard@[i] == u && moves(graph, s, u);
                    assert(next[start + i] == u);
                }
            }
            assert forall|u: int|
                0 <= u < n implies #[trigger] shared_next_active@[u] == shard_activates(
                graph,
                s,
                next,
                u,
            ) by {
                assert(active_before[u] == shard_activates(graph, s, done, u));
                if shard_activates(graph, s, next, u) {
                    let i = choose|i: int|
                        0 <= i < next.len() && node_activates(
                            graph,
                            s,
                            #[trigger] next[i] as int,
                            u,
                        );
                    if i < start {
                        assert(node_activates(graph, s, done[i] as int, u));
                    } else {
                        assert(node_activates(graph, s, shard@[i - start] as int, u));
                    }
                }
                if shard_activates(graph, s, done, u) {
                    let i = choose|i: int|
                        0 <= i < done.len() && node_activates(
                            graph,
                            s,
                            #[trigger] done[i] as int,
                            u,
                        );
                    assert(node_activates(graph, s, next[i] as int, u));
                }
                if shard_activates(graph, s, shard@, u) {
                    let i = choose|i: int|
                        0 <= i < shard@.len() && node_activates(
                            graph,
                            s,
                            #[trigger] shard@[i] as int,
                            u,
                        );
                    assert(node_activates(graph, s, next[start + i] as int, u));
                }
            }
            assert forall|u: int|
                0 <= u < n implies #[trigger] shared_affected@[u] == shard_affects(
                graph,
                s,
                sub,
                next,
                u,
            ) by {
                assert(affected_before[u] == shard_affects(graph, s, sub, done, u));
                if shard_affects(graph, s, sub, next, u) {
                    let i = choose|i: int|
                        0 <= i < next.len() && node_affects(
                            graph,
                            s,
                            sub,
                            #[trigger] next[i] as int,
                            u,
                        );
                    if i < start {
                        assert(node_affects(graph, s, sub, done[i] as int, u));
                    } else {
                        assert(node_affects(graph, s, sub, shard@[i - start] as int, u));
                    }
                }
                if shard_affects(graph, s, sub, done, u) {
                    let i = choose|i: int|
                        0 <= i < done.len() && node_affects(
                            graph,
                            s,
                            sub,
                            #[trigger] done[i] as int,
                            u,
                        );
                    assert(node_affects(graph, s, sub, next[i] as int, u));
                }
                if shard_affects(graph, s, sub, shard@, u) {
                    let i = choose|i: int|
                        0 <= i < shard@.len() && node_affects(
                            graph,
                            s,
                            sub,
                            #[trigger] shard@[i] as int,
                            u,
                        );
                    assert(node_affects(graph, s, sub, next[start + i] as int, u));
                }
            }
        }
        start = end;
        worker += 1;
    }

    proof {
        assert(list@.take(list@.len() as int) =~= list@);
    }
    ShardResult { node_to_community_updates: all_moves, community_degree_updates: all_deltas }
}

/// Applies the moves of a round in order: each node takes its new community,
/// and the degree of the community left and of the community joined follow.
fn apply_moves(
    graph: &InMemoryGraph,
    list: &Vec<usize>,
    active_nodes: &DenseBitset,
    all_moves: &Vec<(usize, usize)>,
    all_deltas: &Vec<(usize, i64)>,
    node_to_community: &mut Vec<usize>,
    community_degrees: &mut Vec<i64>,
    node_degrees: &Vec<i64>,
    resolution_parameter: i64,
)
    requires
        graph.wf(),
        active_nodes@.len() == graph.node_count,
        lists_ones(list@, active_nodes@),
        labels_ok(old(node_to_community)@, graph.node_count as int),
        ints(old(community_degrees)@) == exact_label_degrees(graph, old(node_to_community)@),
        ints(node_degrees@) == graph_node_degrees(graph),
        0 <= resolution_parameter <= MAX_RESOLUTION,
        all_moves@ == shard_moves(
            graph,
            scores_of(graph, old(node_to_community)@, resolution_parameter as int),
            list@,
        ),
        all_deltas@ == degree_updates(old(node_to_community)@, node_degrees@, all_moves@),
    ensures
        final(node_to_community)@ == round_labels(
            graph,
            scores_of(graph, old(node_to_community)@, resolution_parameter as int),
            active_nodes@,
        ),
        labels_ok(final(node_to_community)@, graph.node_count as int),
        ints(final(community_degrees)@) == exact_label_degrees(graph, final(node_to_community)@),
{
    let n: usize = graph.node_count;
    let ghost labels0 = node_to_community@;
    let ghost s = scores_of(graph, labels0, resolution_parameter as int);
    let ghost active = active_nodes@;
    proof {
        lemma_shard_moves_facts(graph, s, list@);
        lemma_degree_updates_len(labels0, node_degrees@, all_moves@);
        assert(ints(community_degrees@).len() == n);
    }
    let mut j: usize = 0;
    while j < all_moves.len()
        invariant
            graph.wf(),
            n == graph.node_count,
            s == scores_of(graph, labels0, resolution_parameter as int),
            labels_ok(labels0, n as int),
            0 <= resolution_parameter <= MAX_RESOLUTION,
            labels_ok(node_to_community@, n as int),
            ints(node_degrees@) == graph_node_degrees(graph),
            lists_ones(list@, active),
            active.len() == n,
            all_moves@ == shard_moves(graph, s, list@),
            all_deltas@ == degree_updates(labels0, node_degrees@, all_moves@),
            all_deltas@.len() == 2 * all_moves@.len(),
            j <= all_moves@.len(),
            forall|a: int|
                0 <= a < all_moves@.len() ==> best_target(
                    graph,
                    s,
                    (#[trigger] all_moves@[a]).0 as int,
                ) == Some(all_moves@[a].1) && list_has(list@, all_moves@[a].0 as int),
            forall|a: int, b: int|
                0 <= a < b < all_moves@.len() ==> all_moves@[a].0 < all_moves@[b].0,
            forall|v: int|
                0 <= v < n ==> #[trigger] node_to_community@[v] == (if moves_have(
                    all_moves@.take(j as int),
                    v,
                ) {
                    best_target(graph, s, v)->0
                } else {
                    labels0[v]
                }),
            community_degrees@.len() == n,
            ints(community_degrees@) == exact_label_degrees(graph, node_to_community@),
        decreases all_moves@.len() - j,
    {
        let delta_count: usize = all_deltas.len();
        assert(2 * j + 1 < delta_count);
        let (node, new_comm) = all_moves[j];
        let (from, loss) = all_deltas[2 * j];
        let (to, gain_) = all_deltas[2 * j + 1];
        let ghost labels_before = node_to_community@;
        let ghost nd = graph_node_degrees(graph);
        proof {
            lemma_degree_updates_at(labels0, node_degrees@, all_moves@, j as int);
            assert(list_has(list@, all_moves@[j as int].0 as int));
            let i = choose|i: int| 0 <= i < list@.len() && #[trigger] list@[i] == node as int;
            assert(node < n);
            assert(best_target(graph, s, node as int) == Some(new_comm));
            assert(is_best(graph, s, node as int, new_comm as int));
            assert(is_candidate(graph, s.labels, node as int, new_comm as int));
            lemma_scores_of_ok(graph, labels0, resolution_parameter as int);
            assert(new_comm < n) by {
                let k = choose|k: int|
                    graph.row_lo(node as int) <= k < graph.row_hi(node as int)
                        && #[trigger] crate::solver::algorithm::gain::label_at(
                        graph.neighbors@,
                        s.labels,
                        k,
                    ) == new_comm as int;
                graph.lemma_row_bounds(node as int);
                assert(graph.neighbors@[k] < n);
            }
            assert(!moves_have(all_moves@.take(j as int), node as int)) by {
                if moves_have(all_moves@.take(j as int), node as int) {
                    let a = choose|a: int|
                        0 <= a < j && (#[trigger] all_moves@.take(j as int)[a]).0 == node as int;
                    assert(all_moves@[a].0 < all_moves@[j as int].0);
                }
            }
            assert(labels_before[node as int] == labels0[node as int]);
            assert(from == labels0[node as int]);
            assert(ints(node_degrees@)[node as int] == nd[node as int]);
            graph.lemma_weighted_degree_bound(node as int);
            assert(loss == -nd[node as int]);
            assert(gain_ == nd[node as int]);
            assert(to == new_comm);
            assert(from != to);
            let labels_after = labels_before.update(node as int, new_comm);
            assert forall|c: int| 0 <= c < n implies label_degree_after(
                graph,
                labels_before,
                node as int,
                new_comm,
                c,
            ) by {
                lemma_label_degree_update(nd, labels_before, node as int, new_comm, c, n as int);
            }
            lemma_label_degree_in_range(graph, labels_after, from as int, n as int);
            lemma_label_degree_in_range(graph, labels_after, to as int, n as int);
            assert(ints(community_degrees@)[from as int] == exact_label_degrees(
                graph,
                labels_before,
            )[from as int]);
            assert(ints(community_degrees@)[to as int] == exact_label_degrees(
                graph,
                labels_before,
            )[to as int]);
            assert(label_degree_after(graph, labels_before, node as int, new_comm, from as int));
            assert(label_degree_after(graph, labels_before, node as int, new_comm, to as int));
        }
        node_to_community.set(node, new_comm);
        let lowered: i64 = community_degrees[from] + loss;
        community_degrees.set(from, lowered);
        let raised: i64 = community_degrees[to] + gain_;
        community_degrees.set(to, raised);
        proof {
            let labels_after = node_to_community@;
            assert(labels_after == labels_before.update(node as int, new_comm));
            assert forall|c: int| 0 <= c < n implies ints(community_degrees@)[c]
                == exact_label_degrees(graph, labels_after)[c] by {
                assert(label_degree_after(graph, labels_before, node as int, new_comm, c));
                assert(exact_label_degrees(graph, labels_before)[c] == label_degree(
                    nd,
                    labels_before,
                    c,
                    n as int,
                ));
            }
            assert(ints(community_degrees@) =~= exact_label_degrees(graph, labels_after));
            let taken = all_moves@.take(j as int);
            let taken_next = all_moves@.take(j + 1);
            assert forall|v: int| 0 <= v < n implies #[trigger] node_to_community@[v] == (
            if moves_have(taken_next, v) {
                best_target(graph, s, v)->0
            } else {
                labels0[v]
            }) by {
                assert(labels_before[v] == (if moves_have(taken, v) {
                    best_target(graph, s, v)->0
                } else {
                    labels0[v]
                }));
                if v == node {
                    assert(taken_next[j as int].0 == v);
                } else {
                    if moves_have(taken_next, v) {
                        let a = choose|a: int|
                            0 <= a < taken_next.len() && (#[trigger] taken_next[a]).0 == v;
                        assert(taken[a].0 == v);
                    }
                    if moves_have(taken, v) {
                        let a = choose|a: int| 0 <= a < taken.len() && (#[trigger] taken[a]).0 == v;
                        assert(taken_next[a].0 == v);
                    }
                }
            }
        }
        j += 1;
    }
    proof {
        assert(all_moves@.take(all_moves@.len() as int) =~= all_moves@);
        lemma_round_labels(graph, s, active, list@, all_moves@, node_to_community@);
    }
}

/// Once every move is applied, the labels are those of the round.
proof fn lemma_round_labels(
    graph: &InMemoryGraph,
    s: Scores,
    active: Seq<bool>,
    list: Seq<usize>,
    all_moves: Seq<(usize, usize)>,
    labels: Seq<usize>,
)
    requires
        lists_ones(list, active),
        active.len() == s.labels.len(),
        labels.len() == s.labels.len(),
        all_moves == shard_moves(graph, s, list),
        forall|v: int|
            0 <= v < labels.len() ==> #[trigger] labels[v] == (if moves_have(all_moves, v) {
                best_target(graph, s, v)->0
            } else {
                s.labels[v]
            }),
    ensures
        labels == round_labels(graph, s, active),
{
    let n = labels.len();
    lemma_shard_moves_facts(graph, s, list);
    assert(labels =~= round_labels(graph, s, active)) by {
        assert forall|v: int| 0 <= v < n implies labels[v] == round_labels(graph, s, active)[v] by {
            if moves_have(all_moves, v) {
                let a = choose|a: int| 0 <= a < all_moves.len() && (#[trigger] all_moves[a]).0 == v;
                assert(list_has(list, all_moves[a].0 as int));
                let i = choose|i: int| 0 <= i < list.len() && #[trigger] list[i] == v;
                assert(active[list[i] as int]);
            } else {
                if active[v] && moves(graph, s, v) {
                    let i = choose|i: int| 0 <= i < list.len() && #[trigger] list[i] == v;
                    assert(list_has(list, v));
                    assert(moves_have(all_moves, v));
                }
            }
        }
    }
}

/// The sets that the shards filled are those of the round.
proof fn lemma_round_sets(
    graph: &InMemoryGraph,
    s: Scores,
    sub: Seq<usize>,
    active: Seq<bool>,
    list: Seq<usize>,
    changed: Seq<bool>,
    affected: Seq<bool>,
    next_active: Seq<bool>,
)
    requires
        lists_ones(list, active),
        active.len() == s.labels.len(),
        changed.len() == active.len(),
        affected.len() == active.len(),
        next_active.len() == active.len(),
        forall|u: int|
            0 <= u < active.len() ==> #[trigger] changed[u] == shard_moved(graph, s, list, u),
        forall|u: int|
            0 <= u < active.len() ==> #[trigger] next_active[u] == shard_activates(
                graph,
                s,
                list,
                u,
            ),
        forall|u: int|
            0 <= u < active.len() ==> #[trigger] affected[u] == shard_affects(
                graph,
                s,
                sub,
                list,
                u,
            ),
    ensures
        changed == round_changed(graph, s, active),
        affected == round_affected(graph, s, sub, active),
        next_active == round_next_active(graph, s, active),
{
    let n = active.len();
        assert(changed =~= round_changed(graph, s, active)) by {
            assert forall|u: int| 0 <= u < n implies changed[u] == round_changed(
                graph,
                s,
                active,
            )[u] by {
                if shard_moved(graph, s, list, u) {
                    let i = choose|i: int|
                        0 <= i < list.len() && #[trigger] list[i] == u && moves(graph, s, u);
                    assert(active[list[i] as int]);
                }
                if active[u] && moves(graph, s, u) {
                    let i = choose|i: int| 0 <= i < list.len() && #[trigger] list[i] == u;
                }
            }
        }
        assert(next_active =~= round_next_active(graph, s, active)) by {
            assert forall|u: int| 0 <= u < n implies next_active[u] == round_next_active(
                graph,
                s,
                active,
            )[u] by {
                if shard_activates(graph, s, list, u) {
                    let i = choose|i: int|
                        0 <= i < list.len() && node_activates(
                            graph,
                            s,
                            #[trigger] list[i] as int,
                            u,
                        );
                    assert(active[list[i] as int]);
                }
                if round_wakes(graph, s, active, u) {
                    let v = choose|v: int|
                        0 <= v < active.len() && active[v] && #[trigger] node_activates(
                            graph,
                            s,
                            v,
                            u,
                        );
                    let i = choose|i: int| 0 <= i < list.len() && #[trigger] list[i] == v;
                    assert(node_activates(graph, s, list[i] as int, u));
                }
            }
        }
        assert(affected =~= round_affected(graph, s, sub, active)) by {
            assert forall|u: int| 0 <= u < n implies affected[u] == round_affected(
                graph,
                s,
                sub,
                active,
            )[u] by {
                if shard_affects(graph, s, sub, list, u) {
                    let i = choose|i: int|
                        0 <= i < list.len() && node_affects(
                            graph,
                            s,
                            sub,
                            #[trigger] list[i] as int,
                            u,
                        );
                    assert(active[list[i] as int]);
                }
                if round_marks(graph, s, sub, active, u) {
                    let v = choose|v: int|
                        0 <= v < active.len() && active[v] && #[trigger] node_affects(
                            graph,
                            s,
                            sub,
                            v,
                            u,
                        );
                    let i = choose|i: int| 0 <= i < list.len() && #[trigger] list[i] == v;
                    assert(node_affects(graph, s, sub, list[i] as int, u));
                }
            }
        }
}

/// One frontier round: evaluates every node of the frontier against the
/// partition as it stands, in shards of equal size, one per worker of the pool,
/// and then applies the moves in shard order.
///
/// Returns the nodes that moved, the nodes marked for refinement, and the next
/// frontier. What a round does is the same for every number of workers.
pub fn inc_movement_parallel(
    graph: &InMemoryGraph,
    active_nodes: &DenseBitset,
    node_to_community: &mut Vec<usize>,
    node_to_subcommunity: &Vec<usize>,
    community_degrees: &mut Vec<i64>,
    node_degrees: &Vec<i64>,
    twice_total_weight: i64,
    resolution_parameter: i64,
    buffer_pool: &mut BufferPool,
) -> (sets: (DenseBitset, DenseBitset, DenseBitset))
    requires
        graph.wf(),
        active_nodes@.len() == graph.node_count,
        labels_ok(old(node_to_community)@, graph.node_count as int),
        node_to_subcommunity@.len() == graph.node_count,
        ints(old(community_degrees)@) == exact_label_degrees(graph, old(node_to_community)@),
        ints(node_degrees@) == graph_node_degrees(graph),
        twice_total_weight == graph.twice_total(),
        0 <= resolution_parameter <= MAX_RESOLUTION,
        old(buffer_pool).workers() > 0,
        old(buffer_pool).zeroed(graph.node_count as nat),
    ensures
        final(node_to_community)@ == round_labels(
            graph,
            scores_of(graph, old(node_to_community)@, resolution_parameter as int),
            active_nodes@,
        ),
        labels_ok(final(node_to_community)@, graph.node_count as int),
        ints(final(community_degrees)@) == exact_label_degrees(graph, final(node_to_community)@),
        sets.0@ == round_changed(
            graph,
            scores_of(graph, old(node_to_community)@, resolution_parameter as int),
            active_nodes@,
        ),
        sets.1@ == round_affected(
            graph,
            scores_of(graph, old(node_to_community)@, resolution_parameter as int),
            node_to_subcommunity@,
            active_nodes@,
        ),
        sets.2@ == round_next_active(
            graph,
            scores_of(graph, old(node_to_community)@, resolution_parameter as int),
            active_nodes@,
        ),
        final(buffer_pool).workers() == old(buffer_pool).workers(),
        final(buffer_pool).zeroed(graph.node_count as nat),
{
    let n: usize = graph.node_count;
    let ghost labels0 = node_to_community@;
    let ghost s = scores_of(graph, labels0, resolution_parameter as int);
    let ghost sub = node_to_subcommunity@;
    let ghost active = active_nodes@;
    let list = active_nodes.iter_ones();
    let mut shared_changed = SharedBitVec::new(n);
    let mut shared_affected = SharedBitVec::new(n);
    let mut shared_next_active = SharedBitVec::new(n);
    buffer_pool.reset();
    let result = run_shards(
        graph,
        &list,
        node_to_community,
        node_to_subcommunity,
        community_degrees,
        node_degrees,
        twice_total_weight,
        resolution_parameter,
        &mut shared_changed,
        &mut shared_affected,
        &mut shared_next_active,
        buffer_pool,
    );
    apply_moves(
        graph,
        &list,
        active_nodes,
        &result.node_to_community_updates,
        &result.community_degree_updates,
        node_to_community,
        community_degrees,
        node_degrees,
        resolution_parameter,
    );
    proof {
        lemma_round_sets(
            graph,
            s,
            sub,
            active,
            list@,
            shared_changed@,
            shared_affected@,
            shared_next_active@,
        );
    }
    (
        shared_changed.into_bitvec(),
        shared_affected.into_bitvec(),
        shared_next_active.into_bitvec(),
    )
}

/// What relabelling `v` to `target` does to the degree of label `c`.
pub open spec fn label_degree_after(
    graph: &InMemoryGraph,
    labels: Seq<usize>,
    v: int,
    target: usize,
    c: int,
) -> bool {
    label_degree(
        graph_node_degrees(graph),
        labels.update(v, target),
        c,
        graph.node_count as int,
    ) == label_degree(graph_node_degrees(graph), labels, c, graph.node_count as int) + (if target
        == c {
        graph_node_degrees(graph)[v]
    } else {
        0
    }) - (if labels[v] == c {
        graph_node_degrees(graph)[v]
    } else {
        0
    })
}

/// One merge that a round of refinement found: the node, the sub-community it
/// leaves, the one it joins, and its weighted degree.
pub type MergeUpdate = (usize, usize, usize, i64);

/// The merges of the given nodes, each judged on the sub-communities as they are, in the order of the nodes.
pub open spec fn merge_updates(
    graph: &InMemoryGraph,
    comm: Seq<usize>,
    sub: Seq<usize>,
    gamma: int,
    node_degrees: Seq<i64>,
    nodes: Seq<usize>,
) -> Seq<MergeUpdate>
    decreases nodes.len(),
{
    if nodes.len() == 0 {
        Seq::empty()
    } else {
        let rest = merge_updates(graph, comm, sub, gamma, node_degrees, nodes.drop_last());
        let v = nodes.last();
        match merge_target(graph, comm, sub, gamma, v as int) {
            Some(c) => rest.push((v, sub[v as int], c, node_degrees[v as int])),
            None => rest,
        }
    }
}

/// Whether one of the merges is a merge of `v`.
pub open spec fn updates_have(updates: Seq<MergeUpdate>, v: int) -> bool {
    exists|j: int| 0 <= j < updates.len() && (#[trigger] updates[j]).0 == v
}

/// The merges of two runs of nodes, one after the other, are the merges of the joined run.
pub proof fn lemma_merge_updates_concat(
    graph: &InMemoryGraph,
    comm: Seq<usize>,
    sub: Seq<usize>,
    gamma: int,
    node_degrees: Seq<i64>,
    a: Seq<usize>,
    b: Seq<usize>,
)
    ensures
        merge_updates(graph, comm, sub, gamma, node_degrees, a + b) == merge_updates(
            graph,
            comm,
            sub,
            gamma,
            node_degrees,
            a,
        ) + merge_updates(graph, comm, sub, gamma, node_degrees, b),
    decreases b.len(),
{
    let ua = merge_updates(graph, comm, sub, gamma, node_degrees, a);
    if b.len() == 0 {
        assert(a + b =~= a);
        assert(ua + merge_updates(graph, comm, sub, gamma, node_degrees, b) =~= ua);
    } else {
        assert((a + b).drop_last() =~= a + b.drop_last());
        assert((a + b).last() == b.last());
        lemma_merge_updates_concat(graph, comm, sub, gamma, node_degrees, a, b.drop_last());
        let rest = merge_updates(graph, comm, sub, gamma, node_degrees, b.drop_last());
        let v = b.last();
        match merge_target(graph, comm, sub, gamma, v as int) {
            Some(c) => {
                let u = (v, sub[v as int], c, node_degrees[v as int]);
                assert((ua + rest).push(u) =~= ua + rest.push(u));
            },
            None => {},
        }
    }
}

/// What holds of the merges of a list of distinct nodes: each is the merge
/// target of a node of the list, no node merges twice, and no node of the list
/// that has a merge target is left out.
pub proof fn lemma_merge_updates_facts(
    graph: &InMemoryGraph,
    comm: Seq<usize>,
    sub: Seq<usize>,
    gamma: int,
    node_degrees: Seq<i64>,
    nodes: Seq<usize>,
)
    requires
        distinct(nodes),
    ensures
        forall|j: int|
            0 <= j < merge_updates(graph, comm, sub, gamma, node_degrees, nodes).len() ==> {
                let u = #[trigger] merge_updates(graph, comm, sub, gamma, node_degrees, nodes)[j];
                &&& list_has(nodes, u.0 as int)
                &&& u.1 == sub[u.0 as int]
                &&& merge_target(graph, comm, sub, gamma, u.0 as int) == Some(u.2)
                &&& u.3 == node_degrees[u.0 as int]
            },
        forall|a: int, b: int|
            0 <= a < b < merge_updates(graph, comm, sub, gamma, node_degrees, nodes).len()
                ==> merge_updates(graph, comm, sub, gamma, node_degrees, nodes)[a].0
                != merge_updates(graph, comm, sub, gamma, node_degrees, nodes)[b].0,
        forall|v: int|
            list_has(nodes, v) && merge_target(graph, comm, sub, gamma, v) is Some
                ==> #[trigger] updates_have(
                merge_updates(graph, comm, sub, gamma, node_degrees, nodes),
                v,
            ),
    decreases nodes.len(),
{
    if nodes.len() > 0 {
        let head = nodes.drop_last();
        let last = nodes.last();
        assert(distinct(head)) by {
            assert forall|i: int, j: int| 0 <= i < j < head.len() implies head[i] != head[j] by {
                assert(nodes[i] != nodes[j]);
            }
        }
        lemma_merge_updates_facts(graph, comm, sub, gamma, node_degrees, head);
        let rest = merge_updates(graph, comm, sub, gamma, node_degrees, head);
        let all = merge_updates(graph, comm, sub, gamma, node_degrees, nodes);
        assert forall|j: int| 0 <= j < all.len() implies {
            let u = #[trigger] all[j];
            &&& list_has(nodes, u.0 as int)
            &&& u.1 == sub[u.0 as int]
            &&& merge_target(graph, comm, sub, gamma, u.0 as int) == Some(u.2)
            &&& u.3 == node_degrees[u.0 as int]
        } by {
            if j < rest.len() {
                assert(all[j] == rest[j]);
                let i = choose|i: int| 0 <= i < head.len() && #[trigger] head[i] == rest[j].0;
                assert(nodes[i] == all[j].0);
            } else {
                assert(nodes[nodes.len() - 1] == all[j].0);
            }
        }
        assert forall|a: int, b: int| 0 <= a < b < all.len() implies all[a].0 != all[b].0 by {
            if b < rest.len() {
                assert(all[a] == rest[a] && all[b] == rest[b]);
            } else {
                assert(all[a] == rest[a]);
                let i = choose|i: int| 0 <= i < head.len() && #[trigger] head[i] == rest[a].0;
                assert(nodes[i] != nodes[nodes.len() - 1]);
            }
        }
        assert forall|v: int|
            list_has(nodes, v) && merge_target(
                graph,
                comm,
                sub,
                gamma,
                v,
            ) is Some implies #[trigger] updates_have(all, v) by {
            let i = choose|i: int| 0 <= i < nodes.len() && #[trigger] nodes[i] == v;
            if i < head.len() {
                assert(head[i] == v);
                assert(list_has(head, v));
                assert(updates_have(rest, v));
                let j = choose|j: int| 0 <= j < rest.len() && (#[trigger] rest[j]).0 == v;
                assert(all[j] == rest[j]);
            } else {
                assert(all[all.len() - 1].0 == v);
            }
        }
    }
}

/// Judges the nodes `start..end` of the list on the sub-communities as they
/// are, and adds their merges to `updates`.
fn evaluate_chunk(
    graph: &InMemoryGraph,
    nodes: &Vec<usize>,
    start: usize,
    end: usize,
    node_to_community: &Vec<usize>,
    node_to_subcommunity: &Vec<usize>,
    subcommunity_degrees: &HashMap<usize, i64>,
    subcommunity_sizes: &HashMap<usize, usize>,
    node_degrees: &Vec<i64>,
    twice_total_weight: i64,
    resolution_parameter: i64,
    updates: &mut Vec<MergeUpdate>,
)
    requires
        graph.wf(),
        start <= end <= nodes@.len(),
        forall|i: int| 0 <= i < nodes@.len() ==> (#[trigger] nodes@[i]) < graph.node_count,
        node_to_community@.len() == graph.node_count,
        node_to_subcommunity@.len() == graph.node_count,
        ids_below_max(node_to_subcommunity@),
        degrees_exact(subcommunity_degrees@, graph, node_to_subcommunity@),
        sizes_exact(subcommunity_sizes@, node_to_subcommunity@),
        ints(node_degrees@) == graph_node_degrees(graph),
        twice_total_weight == graph.twice_total(),
        0 <= resolution_parameter <= MAX_RESOLUTION,
    ensures
        final(updates)@ == old(updates)@ + merge_updates(
            graph,
            node_to_community@,
            node_to_subcommunity@,
            resolution_parameter as int,
            node_degrees@,
            nodes@.subrange(start as int, end as int),
        ),
{
    let ghost comm = node_to_community@;
    let ghost sub = node_to_subcommunity@;
    let ghost gamma = resolution_parameter as int;
    let ghost chunk = nodes@.subrange(start as int, end as int);
    let mut i: usize = start;
    proof {
        assert(chunk.take(0) =~= Seq::empty());
        assert(updates@ + merge_updates(graph, comm, sub, gamma, node_degrees@, chunk.take(0))
            =~= updates@);
        assert(ints(node_degrees@).len() == graph.node_count);
    }
    while i < end
        invariant
            graph.wf(),
            start <= i <= end <= nodes@.len(),
            forall|j: int| 0 <= j < nodes@.len() ==> (#[trigger] nodes@[j]) < graph.node_count,
            comm == node_to_community@,
            sub == node_to_subcommunity@,
            comm.len() == graph.node_count,
            sub.len() == graph.node_count,
            node_degrees@.len() == graph.node_count,
            gamma == resolution_parameter as int,
            ids_below_max(sub),
            degrees_exact(subcommunity_degrees@, graph, sub),
            sizes_exact(subcommunity_sizes@, sub),
            ints(node_degrees@) == graph_node_degrees(graph),
            twice_total_weight == graph.twice_total(),
            0 <= resolution_parameter <= MAX_RESOLUTION,
            chunk == nodes@.subrange(start as int, end as int),
            updates@ == old(updates)@ + merge_updates(
                graph,
                comm,
                sub,
                gamma,
                node_degrees@,
                chunk.take(i - start),
            ),
        decreases end - i,
    {
        let node: usize = nodes[i];
        let ghost taken = chunk.take(i - start);
        let ghost taken_next = chunk.take(i - start + 1);
        proof {
            assert(taken_next.drop_last() =~= taken);
            assert(taken_next.last() == node);
        }
        let target = evaluate_merge(
            graph,
            node,
            node_to_community,
            node_to_subcommunity,
            subcommunity_degrees,
            subcommunity_sizes,
            node_degrees,
            twice_total_weight,
            resolution_parameter,
        );
        match target {
            Some(best) => {
                let ghost before = updates@;
                updates.push((node, node_to_subcommunity[node], best, node_degrees[node]));
                proof {
                    let rest = merge_updates(graph, comm, sub, gamma, node_degrees@, taken);
                    let u = (node, sub[node as int], best, node_degrees@[node as int]);
                    assert((old(updates)@ + rest).push(u) =~= old(updates)@ + rest.push(u));
                }
            },
            None => {},
        }
        i += 1;
    }
    proof {
        assert(chunk.take(end - start) =~= chunk);
    }
}

/// Whether the first `upto` merges are made on `sub0`: a node that merged
/// carries its merge target, and every other node its sub-community of before.
pub open spec fn merges_applied(
    graph: &InMemoryGraph,
    comm: Seq<usize>,
    sub0: Seq<usize>,
    gamma: int,
    updates: Seq<MergeUpdate>,
    upto: int,
    sub: Seq<usize>,
) -> bool {
    sub.len() == sub0.len() && forall|v: int|
        0 <= v < sub.len() ==> #[trigger] sub[v] == (if updates_have(updates.take(upto), v) {
            merge_target(graph, comm, sub0, gamma, v)->0
        } else {
            sub0[v]
        })
}

/// One round of refinement: every refined node is judged on the
/// sub-communities as they are, in chunks of equal size, one per worker; then
/// all merges are made in the order of the chunks.
///
/// What a round does is the same for every number of workers. The sizes are
/// those of the entry to the round; the degrees are brought up to date.
pub fn inc_refinement_parallel(
    graph: &InMemoryGraph,
    refined_nodes_sorted: &Vec<usize>,
    node_to_community: &Vec<usize>,
    node_to_subcommunity: &mut Vec<usize>,
    subcommunity_degrees: &mut HashMap<usize, i64>,
    subcommunity_sizes: &HashMap<usize, usize>,
    node_degrees: &Vec<i64>,
    twice_total_weight: i64,
    resolution_parameter: i64,
    num_threads: usize,
)
    requires
        graph.wf(),
        num_threads > 0,
        distinct(refined_nodes_sorted@),
        forall|i: int|
            0 <= i < refined_nodes_sorted@.len() ==> (#[trigger] refined_nodes_sorted@[i])
                < graph.node_count,
        node_to_community@.len() == graph.node_count,
        old(node_to_subcommunity)@.len() == graph.node_count,
        ids_below_max(old(node_to_subcommunity)@),
        degrees_exact(old(subcommunity_degrees)@, graph, old(node_to_subcommunity)@),
        sizes_exact(subcommunity_sizes@, old(node_to_subcommunity)@),
        ints(node_degrees@) == graph_node_degrees(graph),
        twice_total_weight == graph.twice_total(),
        0 <= resolution_parameter <= MAX_RESOLUTION,
    ensures
        final(node_to_subcommunity)@ == merge_at_once(
            graph,
            node_to_community@,
            resolution_parameter as int,
            old(node_to_subcommunity)@,
            refined_nodes_sorted@,
        ),
        labels_kept(old(node_to_subcommunity)@, final(node_to_subcommunity)@),
        degrees_exact(final(subcommunity_degrees)@, graph, final(node_to_subcommunity)@),
{
    let n: usize = graph.node_count;
    let ghost comm = node_to_community@;
    let ghost sub0 = node_to_subcommunity@;
    let ghost gamma = resolution_parameter as int;
    let ghost nodes = refined_nodes_sorted@;
    let quotient: usize = refined_nodes_sorted.len() / num_threads;
    let chunk_size: usize = if quotient == 0 {
        1
    } else {
        quotient
    };
    let mut updates: Vec<MergeUpdate> = Vec::new();
    let mut start: usize = 0;
    proof {
        assert(nodes.take(0) =~= Seq::empty());
    }
    while start < refined_nodes_sorted.len()
        invariant
            graph.wf(),
            n == graph.node_count,
            nodes == refined_nodes_sorted@,
            forall|i: int| 0 <= i < nodes.len() ==> (#[trigger] nodes[i]) < n,
            comm == node_to_community@,
            comm.len() == n,
            sub0 == node_to_subcommunity@,
            sub0.len() == n,
            gamma == resolution_parameter as int,
            ids_below_max(sub0),
            degrees_exact(subcommunity_degrees@, graph, sub0),
            sizes_exact(subcommunity_sizes@, sub0),
            ints(node_degrees@) == graph_node_degrees(graph),
            twice_total_weight == graph.twice_total(),
            0 <= resolution_parameter <= MAX_RESOLUTION,
            chunk_size > 0,
            start <= nodes.len(),
            updates@ == merge_updates(
                graph,
                comm,
                sub0,
                gamma,
                node_degrees@,
                nodes.take(start as int),
            ),
        decreases nodes.len() - start,
    {
        let end: usize = if refined_nodes_sorted.len() - start <= chunk_size {
            refined_nodes_sorted.len()
        } else {
            start + chunk_size
        };
        proof {
            assert(nodes.take(end as int) =~= nodes.take(start as int) + nodes.subrange(
                start as int,
                end as int,
            ));
            lemma_merge_updates_concat(
                graph,
                comm,
                sub0,
                gamma,
                node_degrees@,
                nodes.take(start as int),
                nodes.subrange(start as int, end as int),
            );
        }
        evaluate_chunk(
            graph,
            refined_nodes_sorted,
            start,
            end,
            node_to_community,
            node_to_subcommunity,
            subcommunity_degrees,
            subcommunity_sizes,
            node_degrees,
            twice_total_weight,
            resolution_parameter,
            &mut updates,
        );
        start = end;
    }
    proof {
        assert(nodes.take(nodes.len() as int) =~= nodes);
    }
    apply_merges(
        graph,
        refined_nodes_sorted,
        node_to_community,
        node_to_subcommunity,
        subcommunity_degrees,
        node_degrees,
        resolution_parameter,
        &updates,
    );
}

/// Makes the merges of a round, one after the other.
fn apply_merges(
    graph: &InMemoryGraph,
    refined_nodes_sorted: &Vec<usize>,
    node_to_community: &Vec<usize>,
    node_to_subcommunity: &mut Vec<usize>,
    subcommunity_degrees: &mut HashMap<usize, i64>,
    node_degrees: &Vec<i64>,
    resolution_parameter: i64,
    updates: &Vec<MergeUpdate>,
)
    requires
        graph.wf(),
        distinct(refined_nodes_sorted@),
        forall|i: int|
            0 <= i < refined_nodes_sorted@.len() ==> (#[trigger] refined_nodes_sorted@[i])
                < graph.node_count,
        node_to_community@.len() == graph.node_count,
        old(node_to_subcommunity)@.len() == graph.node_count,
        ids_below_max(old(node_to_subcommunity)@),
        degrees_exact(old(subcommunity_degrees)@, graph, old(node_to_subcommunity)@),
        ints(node_degrees@) == graph_node_degrees(graph),
        updates@ == merge_updates(
            graph,
            node_to_community@,
            old(node_to_subcommunity)@,
            resolution_parameter as int,
            node_degrees@,
            refined_nodes_sorted@,
        ),
    ensures
        final(node_to_subcommunity)@ == merge_at_once(
            graph,
            node_to_community@,
            resolution_parameter as int,
            old(node_to_subcommunity)@,
            refined_nodes_sorted@,
        ),
        labels_kept(old(node_to_subcommunity)@, final(node_to_subcommunity)@),
        degrees_exact(final(subcommunity_degrees)@, graph, final(node_to_subcommunity)@),
{
    let n: usize = graph.node_count;
    let ghost comm = node_to_community@;
    let ghost sub0 = node_to_subcommunity@;
    let ghost gamma = resolution_parameter as int;
    let ghost nodes = refined_nodes_sorted@;
    let ghost nd = graph_node_degrees(graph);
    proof {
        lemma_merge_updates_facts(graph, comm, sub0, gamma, node_degrees@, nodes);
        assert(updates@.take(0) =~= Seq::empty());
        assert(ints(node_degrees@).len() == n);
    }
    let mut j: usize = 0;
    while j < updates.len()
        invariant
            graph.wf(),
            n == graph.node_count,
            nd == graph_node_degrees(graph),
            ints(node_degrees@) == nd,
            node_degrees@.len() == n,
            sub0.len() == n,
            forall|i: int| 0 <= i < nodes.len() ==> (#[trigger] nodes[i]) < n,
            j <= updates@.len(),
            forall|a: int|
                0 <= a < updates@.len() ==> {
                    let u = #[trigger] updates@[a];
                    &&& list_has(nodes, u.0 as int)
                    &&& u.1 == sub0[u.0 as int]
                    &&& merge_target(graph, comm, sub0, gamma, u.0 as int) == Some(u.2)
                    &&& u.3 == node_degrees@[u.0 as int]
                },
            forall|a: int, b: int| 0 <= a < b < updates@.len() ==> updates@[a].0 != updates@[b].0,
            merges_applied(graph, comm, sub0, gamma, updates@, j as int, node_to_subcommunity@),
            degrees_exact(subcommunity_degrees@, graph, node_to_subcommunity@),
        decreases updates@.len() - j,
    {
        let (node, old_sub, new_sub, degree) = updates[j];
        let ghost before = node_to_subcommunity@;
        let ghost degrees0 = subcommunity_degrees@;
        let ghost taken = updates@.take(j as int);
        let ghost taken_next = updates@.take(j + 1);
        proof {
            let u = updates@[j as int];
            assert(list_has(nodes, u.0 as int));
            let i = choose|i: int| 0 <= i < nodes.len() && #[trigger] nodes[i] == node as int;
            assert(node < n);
            assert(!updates_have(taken, node as int)) by {
                if updates_have(taken, node as int) {
                    let a = choose|a: int| 0 <= a < taken.len() && (#[trigger] taken[a]).0 == node as int;
                    assert(updates@[a].0 != updates@[j as int].0);
                }
            }
            assert(before[node as int] == sub0[node as int]);
            assert(old_sub == before[node as int]);
            assert(ints(node_degrees@)[node as int] == nd[node as int]);
            assert(degree == nd[node as int]);
            assert(new_sub != old_sub);
            let after = before.update(node as int, new_sub);
            assert(weight_or_zero(degrees0, old_sub) == label_degree(
                nd,
                before,
                old_sub as int,
                n as int,
            ));
            assert(weight_or_zero(degrees0, new_sub) == label_degree(
                nd,
                before,
                new_sub as int,
                n as int,
            ));
            lemma_label_degree_update(nd, before, node as int, new_sub, old_sub as int, n as int);
            lemma_label_degree_update(nd, before, node as int, new_sub, new_sub as int, n as int);
            lemma_label_degree_in_range(graph, after, old_sub as int, n as int);
            lemma_label_degree_in_range(graph, after, new_sub as int, n as int);
        }
        node_to_subcommunity.set(node, new_sub);
        let lowered: i64 = weight_of(subcommunity_degrees, old_sub) - degree;
        subcommunity_degrees.insert(old_sub, lowered);
        let raised: i64 = weight_of(subcommunity_degrees, new_sub) + degree;
        subcommunity_degrees.insert(new_sub, raised);
        proof {
            let after = node_to_subcommunity@;
            assert forall|c: usize| #[trigger]
                weight_or_zero(subcommunity_degrees@, c) == label_degree(
                    nd,
                    after,
                    c as int,
                    n as int,
                ) by {
                lemma_label_degree_update(nd, before, node as int, new_sub, c as int, n as int);
                assert(weight_or_zero(degrees0, c) == label_degree(nd, before, c as int, n as int));
            }
            assert forall|v: int| 0 <= v < n implies #[trigger] after[v] == (if updates_have(
                taken_next,
                v,
            ) {
                merge_target(graph, comm, sub0, gamma, v)->0
            } else {
                sub0[v]
            }) by {
                assert(before[v] == (if updates_have(taken, v) {
                    merge_target(graph, comm, sub0, gamma, v)->0
                } else {
                    sub0[v]
                }));
                if v == node {
                    assert(taken_next[j as int].0 == v);
                } else {
                    if updates_have(taken_next, v) {
                        let a = choose|a: int|
                            0 <= a < taken_next.len() && (#[trigger] taken_next[a]).0 == v;
                        assert(taken[a].0 == v);
                    }
                    if updates_have(taken, v) {
                        let a = choose|a: int| 0 <= a < taken.len() && (#[trigger] taken[a]).0 == v;
                        assert(taken_next[a].0 == v);
                    }
                }
            }
            assert(merges_applied(graph, comm, sub0, gamma, updates@, j + 1, after));
        }
        j += 1;
    }
    proof {
        assert(updates@.take(updates@.len() as int) =~= updates@);
        let want = merge_at_once(graph, comm, gamma, sub0, nodes);
        assert forall|v: int| 0 <= v < n implies node_to_subcommunity@[v] == want[v]
            && label_in_use(sub0, #[trigger] node_to_subcommunity@[v]) by {
            if updates_have(updates@, v) {
                let a = choose|a: int| 0 <= a < updates@.len() && (#[trigger] updates@[a]).0 == v;
                assert(list_has(nodes, updates@[a].0 as int));
                let c = updates@[a].2;
                assert(merge_target(graph, comm, sub0, gamma, v) == Some(c));
                lemma_merge_target_in_use(graph, comm, sub0, gamma, v);
            } else {
                if list_has(nodes, v) && merge_target(graph, comm, sub0, gamma, v) is Some {
                    assert(updates_have(updates@, v));
                }
                assert(sub0[v] == sub0[v]);
            }
        }
        assert(node_to_subcommunity@ =~= want);
    }
}

} // verus!
