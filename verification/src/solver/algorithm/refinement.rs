use crate::solver::algorithm::components::{
    components_of, distinct, find_components, lists_components, no_bits,
};
use crate::solver::algorithm::parallel_frontier::{
    count_true, lemma_count_true_bounds, lemma_count_true_set, list_has, SharedBitVec,
};
use crate::solver::algorithm::degrees::compute_node_degrees;
use crate::solver::algorithm::merge::{
    ids_below_max, label_in_use, merge_at_once, merge_in_order, merge_singletons,
    order_by_degree, refine_order, sub_tables,
};
use crate::solver::algorithm::throughput::inc_refinement_parallel;
use crate::solver::config::RunMode;
use crate::solver::graph::in_memory::{lemma_weight_sum_bound, InMemoryGraph};
use crate::solver::weight::MAX_RESOLUTION;
use vstd::prelude::*;

verus! {

/// The state of the split stage: the sub-community of each node, the nodes
/// refined so far, and the next fresh sub-community id.
pub struct SplitState {
    pub sub: Seq<usize>,
    pub refined: Seq<bool>,
    pub next_id: int,
}

/// Whether component `k` is the one that keeps the id of its sub-community:
/// the largest, and among equals the first.
pub open spec fn is_keeper(comps: Seq<Seq<bool>>, n: int, k: int) -> bool {
    &&& 0 <= k < comps.len()
    &&& forall|j: int|
        0 <= j < comps.len() ==> count_true(#[trigger] comps[j], n) <= count_true(comps[k], n)
    &&& forall|j: int| 0 <= j < k ==> count_true(#[trigger] comps[j], n) < count_true(comps[k], n)
}

/// The component that keeps the id of its sub-community.
pub open spec fn keeper(comps: Seq<Seq<bool>>, n: int) -> int {
    choose|k: int| is_keeper(comps, n, k)
}

/// Whether `v` lies in one of the first `upto` components, other than `keep`.
pub open spec fn in_split_upto(comps: Seq<Seq<bool>>, keep: int, upto: int, v: int) -> bool {
    exists|i: int| 0 <= i < upto && i != keep && (#[trigger] comps[i])[v]
}

/// Whether `v` lies in a component other than `keep`.
pub open spec fn in_split(comps: Seq<Seq<bool>>, keep: int, v: int) -> bool {
    in_split_upto(comps, keep, comps.len() as int, v)
}

/// The component other than `keep` in which `v` lies.
pub open spec fn split_index(comps: Seq<Seq<bool>>, keep: int, v: int) -> int {
    choose|i: int| 0 <= i < comps.len() && i != keep && (#[trigger] comps[i])[v]
}

/// The place of component `i` among those that get a fresh id.
pub open spec fn fresh_rank(i: int, keep: int) -> int {
    if i < keep {
        i
    } else {
        i - 1
    }
}

/// Splits sub-community `s` into its connected components. The largest keeps
/// `s`; the others get fresh ids in the order of their smallest nodes, and
/// their nodes are refined.
pub open spec fn split_sub(graph: &InMemoryGraph, st: SplitState, s: int) -> SplitState {
    let comps = components_of(graph, st.sub, s);
    if comps.len() <= 1 {
        st
    } else {
        let keep = keeper(comps, graph.node_count as int);
        SplitState {
            sub: Seq::new(
                st.sub.len(),
                |v: int|
                    if in_split(comps, keep, v) {
                        (st.next_id + fresh_rank(split_index(comps, keep, v), keep)) as usize
                    } else {
                        st.sub[v]
                    },
            ),
            refined: Seq::new(st.refined.len(), |v: int| st.refined[v] || in_split(comps, keep, v)),
            next_id: st.next_id + comps.len() - 1,
        }
    }
}

/// The index of the longest list, and among equals the first.
fn pick_keeper(lists: &Vec<Vec<usize>>, Ghost(comps): Ghost<Seq<Seq<bool>>>, Ghost(n): Ghost<int>) -> (keep:
    usize)
    requires
        lists@.len() > 0,
        lists@.len() == comps.len(),
        forall|i: int| 0 <= i < lists@.len() ==> (#[trigger] lists@[i])@.len() == count_true(comps[i], n),
    ensures
        is_keeper(comps, n, keep as int),
        keeper(comps, n) == keep,
{
    let mut largest_idx: usize = 0;
    let mut largest_size: usize = lists[0].len();
    let mut i: usize = 1;
    while i < lists.len()
        invariant
            lists@.len() == comps.len(),
            forall|j: int|
                0 <= j < lists@.len() ==> (#[trigger] lists@[j])@.len() == count_true(comps[j], n),
            1 <= i <= lists@.len(),
            largest_idx < i,
            largest_size == lists@[largest_idx as int]@.len(),
            forall|j: int| 0 <= j < i ==> (#[trigger] lists@[j])@.len() <= largest_size,
            forall|j: int| 0 <= j < largest_idx ==> (#[trigger] lists@[j])@.len() < largest_size,
        decreases lists@.len() - i,
    {
        if lists[i].len() > largest_size {
            largest_size = lists[i].len();
            largest_idx = i;
        }
        i += 1;
    }
    proof {
        assert forall|j: int| 0 <= j < comps.len() implies count_true(
            #[trigger] comps[j],
            n,
        ) <= count_true(comps[largest_idx as int], n) by {
            assert(lists@[j]@.len() <= largest_size);
        }
        assert forall|j: int| 0 <= j < largest_idx implies count_true(
            #[trigger] comps[j],
            n,
        ) < count_true(comps[largest_idx as int], n) by {
            assert(lists@[j]@.len() < largest_size);
        }
        let k = keeper(comps, n);
        assert(is_keeper(comps, n, largest_idx as int));
        assert(is_keeper(comps, n, k));
        assert(k == largest_idx) by {
            if k < largest_idx {
                assert(count_true(comps[k], n) < count_true(comps[largest_idx as int], n));
                assert(count_true(comps[largest_idx as int], n) <= count_true(comps[k], n));
            }
            if largest_idx < k {
                assert(count_true(comps[largest_idx as int], n) < count_true(comps[k], n));
                assert(count_true(comps[k], n) <= count_true(comps[largest_idx as int], n));
            }
        }
    }
    largest_idx
}

/// Where `apply` holds, gives every node of `list` the sub-community `id`, and refines it.
fn relabel_component(
    node_to_subcommunity: &mut Vec<usize>,
    refined: &mut SharedBitVec,
    list: &Vec<usize>,
    id: usize,
    apply: bool,
)
    requires
        old(refined).wf(),
        old(refined)@.len() == old(node_to_subcommunity)@.len(),
        apply ==> distinct(list@),
        apply ==> forall|j: int|
            0 <= j < list@.len() ==> (#[trigger] list@[j]) < old(node_to_subcommunity)@.len()
                && !old(refined)@[list@[j] as int],
    ensures
        final(refined).wf(),
        final(node_to_subcommunity)@.len() == old(node_to_subcommunity)@.len(),
        final(refined)@.len() == old(refined)@.len(),
        forall|v: int|
            0 <= v < old(node_to_subcommunity)@.len() ==> #[trigger] final(node_to_subcommunity)@[v]
                == (if apply && list_has(list@, v) {
                id
            } else {
                old(node_to_subcommunity)@[v]
            }),
        forall|v: int|
            0 <= v < old(refined)@.len() ==> #[trigger] final(refined)@[v] == (old(refined)@[v] || (
            apply && list_has(list@, v))),
        count_true(final(refined)@, final(refined)@.len() as int) == count_true(
            old(refined)@,
            old(refined)@.len() as int,
        ) + if apply {
            list@.len() as int
        } else {
            0int
        },
{
    if !apply {
        return ;
    }
    let n: usize = node_to_subcommunity.len();
    let mut j: usize = 0;
    while j < list.len()
        invariant
            refined.wf(),
            n == old(node_to_subcommunity)@.len(),
            node_to_subcommunity@.len() == n,
            refined@.len() == n,
            old(refined)@.len() == n,
            distinct(list@),
            j <= list@.len(),
            forall|i: int|
                0 <= i < list@.len() ==> (#[trigger] list@[i]) < n && !old(refined)@[list@[i] as int],
            forall|v: int|
                0 <= v < n ==> #[trigger] node_to_subcommunity@[v] == (if list_has(
                    list@.take(j as int),
                    v,
                ) {
                    id
                } else {
                    old(node_to_subcommunity)@[v]
                }),
            forall|v: int|
                0 <= v < n ==> #[trigger] refined@[v] == (old(refined)@[v] || list_has(
                    list@.take(j as int),
                    v,
                )),
            count_true(refined@, n as int) == count_true(old(refined)@, n as int) + j,
        decreases list@.len() - j,
    {
        let m: usize = list[j];
        let ghost taken = list@.take(j as int);
        let ghost taken_next = list@.take(j + 1);
        let ghost sub_before = node_to_subcommunity@;
        let ghost refined_before = refined@;
        proof {
            assert(!list_has(taken, m as int)) by {
                if list_has(taken, m as int) {
                    let i = choose|i: int| 0 <= i < taken.len() && #[trigger] taken[i] == m as int;
                    assert(list@[i] == list@[j as int]);
                }
            }
            assert(!refined@[m as int]);
            lemma_count_true_set(refined@, m as int, n as int);
            assert forall|v: int| list_has(taken_next, v) == (list_has(taken, v) || v == m) by {
                if list_has(taken_next, v) {
                    let i = choose|i: int| 0 <= i < taken_next.len() && #[trigger] taken_next[i] == v;
                    if i < j {
                        assert(taken[i] == v);
                    }
                }
                if list_has(taken, v) {
                    let i = choose|i: int| 0 <= i < taken.len() && #[trigger] taken[i] == v;
                    assert(taken_next[i] == v);
                }
                if v == m {
                    assert(taken_next[j as int] == v);
                }
            }
        }
        node_to_subcommunity.set(m, id);
        refined.set(m);
        proof {
            assert forall|v: int| 0 <= v < n implies #[trigger] node_to_subcommunity@[v] == (
            if list_has(taken_next, v) {
                id
            } else {
                old(node_to_subcommunity)@[v]
            }) by {
                assert(sub_before[v] == (if list_has(taken, v) {
                    id
                } else {
                    old(node_to_subcommunity)@[v]
                }));
            }
            assert forall|v: int| 0 <= v < n implies #[trigger] refined@[v] == (old(refined)@[v]
                || list_has(taken_next, v)) by {
                assert(refined_before[v] == (old(refined)@[v] || list_has(taken, v)));
            }
        }
        j += 1;
    }
    proof {
        assert(list@.take(list@.len() as int) =~= list@);
    }
}

/// The state with the given parts.
pub open spec fn split_state(sub: Seq<usize>, refined: Seq<bool>, next_id: int) -> SplitState {
    SplitState { sub, refined, next_id }
}

/// The number of components below `i` that get a fresh id.
pub open spec fn fresh_count(i: int, keep: int) -> int {
    if i <= keep {
        i
    } else {
        i - 1
    }
}

/// Whether the nodes of the first `upto` components, but for `keep`, carry their fresh ids and are refined.
pub open spec fn relabelled(
    comps: Seq<Seq<bool>>,
    keep: int,
    upto: int,
    sub: Seq<usize>,
    refined: Seq<bool>,
    next0: int,
) -> bool {
    forall|a: int, v: int|
        0 <= a < upto && a != keep && 0 <= v < sub.len() && (#[trigger] comps[a])[v]
            ==> #[trigger] sub[v] == next0 + fresh_rank(a, keep) && refined[v]
}

/// Whether the nodes outside the first `upto` components, but for `keep`, are as they were.
pub open spec fn untouched(
    comps: Seq<Seq<bool>>,
    keep: int,
    upto: int,
    sub: Seq<usize>,
    refined: Seq<bool>,
    sub0: Seq<usize>,
    refined0: Seq<bool>,
) -> bool {
    forall|v: int|
        0 <= v < sub.len() && !in_split_upto(comps, keep, upto, v) ==> #[trigger] sub[v] == sub0[v]
            && refined[v] == refined0[v]
}

/// Takes every node of the lists out of `visited`.
fn clear_visited(visited: &mut SharedBitVec, lists: &Vec<Vec<usize>>)
    requires
        old(visited).wf(),
        forall|i: int, j: int|
            0 <= i < lists@.len() && 0 <= j < lists@[i]@.len() ==> (#[trigger] lists@[i]@[j]) < old(visited)@.len(),
        forall|v: int|
            0 <= v < old(visited)@.len() && #[trigger] old(visited)@[v] ==> exists|i: int|
                0 <= i < lists@.len() && #[trigger] list_has(lists@[i]@, v),
    ensures
        final(visited).wf(),
        final(visited)@ == no_bits(old(visited)@.len()),
{
    let ghost n = visited@.len();
    let mut i: usize = 0;
    while i < lists.len()
        invariant
            visited.wf(),
            visited@.len() == n,
            i <= lists@.len(),
            forall|a: int, b: int|
                0 <= a < lists@.len() && 0 <= b < lists@[a]@.len() ==> (#[trigger] lists@[a]@[b]) < n,
            forall|v: int|
                0 <= v < n && #[trigger] visited@[v] ==> exists|a: int|
                    i <= a < lists@.len() && #[trigger] list_has(lists@[a]@, v),
        decreases lists@.len() - i,
    {
        let list = &lists[i];
        let mut j: usize = 0;
        while j < list.len()
            invariant
                visited.wf(),
                visited@.len() == n,
                i < lists@.len(),
                list@ == lists@[i as int]@,
                j <= list@.len(),
                forall|b: int| 0 <= b < list@.len() ==> (#[trigger] list@[b]) < n,
                forall|v: int|
                    0 <= v < n && #[trigger] visited@[v] ==> (exists|a: int|
                        i < a < lists@.len() && #[trigger] list_has(lists@[a]@, v)) || (exists|
                        b: int,
                    |
                        j <= b < list@.len() && #[trigger] list@[b] == v),
            decreases list@.len() - j,
        {
            let ghost before = visited@;
            visited.clear(list[j]);
            proof {
                assert forall|v: int| 0 <= v < n && #[trigger] visited@[v] implies (exists|a: int|
                    i < a < lists@.len() && #[trigger] list_has(lists@[a]@, v)) || (exists|b: int|
                    j + 1 <= b < list@.len() && #[trigger] list@[b] == v) by {
                    assert(before[v]);
                    if !(exists|a: int| i < a < lists@.len() && #[trigger] list_has(lists@[a]@, v)) {
                        let b = choose|b: int| j <= b < list@.len() && #[trigger] list@[b] == v;
                        assert(b != j);
                    }
                }
            }
            j += 1;
        }
        proof {
            assert forall|v: int| 0 <= v < n && #[trigger] visited@[v] implies exists|a: int|
                i + 1 <= a < lists@.len() && #[trigger] list_has(lists@[a]@, v) by {
                let a = choose|a: int| i < a < lists@.len() && #[trigger] list_has(lists@[a]@, v);
            }
        }
        i += 1;
    }
    assert(visited@ =~= no_bits(n));
}

/// Splits one sub-community into its connected components.
fn split_one(
    graph: &InMemoryGraph,
    node_to_subcommunity: &mut Vec<usize>,
    subcommunity: usize,
    base: usize,
    visited: &mut SharedBitVec,
    refined: &mut SharedBitVec,
    next_id: &mut usize,
)
    requires
        graph.wf(),
        old(node_to_subcommunity)@.len() == graph.node_count,
        old(visited).wf(),
        old(visited)@ == no_bits(graph.node_count as nat),
        old(refined).wf(),
        old(refined)@.len() == graph.node_count,
        subcommunity < base,
        base <= *old(next_id),
        *old(next_id) - base <= count_true(old(refined)@, graph.node_count as int),
        base + graph.node_count <= usize::MAX,
        forall|v: int|
            0 <= v < graph.node_count && old(refined)@[v] ==> (#[trigger] old(node_to_subcommunity)@[v]) >= base,
    ensures
        split_state(final(node_to_subcommunity)@, final(refined)@, *final(next_id) as int)
            == split_sub(
            graph,
            split_state(old(node_to_subcommunity)@, old(refined)@, *old(next_id) as int),
            subcommunity as int,
        ),
        final(node_to_subcommunity)@.len() == graph.node_count,
        final(visited).wf(),
        final(visited)@ == no_bits(graph.node_count as nat),
        final(refined).wf(),
        final(refined)@.len() == graph.node_count,
        base <= *final(next_id),
        *final(next_id) - base <= count_true(final(refined)@, graph.node_count as int),
        forall|v: int|
            0 <= v < graph.node_count && final(refined)@[v] ==> (#[trigger] final(node_to_subcommunity)@[v]) >= base,
        forall|v: int|
            0 <= v < graph.node_count ==> (#[trigger] final(node_to_subcommunity)@[v])
                == old(node_to_subcommunity)@[v]
                || (final(node_to_subcommunity)@[v] >= base && old(node_to_subcommunity)@[v]
                == subcommunity && final(node_to_subcommunity)@[v] < *final(next_id)),
{
    let n: usize = graph.node_count;
    let ghost sub0 = node_to_subcommunity@;
    let ghost refined0 = refined@;
    let ghost next0 = *next_id as int;
    let ghost s = subcommunity as int;
    let ghost comps = components_of(graph, sub0, s);
    let lists = find_components(graph, node_to_subcommunity, subcommunity, visited);
    if lists.len() > 1 {
        let keep = pick_keeper(&lists, Ghost(comps), Ghost(n as int));
        let mut i: usize = 0;
        while i < lists.len()
            invariant
                n == graph.node_count,
                sub0.len() == n,
                refined0.len() == n,
                lists_components(lists@, comps, sub0, s, n as int),
                keep < lists@.len(),
                i <= lists@.len(),
                node_to_subcommunity@.len() == n,
                refined.wf(),
                refined@.len() == n,
                s < base,
                base <= next0,
                base + n <= usize::MAX,
                *next_id == next0 + fresh_count(i as int, keep as int),
                *next_id - base <= count_true(refined@, n as int),
                forall|v: int| 0 <= v < n && refined0[v] ==> (#[trigger] sub0[v]) >= base,
                relabelled(comps, keep as int, i as int, node_to_subcommunity@, refined@, next0),
                untouched(
                    comps,
                    keep as int,
                    i as int,
                    node_to_subcommunity@,
                    refined@,
                    sub0,
                    refined0,
                ),
            decreases lists@.len() - i,
        {
            let list = &lists[i];
            let fresh: bool = i != keep;
            let ghost sub_before = node_to_subcommunity@;
            let ghost refined_before = refined@;
            let ghost i1: int = i + 1;
            proof {
                lemma_count_true_bounds(refined@, n as int);
                assert(lists_components(lists@, comps, sub0, s, n as int));
                assert(comps[i as int].len() == n);
                assert(distinct(lists@[i as int]@));
                if fresh {
                    assert forall|j: int| 0 <= j < list@.len() implies (#[trigger] list@[j]) < n
                        && !refined@[list@[j] as int] by {
                        let v = list@[j] as int;
                        assert(lists@[i as int]@[j] < n);
                        assert(list_has(list@, v));
                        assert(comps[i as int][v]);
                        assert(!in_split_upto(comps, keep as int, i as int, v)) by {
                            if in_split_upto(comps, keep as int, i as int, v) {
                                let a = choose|a: int|
                                    0 <= a < i && a != keep && (#[trigger] comps[a])[v];
                                assert(!(comps[a][v] && comps[i as int][v]));
                            }
                        }
                        assert(sub0[lists@[i as int]@[j] as int] == s);
                        assert(node_to_subcommunity@[v] == sub0[v]);
                        assert(refined@[v] == refined0[v]);
                    }
                    assert(list@.len() > 0);
                }
            }
            let id: usize = *next_id;
            proof {
                lemma_count_true_bounds(refined@, n as int);
            }
            relabel_component(node_to_subcommunity, refined, list, id, fresh);
            proof {
                lemma_count_true_bounds(refined@, n as int);
            }
            if fresh {
                *next_id = id + 1;
            }
            proof {
                assert(list@.len() > 0);
                assert forall|a: int, v: int|
                    0 <= a < i1 && a != keep && 0 <= v < n && (
                    #[trigger] comps[a])[v] implies #[trigger] node_to_subcommunity@[v] == next0
                    + fresh_rank(a, keep as int) && refined@[v] by {
                    if a == i {
                        assert(list_has(list@, v));
                        assert(id == next0 + fresh_rank(a, keep as int));
                    } else {
                        assert(!(comps[a][v] && comps[i as int][v]));
                        assert(!list_has(list@, v));
                        assert(sub_before[v] == next0 + fresh_rank(a, keep as int));
                    }
                }
                assert forall|v: int|
                    0 <= v < n && !in_split_upto(
                        comps,
                        keep as int,
                        i1,
                        v,
                    ) implies #[trigger] node_to_subcommunity@[v] == sub0[v] && refined@[v]
                    == refined0[v] by {
                    if fresh {
                        assert(!comps[i as int][v]);
                        assert(!list_has(list@, v));
                    }
                    assert(!in_split_upto(comps, keep as int, i as int, v)) by {
                        if in_split_upto(comps, keep as int, i as int, v) {
                            let a = choose|a: int|
                                0 <= a < i && a != keep && (#[trigger] comps[a])[v];
                            assert(0 <= a < i1);
                        }
                    }
                    assert(sub_before[v] == sub0[v]);
                }
                lemma_count_true_bounds(refined@, n as int);
            }
            proof {
                assert(relabelled(comps, keep as int, i1, node_to_subcommunity@, refined@, next0));
                assert(untouched(
                    comps,
                    keep as int,
                    i1,
                    node_to_subcommunity@,
                    refined@,
                    sub0,
                    refined0,
                ));
            }
            i += 1;
        }
        proof {
            let st = split_state(sub0, refined0, next0);
            let want = split_sub(graph, st, s);
            assert forall|v: int| 0 <= v < n implies node_to_subcommunity@[v] == want.sub[v]
                && refined@[v] == want.refined[v] by {
                if in_split(comps, keep as int, v) {
                    let a = split_index(comps, keep as int, v);
                    assert(0 <= a < comps.len() && a != keep && comps[a][v]);
                    assert(node_to_subcommunity@[v] == next0 + fresh_rank(a, keep as int));
                } else {
                    assert(node_to_subcommunity@[v] == sub0[v]);
                }
            }
            assert(node_to_subcommunity@ =~= want.sub);
            assert(refined@ =~= want.refined);
            assert forall|v: int| 0 <= v < n && refined@[v] implies (
            #[trigger] node_to_subcommunity@[v]) >= base by {
                if in_split(comps, keep as int, v) {
                    let a = split_index(comps, keep as int, v);
                    assert(comps[a][v]);
                } else {
                    assert(node_to_subcommunity@[v] == sub0[v]);
                }
            }
            assert forall|v: int| 0 <= v < n implies (#[trigger] node_to_subcommunity@[v])
                == sub0[v] || (node_to_subcommunity@[v] >= base && sub0[v] == s
                && node_to_subcommunity@[v] < *next_id) by {
                if in_split(comps, keep as int, v) {
                    let a = split_index(comps, keep as int, v);
                    assert(comps[a][v]);
                    assert(list_has(lists@[a]@, v));
                    let j = choose|j: int| 0 <= j < lists@[a]@.len() && #[trigger] lists@[a]@[j] == v;
                    assert(sub0[lists@[a]@[j] as int] == s);
                } else {
                    assert(node_to_subcommunity@[v] == sub0[v]);
                }
            }
        }
    }
    clear_visited(visited, &lists);
}

/// The greatest label that a node below `upto` carries; zero where there is none.
pub open spec fn max_label(labels: Seq<usize>, upto: int) -> int
    decreases upto,
{
    if upto <= 0 {
        0
    } else if labels[upto - 1] > max_label(labels, upto - 1) {
        labels[upto - 1] as int
    } else {
        max_label(labels, upto - 1)
    }
}

/// No label is greater than the greatest.
pub proof fn lemma_max_label(labels: Seq<usize>, upto: int, v: int)
    requires
        0 <= v < upto <= labels.len(),
    ensures
        labels[v] <= max_label(labels, upto),
        0 <= max_label(labels, upto),
    decreases upto,
{
    if v < upto - 1 {
        lemma_max_label(labels, upto - 1, v);
    } else if upto - 1 > 0 {
        lemma_max_label(labels, upto - 1, 0);
    }
}

/// Whether `s` is the next sub-community to split: the smallest above `bound`
/// that a node marked for refinement carried on entry.
pub open spec fn is_next_sub(snapshot: Seq<usize>, affected: Seq<bool>, bound: int, s: int) -> bool {
    &&& s > bound
    &&& exists|v: int| 0 <= v < snapshot.len() && affected[v] && #[trigger] snapshot[v] == s
    &&& forall|v: int|
        0 <= v < snapshot.len() && affected[v] && (#[trigger] snapshot[v]) > bound ==> snapshot[v]
            >= s
}

/// The next sub-community to split, if there is one.
pub open spec fn next_sub(snapshot: Seq<usize>, affected: Seq<bool>, bound: int) -> Option<usize> {
    if exists|s: usize| is_next_sub(snapshot, affected, bound, s as int) {
        Some(choose|s: usize| is_next_sub(snapshot, affected, bound, s as int))
    } else {
        None
    }
}

/// The bound as an integer: below every id where there is none.
pub open spec fn bound_of(bound: Option<usize>) -> int {
    match bound {
        Some(b) => b as int,
        None => -1,
    }
}

/// Finds the next sub-community to split.
fn next_affected_sub(snapshot: &Vec<usize>, affected: &SharedBitVec, bound: Option<usize>) -> (found:
    Option<usize>)
    requires
        affected.wf(),
        affected@.len() == snapshot@.len(),
    ensures
        found == next_sub(snapshot@, affected@, bound_of(bound)),
        match found {
            Some(s) => is_next_sub(snapshot@, affected@, bound_of(bound), s as int),
            None => true,
        },
{
    let ghost b = bound_of(bound);
    let mut best: Option<usize> = None;
    let mut v: usize = 0;
    while v < snapshot.len()
        invariant
            affected.wf(),
            affected@.len() == snapshot@.len(),
            b == bound_of(bound),
            v <= snapshot@.len(),
            match best {
                Some(s) => s > b && (exists|u: int|
                    0 <= u < v && affected@[u] && #[trigger] snapshot@[u] == s) && forall|u: int|
                    0 <= u < v && affected@[u] && (#[trigger] snapshot@[u]) > b ==> snapshot@[u]
                        >= s,
                None => forall|u: int| 0 <= u < v && affected@[u] ==> (#[trigger] snapshot@[u]) <= b,
            },
        decreases snapshot@.len() - v,
    {
        let s: usize = snapshot[v];
        let above: bool = match bound {
            Some(limit) => s > limit,
            None => true,
        };
        if affected.get(v) && above {
            let better: bool = match best {
                Some(known) => s < known,
                None => true,
            };
            if better {
                best = Some(s);
            }
        }
        v += 1;
    }
    proof {
        match best {
            Some(s) => {
                assert(is_next_sub(snapshot@, affected@, b, s as int));
                let chosen = choose|c: usize| is_next_sub(snapshot@, affected@, b, c as int);
                assert(is_next_sub(snapshot@, affected@, b, chosen as int));
                let u1 = choose|u: int|
                    0 <= u < snapshot@.len() && affected@[u] && #[trigger] snapshot@[u] == s;
                let u2 = choose|u: int|
                    0 <= u < snapshot@.len() && affected@[u] && #[trigger] snapshot@[u] == chosen;
                assert(snapshot@[u1] >= chosen);
                assert(snapshot@[u2] >= s);
            },
            None => {
                assert forall|c: usize| !is_next_sub(snapshot@, affected@, b, c as int) by {
                    if is_next_sub(snapshot@, affected@, b, c as int) {
                        let u = choose|u: int|
                            0 <= u < snapshot@.len() && affected@[u] && #[trigger] snapshot@[u] == c;
                        assert(snapshot@[u] <= b);
                    }
                }
            },
        }
    }
    best
}

/// The split stage from a given state: the sub-communities that held a marked
/// node on entry are split one after the other, the smallest id first.
pub open spec fn split_run(
    graph: &InMemoryGraph,
    snapshot: Seq<usize>,
    affected: Seq<bool>,
    st: SplitState,
    bound: int,
    fuel: nat,
) -> SplitState
    decreases fuel,
{
    if fuel == 0 {
        st
    } else {
        match next_sub(snapshot, affected, bound) {
            None => st,
            Some(s) => split_run(
                graph,
                snapshot,
                affected,
                split_sub(graph, st, s as int),
                s as int,
                (fuel - 1) as nat,
            ),
        }
    }
}

/// The split stage: every sub-community that holds a node marked for
/// refinement is split into its connected components. Fresh ids start above
/// the greatest id in use.
pub open spec fn split_stage(graph: &InMemoryGraph, sub: Seq<usize>, affected: Seq<bool>) -> SplitState {
    split_run(
        graph,
        sub,
        affected,
        split_state(sub, no_bits(sub.len()), max_label(sub, sub.len() as int) + 1),
        -1,
        sub.len(),
    )
}

/// Whether fresh sub-community ids can be given to every node without leaving `usize`.
pub open spec fn has_headroom(sub: Seq<usize>) -> bool {
    forall|v: int| 0 <= v < sub.len() ==> (#[trigger] sub[v]) + sub.len() + 1 < usize::MAX
}

/// Tests whether fresh sub-community ids can be given to every node without leaving `usize`.
pub fn check_headroom(sub: &Vec<usize>) -> (ok: bool)
    ensures
        ok == has_headroom(sub@),
{
    let n: usize = sub.len();
    if n == 0 {
        return true;
    }
    if n >= usize::MAX - 1 {
        assert(!(sub@[0] + sub@.len() + 1 < usize::MAX));
        return false;
    }
    let limit: usize = usize::MAX - 1 - n;
    let mut v: usize = 0;
    while v < n
        invariant
            n == sub@.len(),
            n < usize::MAX - 1,
            limit == usize::MAX - 1 - n,
            v <= n,
            forall|u: int| 0 <= u < v ==> (#[trigger] sub@[u]) + sub@.len() + 1 < usize::MAX,
        decreases n - v,
    {
        if sub[v] >= limit {
            assert(!(sub@[v as int] + sub@.len() + 1 < usize::MAX));
            return false;
        }
        v += 1;
    }
    true
}

/// The greatest sub-community id in use; zero where there is no node.
fn greatest_label(labels: &Vec<usize>) -> (greatest: usize)
    ensures
        greatest == max_label(labels@, labels@.len() as int),
{
    let mut greatest: usize = 0;
    let mut v: usize = 0;
    while v < labels.len()
        invariant
            v <= labels@.len(),
            greatest == max_label(labels@, v as int),
        decreases labels@.len() - v,
    {
        if labels[v] > greatest {
            greatest = labels[v];
        }
        v += 1;
    }
    greatest
}

/// The split stage of refinement.
pub fn split_affected(
    graph: &InMemoryGraph,
    node_to_subcommunity: &mut Vec<usize>,
    affected_nodes: &SharedBitVec,
) -> (refined: SharedBitVec)
    requires
        graph.wf(),
        old(node_to_subcommunity)@.len() == graph.node_count,
        affected_nodes.wf(),
        affected_nodes@.len() == graph.node_count,
        has_headroom(old(node_to_subcommunity)@),
    ensures
        final(node_to_subcommunity)@ == split_stage(
            graph,
            old(node_to_subcommunity)@,
            affected_nodes@,
        ).sub,
        refined@ == split_stage(graph, old(node_to_subcommunity)@, affected_nodes@).refined,
        refined.wf(),
        refined@.len() == graph.node_count,
        final(node_to_subcommunity)@.len() == graph.node_count,
        forall|v: int|
            0 <= v < graph.node_count ==> (#[trigger] final(node_to_subcommunity)@[v])
                <= max_label(old(node_to_subcommunity)@, graph.node_count as int)
                + graph.node_count,
{
    let n: usize = graph.node_count;
    let ghost sub0 = node_to_subcommunity@;
    let ghost affected = affected_nodes@;
    let snapshot = node_to_subcommunity.clone();
    assert(snapshot@ =~= sub0);
    let greatest = greatest_label(node_to_subcommunity);
    proof {
        lemma_max_label_in_use(sub0, n as int);
        if n > 0 {
            assert(sub0[0] + n + 1 < usize::MAX);
        }
    }
    let base: usize = greatest + 1;
    let mut next_id: usize = base;
    let mut visited = SharedBitVec::new(n);
    let mut refined = SharedBitVec::new(n);
    let mut bound: Option<usize> = None;
    let mut fuel: usize = n;
    let ghost init = split_state(sub0, no_bits(n as nat), base as int);
    proof {
        lemma_count_true_bounds(refined@, n as int);
        assert forall|v: int| 0 <= v < n implies (#[trigger] node_to_subcommunity@[v]) <= base - 1
            + n by {
            lemma_max_label(sub0, n as int, v);
        }
    }
    while fuel > 0
        invariant
            graph.wf(),
            n == graph.node_count,
            sub0.len() == n,
            snapshot@ == sub0,
            affected == affected_nodes@,
            affected_nodes.wf(),
            affected.len() == n,
            base == max_label(sub0, n as int) + 1,
            base + n <= usize::MAX,
            node_to_subcommunity@.len() == n,
            visited.wf(),
            visited@ == no_bits(n as nat),
            refined.wf(),
            refined@.len() == n,
            base <= next_id,
            next_id - base <= count_true(refined@, n as int),
            forall|v: int|
                0 <= v < n && refined@[v] ==> (#[trigger] node_to_subcommunity@[v]) >= base,
            forall|v: int| 0 <= v < n ==> (#[trigger] node_to_subcommunity@[v]) <= base - 1 + n,
            split_run(
                graph,
                sub0,
                affected,
                split_state(node_to_subcommunity@, refined@, next_id as int),
                bound_of(bound),
                fuel as nat,
            ) == split_run(graph, sub0, affected, init, -1, n as nat),
        ensures
            split_state(node_to_subcommunity@, refined@, next_id as int) == split_run(
                graph,
                sub0,
                affected,
                init,
                -1,
                n as nat,
            ),
            node_to_subcommunity@.len() == n,
            refined.wf(),
            refined@.len() == n,
            forall|v: int| 0 <= v < n ==> (#[trigger] node_to_subcommunity@[v]) <= base - 1 + n,
        decreases fuel,
    {
        let found = next_affected_sub(&snapshot, affected_nodes, bound);
        if found.is_none() {
            break ;
        }
        let s: usize = found.unwrap();
        proof {
            let u = choose|u: int| 0 <= u < sub0.len() && affected[u] && #[trigger] sub0[u] == s;
            lemma_max_label(sub0, n as int, u);
        }
        let ghost before = split_state(node_to_subcommunity@, refined@, next_id as int);
        split_one(
            graph,
            node_to_subcommunity,
            s,
            base,
            &mut visited,
            &mut refined,
            &mut next_id,
        );
        proof {
            lemma_count_true_bounds(refined@, n as int);
            assert forall|v: int| 0 <= v < n implies (#[trigger] node_to_subcommunity@[v]) <= base
                - 1 + n by {
                assert(before.sub[v] <= base - 1 + n);
            }
            assert(split_run(graph, sub0, affected, before, bound_of(bound), fuel as nat)
                == split_run(
                graph,
                sub0,
                affected,
                split_sub(graph, before, s as int),
                s as int,
                (fuel - 1) as nat,
            ));
        }
        bound = Some(s);
        fuel -= 1;
    }
    refined
}

/// The greatest label is zero or the label of a node.
pub proof fn lemma_max_label_in_use(labels: Seq<usize>, upto: int)
    requires
        0 <= upto <= labels.len(),
    ensures
        max_label(labels, upto) == 0 || exists|v: int|
            0 <= v < upto && #[trigger] labels[v] == max_label(labels, upto),
    decreases upto,
{
    if upto > 0 {
        lemma_max_label_in_use(labels, upto - 1);
        if labels[upto - 1] > max_label(labels, upto - 1) {
            assert(labels[upto - 1] == max_label(labels, upto));
        } else if max_label(labels, upto - 1) != 0 {
            let v = choose|v: int|
                0 <= v < upto - 1 && #[trigger] labels[v] == max_label(labels, upto - 1);
            assert(labels[v] == max_label(labels, upto));
        }
    }
}

/// Whether every node carries its own id.
pub open spec fn is_identity(labels: Seq<usize>) -> bool {
    forall|v: int| 0 <= v < labels.len() ==> #[trigger] labels[v] == v
}

/// Whether every node carries its own id.
pub fn check_identity(labels: &Vec<usize>) -> (same: bool)
    ensures
        same == is_identity(labels@),
{
    let mut v: usize = 0;
    while v < labels.len()
        invariant
            v <= labels@.len(),
            forall|u: int| 0 <= u < v ==> #[trigger] labels@[u] == u,
        decreases labels@.len() - v,
    {
        if labels[v] != v {
            return false;
        }
        v += 1;
    }
    true
}

/// The nodes that refinement hands to aggregation: on a cold start, where
/// every node is its own sub-community on entry, all of them; else the nodes
/// that the split stage gave a fresh sub-community.
pub open spec fn refined_nodes(graph: &InMemoryGraph, sub: Seq<usize>, affected: Seq<bool>) -> Seq<
    bool,
> {
    if is_identity(sub) {
        Seq::new(sub.len(), |v: int| true)
    } else {
        split_stage(graph, sub, affected).refined
    }
}

/// The sub-communities after refinement: the split stage, then the merging of
/// the refined singletons in the order of their weighted degrees.
pub open spec fn refined_subcommunities(
    graph: &InMemoryGraph,
    comm: Seq<usize>,
    sub: Seq<usize>,
    affected: Seq<bool>,
    gamma: int,
    mode: RunMode,
) -> Seq<usize> {
    let split = split_stage(graph, sub, affected).sub;
    let order = refine_order(graph, refined_nodes(graph, sub, affected));
    match mode {
        RunMode::Deterministic => merge_in_order(graph, comm, gamma, split, order),
        RunMode::Throughput => merge_at_once(graph, comm, gamma, split, order),
    }
}

/// The refinement operator of one level.
///
/// Splits every sub-community that holds a node marked for refinement into
/// its connected components, and then lets each refined node that is alone in
/// its sub-community join the neighbouring sub-community of its own community
/// that gains most. Returns the refined nodes.
pub fn inc_refinement(
    graph: &InMemoryGraph,
    node_to_community: &Vec<usize>,
    node_to_subcommunity: &mut Vec<usize>,
    affected_nodes: &SharedBitVec,
    resolution_parameter: i64,
    mode: RunMode,
    workers: usize,
) -> (refined: SharedBitVec)
    requires
        graph.wf(),
        node_to_community@.len() == graph.node_count,
        old(node_to_subcommunity)@.len() == graph.node_count,
        has_headroom(old(node_to_subcommunity)@),
        affected_nodes.wf(),
        affected_nodes@.len() == graph.node_count,
        0 <= resolution_parameter <= MAX_RESOLUTION,
        workers > 0,
    ensures
        final(node_to_subcommunity)@ == refined_subcommunities(
            graph,
            node_to_community@,
            old(node_to_subcommunity)@,
            affected_nodes@,
            resolution_parameter as int,
            mode,
        ),
        refined@ == refined_nodes(graph, old(node_to_subcommunity)@, affected_nodes@),
        refined.wf(),
        refined@.len() == graph.node_count,
        final(node_to_subcommunity)@.len() == graph.node_count,
        forall|v: int|
            0 <= v < graph.node_count ==> (#[trigger] final(node_to_subcommunity)@[v])
                <= max_label(old(node_to_subcommunity)@, graph.node_count as int)
                + graph.node_count,
{
    let n: usize = graph.node_count;
    let ghost sub0 = node_to_subcommunity@;
    let cold: bool = check_identity(node_to_subcommunity);
    let mut refined = split_affected(graph, node_to_subcommunity, affected_nodes);
    if cold {
        let mut v: usize = 0;
        while v < n
            invariant
                v <= n,
                refined.wf(),
                refined@.len() == n,
                forall|u: int| 0 <= u < v ==> refined@[u],
            decreases n - v,
        {
            refined.set(v);
            v += 1;
        }
    }
    assert(refined@ =~= refined_nodes(graph, sub0, affected_nodes@));
    let ghost split = node_to_subcommunity@;
    proof {
        lemma_max_label_in_use(sub0, n as int);
        if n > 0 {
            assert(sub0[0] + n + 1 < usize::MAX);
        }
        assert(ids_below_max(split));
        lemma_weight_sum_bound(graph.weights@, 0, graph.entries());
    }
    let node_degrees = compute_node_degrees(graph);
    let twice_total_weight: i64 = 2 * graph.total_weight();
    let (mut degrees, mut sizes) = sub_tables(graph, node_to_subcommunity, &node_degrees);
    let order = order_by_degree(graph, &refined, &node_degrees);
    match mode {
        RunMode::Throughput => {
            inc_refinement_parallel(
                graph,
                &order,
                node_to_community,
                node_to_subcommunity,
                &mut degrees,
                &sizes,
                &node_degrees,
                twice_total_weight,
                resolution_parameter,
                workers,
            );
        },
        RunMode::Deterministic => {
            merge_singletons(
                graph,
                &order,
                node_to_community,
                node_to_subcommunity,
                &mut degrees,
                &mut sizes,
                &node_degrees,
                twice_total_weight,
                resolution_parameter,
            );
        },
    }
    proof {
        assert forall|v: int| 0 <= v < n implies (#[trigger] node_to_subcommunity@[v]) <= max_label(
            sub0,
            n as int,
        ) + n by {
            assert(label_in_use(split, node_to_subcommunity@[v]));
            let u = choose|u: int| 0 <= u < split.len() && #[trigger] split[u] == node_to_subcommunity@[v];
        }
    }
    refined
}

} // verus!
