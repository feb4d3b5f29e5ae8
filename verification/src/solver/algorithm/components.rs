use crate::solver::algorithm::parallel_frontier::{
    count_true, lemma_count_true_disjoint, lemma_count_true_set, list_has, or_bits, SharedBitVec,
};
use crate::solver::graph::in_memory::{row_has, InMemoryGraph};
use vstd::prelude::*;

verus! {

/// Whether an edge leads from `a` to `b`, where `b` lies in sub-community `s`
/// and was not taken by an earlier component.
pub open spec fn inner_step(
    graph: &InMemoryGraph,
    sub: Seq<usize>,
    s: int,
    done: Seq<bool>,
    a: int,
    b: int,
) -> bool {
    0 <= b < graph.node_count && graph.is_neighbor(a, b) && sub[b] == s && !done[b]
}

/// Whether each node of `path` is joined to the next by such an edge.
pub open spec fn is_path(
    graph: &InMemoryGraph,
    sub: Seq<usize>,
    s: int,
    done: Seq<bool>,
    path: Seq<int>,
) -> bool {
    path.len() > 0 && forall|i: int|
        0 <= i < path.len() - 1 ==> inner_step(graph, sub, s, done, #[trigger] path[i], path[i + 1])
}

/// Whether a path inside sub-community `s` leads from `start` to `b`.
pub open spec fn reaches(
    graph: &InMemoryGraph,
    sub: Seq<usize>,
    s: int,
    done: Seq<bool>,
    start: int,
    b: int,
) -> bool {
    exists|path: Seq<int>|
        #[trigger] is_path(graph, sub, s, done, path) && path[0] == start && path.last() == b
}

/// The connected component of `start` in the subgraph that sub-community `s`
/// induces, without the nodes of earlier components: the nodes that a path reaches.
pub open spec fn component(
    graph: &InMemoryGraph,
    sub: Seq<usize>,
    s: int,
    done: Seq<bool>,
    start: int,
) -> Seq<bool> {
    Seq::new(graph.node_count as nat, |b: int| reaches(graph, sub, s, done, start, b))
}

/// A list that holds `start` and is closed under the edges of the component
/// holds every node of a path from `start`.
proof fn lemma_closed_list_is_complete(
    graph: &InMemoryGraph,
    sub: Seq<usize>,
    s: int,
    done: Seq<bool>,
    order: Seq<usize>,
    path: Seq<int>,
    i: int,
)
    requires
        list_has(order, path[0]),
        forall|a: int, c: int|
            list_has(order, a) && #[trigger] inner_step(graph, sub, s, done, a, c) ==> list_has(
                order,
                c,
            ),
        is_path(graph, sub, s, done, path),
        0 <= i < path.len(),
    ensures
        list_has(order, path[i]),
    decreases i,
{
    if i > 0 {
        lemma_closed_list_is_complete(graph, sub, s, done, order, path, i - 1);
        assert(inner_step(graph, sub, s, done, path[i - 1], path[i - 1 + 1]));
    }
}

/// Whether the elements of `list` differ from one another.
pub open spec fn distinct(list: Seq<usize>) -> bool {
    forall|i: int, j: int| 0 <= i < j < list.len() ==> list[i] != list[j]
}

/// Gathers the component of `start` by a breadth-first walk, and marks its nodes as visited.
///
/// The nodes come in the order in which the walk finds them, `start` first.
pub fn collect_component(
    graph: &InMemoryGraph,
    node_to_subcommunity: &Vec<usize>,
    subcommunity: usize,
    start: usize,
    visited: &mut SharedBitVec,
) -> (members: Vec<usize>)
    requires
        graph.wf(),
        node_to_subcommunity@.len() == graph.node_count,
        start < graph.node_count,
        node_to_subcommunity@[start as int] == subcommunity,
        old(visited).wf(),
        old(visited)@.len() == graph.node_count,
        !old(visited)@[start as int],
    ensures
        final(visited).wf(),
        final(visited)@ == or_bits(
            old(visited)@,
            component(
                graph,
                node_to_subcommunity@,
                subcommunity as int,
                old(visited)@,
                start as int,
            ),
        ),
        distinct(members@),
        members@.len() > 0,
        members@[0] == start,
        forall|v: int|
            0 <= v < graph.node_count ==> component(
                graph,
                node_to_subcommunity@,
                subcommunity as int,
                old(visited)@,
                start as int,
            )[v] == list_has(members@, v),
        forall|i: int|
            0 <= i < members@.len() ==> (#[trigger] members@[i]) < graph.node_count
                && node_to_subcommunity@[members@[i] as int] == subcommunity && !old(
                visited,
            )@[members@[i] as int],
        members@.len() == count_true(
            component(
                graph,
                node_to_subcommunity@,
                subcommunity as int,
                old(visited)@,
                start as int,
            ),
            graph.node_count as int,
        ),
{
    let n: usize = graph.node_count;
    let ghost sub = node_to_subcommunity@;
    let ghost s = subcommunity as int;
    let ghost done = visited@;
    let mut order: Vec<usize> = Vec::new();
    order.push(start);
    proof {
        lemma_count_true_set(done, start as int, n as int);
    }
    visited.set(start);
    proof {
        assert(order@[0] == start);
        assert(reaches(graph, sub, s, done, start as int, start as int)) by {
            let path = seq![start as int];
            assert(is_path(graph, sub, s, done, path));
            assert(path[0] == start as int && path.last() == start as int);
        }
        assert forall|v: int| 0 <= v < n implies #[trigger] visited@[v] == (done[v] || list_has(
            order@,
            v,
        )) by {
            if list_has(order@, v) {
                let i = choose|i: int| 0 <= i < order@.len() && #[trigger] order@[i] == v;
            }
        }
    }
    let mut head: usize = 0;
    while head < order.len()
        invariant
            graph.wf(),
            n == graph.node_count,
            sub == node_to_subcommunity@,
            sub.len() == n,
            s == subcommunity as int,
            done.len() == n,
            start < n,
            visited.wf(),
            visited@.len() == n,
            head <= order@.len(),
            order@.len() > 0,
            order@[0] == start,
            distinct(order@),
            forall|i: int|
                0 <= i < order@.len() ==> (#[trigger] order@[i]) < n && sub[order@[i] as int] == s
                    && !done[order@[i] as int] && reaches(
                    graph,
                    sub,
                    s,
                    done,
                    start as int,
                    order@[i] as int,
                ),
            forall|v: int| 0 <= v < n ==> #[trigger] visited@[v] == (done[v] || list_has(order@, v)),
            forall|i: int, c: int|
                0 <= i < head && #[trigger] inner_step(graph, sub, s, done, order@[i] as int, c)
                    ==> list_has(order@, c),
            count_true(visited@, n as int) == count_true(done, n as int) + order@.len(),
        decreases (n - count_true(visited@, n as int)) + (order@.len() - head),
    {
        let a: usize = order[head];
        proof {
            graph.lemma_row_bounds(a as int);
            crate::solver::algorithm::parallel_frontier::lemma_count_true_bounds(visited@, n as int);
        }
        let lo: usize = graph.offsets[a];
        let hi: usize = lo + graph.degrees[a];
        let ghost order_at_head = order@;
        let mut k: usize = lo;
        while k < hi
            invariant
                graph.wf(),
                n == graph.node_count,
                sub == node_to_subcommunity@,
                sub.len() == n,
                s == subcommunity as int,
                done.len() == n,
                start < n,
                visited.wf(),
                visited@.len() == n,
                head < order@.len(),
                a == order@[head as int],
                a < n,
                lo == graph.row_lo(a as int),
                hi == graph.row_hi(a as int),
                lo <= k <= hi <= graph.entries(),
                order@.len() > 0,
                order@[0] == start,
                distinct(order@),
                forall|i: int|
                    0 <= i < order@.len() ==> (#[trigger] order@[i]) < n && sub[order@[i] as int]
                        == s && !done[order@[i] as int] && reaches(
                        graph,
                        sub,
                        s,
                        done,
                        start as int,
                        order@[i] as int,
                    ),
                forall|v: int|
                    0 <= v < n ==> #[trigger] visited@[v] == (done[v] || list_has(order@, v)),
                forall|i: int, c: int|
                    0 <= i < head && #[trigger] inner_step(graph, sub, s, done, order@[i] as int, c)
                        ==> list_has(order@, c),
                forall|kk: int|
                    lo <= kk < k && sub[(#[trigger] graph.neighbors@[kk]) as int] == s
                        && !done[graph.neighbors@[kk] as int] ==> list_has(
                        order@,
                        graph.neighbors@[kk] as int,
                    ),
                count_true(visited@, n as int) == count_true(done, n as int) + order@.len(),
                count_true(visited@, n as int) - order@.len() == count_true(done, n as int),
            decreases hi - k,
        {
            let b: usize = graph.neighbors[k];
            if node_to_subcommunity[b] == subcommunity && !visited.get(b) {
                let ghost order_before = order@;
                let ghost visited_before = visited@;
                proof {
                    lemma_count_true_set(visited@, b as int, n as int);
                    assert(!done[b as int]);
                    assert(!list_has(order@, b as int));
                }
                visited.set(b);
                order.push(b);
                proof {
                    assert(order@[order_before.len() as int] == b);
                    assert forall|x: int| list_has(order_before, x) implies list_has(order@, x) by {
                        let i = choose|i: int|
                            0 <= i < order_before.len() && #[trigger] order_before[i] == x;
                        assert(order@[i] == x);
                    }
                    assert(list_has(order@, b as int));
                    assert forall|x: int| list_has(order@, x) implies list_has(order_before, x)
                        || x == b by {
                        let i = choose|i: int| 0 <= i < order@.len() && #[trigger] order@[i] == x;
                        if i < order_before.len() {
                            assert(order_before[i] == x);
                        }
                    }
                    assert(distinct(order@)) by {
                        assert forall|i: int, j: int|
                            0 <= i < j < order@.len() implies order@[i] != order@[j] by {
                            if j == order_before.len() {
                                assert(order_before[i] == order@[i]);
                                if order@[i] == b {
                                    assert(list_has(order_before, b as int));
                                }
                            }
                        }
                    }
                    assert(reaches(graph, sub, s, done, start as int, b as int)) by {
                        let path = choose|path: Seq<int>|
                            #[trigger] is_path(graph, sub, s, done, path) && path[0] == start as int
                                && path.last() == a as int;
                        assert(graph.neighbors@[k as int] == b);
                        assert(row_has(
                            graph.neighbors@,
                            graph.row_lo(a as int),
                            graph.row_hi(a as int),
                            b as int,
                        ));
                        assert(inner_step(graph, sub, s, done, a as int, b as int));
                        let longer = path.push(b as int);
                        assert forall|i: int| 0 <= i < longer.len() - 1 implies inner_step(
                            graph,
                            sub,
                            s,
                            done,
                            #[trigger] longer[i],
                            longer[i + 1],
                        ) by {
                            if i < path.len() - 1 {
                                assert(inner_step(graph, sub, s, done, path[i], path[i + 1]));
                            }
                        }
                        assert(is_path(graph, sub, s, done, longer));
                        assert(longer[0] == start as int && longer.last() == b as int);
                    }
                }
            }
            k += 1;
        }
        proof {
            assert forall|c: int| #[trigger]
                inner_step(graph, sub, s, done, a as int, c) implies list_has(order@, c) by {
                let kk = choose|kk: int| lo <= kk < hi && #[trigger] graph.neighbors@[kk] == c;
                assert(sub[graph.neighbors@[kk] as int] == s);
            }
            let h1 = head + 1;
            assert forall|i: int, c: int|
                0 <= i < h1 && #[trigger] inner_step(
                    graph,
                    sub,
                    s,
                    done,
                    order@[i] as int,
                    c,
                ) implies list_has(order@, c) by {
                if i == head {
                }
            }
        }
        head += 1;
    }
    proof {
        let comp = component(graph, sub, s, done, start as int);
        assert(list_has(order@, start as int));
        assert forall|a: int, c: int|
            list_has(order@, a) && #[trigger] inner_step(
                graph,
                sub,
                s,
                done,
                a,
                c,
            ) implies list_has(order@, c) by {
            let i = choose|i: int| 0 <= i < order@.len() && #[trigger] order@[i] == a;
            assert(inner_step(graph, sub, s, done, order@[i] as int, c));
        }
        assert forall|v: int| 0 <= v < n implies comp[v] == list_has(order@, v) by {
            if comp[v] {
                let path = choose|path: Seq<int>|
                    #[trigger] is_path(graph, sub, s, done, path) && path[0] == start as int
                        && path.last() == v;
                lemma_closed_list_is_complete(
                    graph,
                    sub,
                    s,
                    done,
                    order@,
                    path,
                    path.len() - 1,
                );
            }
            if list_has(order@, v) {
                let i = choose|i: int| 0 <= i < order@.len() && #[trigger] order@[i] == v;
                assert(reaches(graph, sub, s, done, start as int, order@[i] as int));
            }
        }
        assert(visited@ =~= or_bits(done, comp));
        assert forall|i: int| 0 <= i < n implies !(done[i] && comp[i]) by {
            if comp[i] {
                let j = choose|j: int| 0 <= j < order@.len() && #[trigger] order@[j] == i;
            }
        }
        lemma_count_true_disjoint(done, comp, visited@, n as int);
    }
    order
}

/// The components of sub-community `s` whose smallest node is not below
/// `from`, in the order of their smallest nodes. `done` holds the nodes of the
/// components before them.
pub open spec fn components_from(
    graph: &InMemoryGraph,
    sub: Seq<usize>,
    s: int,
    done: Seq<bool>,
    from: int,
) -> Seq<Seq<bool>>
    decreases graph.node_count - from,
{
    if from >= graph.node_count || from < 0 {
        Seq::empty()
    } else if sub[from] == s && !done[from] {
        let first = component(graph, sub, s, done, from);
        seq![first] + components_from(graph, sub, s, or_bits(done, first), from + 1)
    } else {
        components_from(graph, sub, s, done, from + 1)
    }
}

/// The set over `n` ids that holds none.
pub open spec fn no_bits(n: nat) -> Seq<bool> {
    Seq::new(n, |i: int| false)
}

/// The components of sub-community `s`, in the order of their smallest nodes.
pub open spec fn components_of(graph: &InMemoryGraph, sub: Seq<usize>, s: int) -> Seq<Seq<bool>> {
    components_from(graph, sub, s, no_bits(graph.node_count as nat), 0)
}

/// Whether `lists` holds, one list each, exactly the nodes of `comps`.
pub open spec fn lists_components(
    lists: Seq<Vec<usize>>,
    comps: Seq<Seq<bool>>,
    sub: Seq<usize>,
    s: int,
    n: int,
) -> bool {
    &&& lists.len() == comps.len()
    &&& forall|i: int|
        0 <= i < lists.len() ==> (#[trigger] comps[i]).len() == n && lists[i]@.len() > 0
            && lists[i]@.len() == count_true(comps[i], n) && distinct(lists[i]@)
    &&& forall|i: int, v: int|
        0 <= i < lists.len() && 0 <= v < n ==> #[trigger] comps[i][v] == list_has(lists[i]@, v)
    &&& forall|i: int, j: int|
        0 <= i < lists.len() && 0 <= j < lists[i]@.len() ==> (#[trigger] lists[i]@[j]) < n
            && sub[lists[i]@[j] as int] == s
    &&& forall|i: int, j: int, v: int|
        0 <= i < j < lists.len() && 0 <= v < n ==> !(#[trigger] comps[i][v] && #[trigger] comps[j][v])
}

/// Finds the components of a sub-community, each as the list of its nodes, and marks every node found as visited.
pub fn find_components(
    graph: &InMemoryGraph,
    node_to_subcommunity: &Vec<usize>,
    subcommunity: usize,
    visited: &mut SharedBitVec,
) -> (lists: Vec<Vec<usize>>)
    requires
        graph.wf(),
        node_to_subcommunity@.len() == graph.node_count,
        old(visited).wf(),
        old(visited)@ == no_bits(graph.node_count as nat),
    ensures
        final(visited).wf(),
        final(visited)@.len() == graph.node_count,
        lists_components(
            lists@,
            components_of(graph, node_to_subcommunity@, subcommunity as int),
            node_to_subcommunity@,
            subcommunity as int,
            graph.node_count as int,
        ),
        forall|v: int|
            0 <= v < graph.node_count ==> #[trigger] final(visited)@[v] == exists|i: int|
                0 <= i < lists@.len() && #[trigger] list_has(lists@[i]@, v),
{
    let n: usize = graph.node_count;
    let ghost sub = node_to_subcommunity@;
    let ghost s = subcommunity as int;
    let ghost total = components_of(graph, sub, s);
    let ghost mut prefix: Seq<Seq<bool>> = Seq::empty();
    let mut lists: Vec<Vec<usize>> = Vec::new();
    let mut start: usize = 0;
    proof {
        assert(prefix + components_from(graph, sub, s, visited@, 0) =~= total);
    }
    while start < n
        invariant
            graph.wf(),
            n == graph.node_count,
            sub == node_to_subcommunity@,
            sub.len() == n,
            s == subcommunity as int,
            start <= n,
            visited.wf(),
            visited@.len() == n,
            total == prefix + components_from(graph, sub, s, visited@, start as int),
            lists_components(lists@, prefix, sub, s, n as int),
            forall|v: int|
                0 <= v < n ==> #[trigger] visited@[v] == exists|i: int|
                    0 <= i < lists@.len() && #[trigger] list_has(lists@[i]@, v),
        decreases n - start,
    {
        if node_to_subcommunity[start] == subcommunity && !visited.get(start) {
            let ghost done = visited@;
            let ghost lists_before = lists@;
            let ghost comp = component(graph, sub, s, done, start as int);
            let members = collect_component(
                graph,
                node_to_subcommunity,
                subcommunity,
                start,
                visited,
            );
            lists.push(members);
            proof {
                let next = prefix.push(comp);
                assert(seq![comp] + components_from(
                    graph,
                    sub,
                    s,
                    or_bits(done, comp),
                    start + 1,
                ) == components_from(graph, sub, s, done, start as int));
                assert(total =~= next + components_from(graph, sub, s, visited@, start + 1));
                let k = lists_before.len() as int;
                assert(lists@[k] == members);
                assert forall|i: int, v: int|
                    0 <= i < lists@.len() && 0 <= v < n implies #[trigger] next[i][v] == list_has(
                    lists@[i]@,
                    v,
                ) by {
                    if i < k {
                        assert(lists@[i] == lists_before[i]);
                        assert(prefix[i][v] == list_has(lists_before[i]@, v));
                    }
                }
                assert forall|i: int, j: int, v: int|
                    0 <= i < j < lists@.len() && 0 <= v < n implies !(#[trigger] next[i][v]
                    && #[trigger] next[j][v]) by {
                    if j == k {
                        if next[i][v] && next[j][v] {
                            assert(prefix[i][v] == list_has(lists_before[i]@, v));
                            assert(list_has(lists_before[i]@, v));
                            assert(done[v]);
                            let m = choose|m: int|
                                0 <= m < members@.len() && #[trigger] members@[m] == v;
                        }
                    } else {
                        assert(!(prefix[i][v] && prefix[j][v]));
                    }
                }
                assert forall|i: int| 0 <= i < lists@.len() implies (#[trigger] next[i]).len() == n
                    && lists@[i]@.len() > 0 && lists@[i]@.len() == count_true(next[i], n as int)
                    && distinct(lists@[i]@) by {
                    if i < k {
                        assert(lists@[i] == lists_before[i]);
                        assert(prefix[i].len() == n);
                    }
                }
                assert forall|i: int, j: int|
                    0 <= i < lists@.len() && 0 <= j < lists@[i]@.len() implies (
                #[trigger] lists@[i]@[j]) < n && sub[lists@[i]@[j] as int] == s by {
                    if i < k {
                        assert(lists@[i] == lists_before[i]);
                        assert(lists_before[i]@[j] < n);
                    }
                }
                assert forall|v: int| 0 <= v < n implies #[trigger] visited@[v] == exists|i: int|
                    0 <= i < lists@.len() && #[trigger] list_has(lists@[i]@, v) by {
                    if done[v] {
                        let i = choose|i: int|
                            0 <= i < lists_before.len() && #[trigger] list_has(
                                lists_before[i]@,
                                v,
                            );
                        assert(lists@[i] == lists_before[i]);
                        assert(list_has(lists@[i]@, v));
                    }
                    if comp[v] {
                        assert(list_has(lists@[k]@, v));
                    }
                    if exists|i: int| 0 <= i < lists@.len() && #[trigger] list_has(lists@[i]@, v) {
                        let i = choose|i: int|
                            0 <= i < lists@.len() && #[trigger] list_has(lists@[i]@, v);
                        if i < k {
                            assert(lists@[i] == lists_before[i]);
                            assert(list_has(lists_before[i]@, v));
                        }
                    }
                }
                assert(lists_components(lists@, next, sub, s, n as int));
                prefix = next;
            }
        }
        start += 1;
    }
    proof {
        assert(total =~= prefix);
    }
    lists
}

} // verus!
