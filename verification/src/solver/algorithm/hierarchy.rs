use crate::solver::algorithm::parallel_frontier::SharedBitVec;
use vstd::prelude::*;

verus! {

/// The mappings of each level, as sequences.
pub open spec fn level_maps(levels: Seq<Vec<usize>>) -> Seq<Seq<usize>> {
    Seq::new(levels.len(), |p: int| levels[p]@)
}

/// The node sets of each level, as sequences.
pub open spec fn level_sets(levels: Seq<SharedBitVec>) -> Seq<Seq<bool>> {
    Seq::new(levels.len(), |p: int| levels[p]@)
}

/// Whether the first `top` levels fit together: at each, the mapping, the
/// sub-communities and the node set range over the same nodes, and the
/// sub-community of every node is a node of the level above.
pub open spec fn levels_fit(
    labels: Seq<Seq<usize>>,
    sub: Seq<Seq<usize>>,
    changed: Seq<Seq<bool>>,
    top: int,
) -> bool {
    &&& 0 <= top <= labels.len()
    &&& top <= sub.len()
    &&& top <= changed.len()
    &&& forall|p: int|
        0 <= p < top ==> (#[trigger] labels[p]).len() == sub[p].len() && changed[p].len()
            == sub[p].len()
    &&& forall|p: int, v: int|
        0 <= p < top - 1 && 0 <= v < sub[p].len() ==> (#[trigger] sub[p][v]) < labels[p + 1].len()
}

/// The nodes of level `p` that the update touches: those given for the level,
/// and every node whose sub-community is a touched node of the level above.
pub open spec fn touched(sub: Seq<Seq<usize>>, changed: Seq<Seq<bool>>, top: int, p: int) -> Seq<bool>
    decreases top - p,
{
    if p >= top - 1 || p < 0 {
        changed[p]
    } else {
        Seq::new(
            changed[p].len(),
            |u: int| changed[p][u] || touched(sub, changed, top, p + 1)[sub[p][u] as int],
        )
    }
}

/// The mapping of level `p` after the update: a touched node takes the label
/// that the level above gives to its sub-community; the top level stays as it is.
pub open spec fn updated_labels(
    labels: Seq<Seq<usize>>,
    sub: Seq<Seq<usize>>,
    changed: Seq<Seq<bool>>,
    top: int,
    p: int,
) -> Seq<usize>
    decreases top - p,
{
    if p >= top - 1 || p < 0 {
        labels[p]
    } else {
        Seq::new(
            labels[p].len(),
            |v: int|
                if touched(sub, changed, top, p)[v] {
                    updated_labels(labels, sub, changed, top, p + 1)[sub[p][v] as int]
                } else {
                    labels[p][v]
                },
        )
    }
}

/// Whether the levels from `from` upwards are updated, and the levels below are as they were.
pub open spec fn updated_from(
    labels_now: Seq<Seq<usize>>,
    changed_now: Seq<Seq<bool>>,
    labels: Seq<Seq<usize>>,
    sub: Seq<Seq<usize>>,
    changed: Seq<Seq<bool>>,
    top: int,
    from: int,
) -> bool {
    &&& labels_now.len() == labels.len()
    &&& changed_now.len() == changed.len()
    &&& forall|p: int|
        0 <= p < labels.len() ==> #[trigger] labels_now[p] == (if from <= p < top {
            updated_labels(labels, sub, changed, top, p)
        } else {
            labels[p]
        })
    &&& forall|p: int|
        0 <= p < changed.len() ==> #[trigger] changed_now[p] == (if from - 1 <= p < top {
            touched(sub, changed, top, p)
        } else {
            changed[p]
        })
}

/// The updated mapping of a level ranges over the nodes of the level, and so do its touched nodes.
pub proof fn lemma_update_lengths(
    labels: Seq<Seq<usize>>,
    sub: Seq<Seq<usize>>,
    changed: Seq<Seq<bool>>,
    top: int,
    p: int,
)
    requires
        levels_fit(labels, sub, changed, top),
        0 <= p < top,
    ensures
        touched(sub, changed, top, p).len() == sub[p].len(),
        updated_labels(labels, sub, changed, top, p).len() == sub[p].len(),
    decreases top - p,
{
    assert(labels[p].len() == sub[p].len());
}

/// The deferred update: from the top level down, every touched node takes the
/// label that the level above gives to its sub-community, and every node whose
/// sub-community is touched becomes touched itself.
pub fn def_update(
    node_to_community_per_level: &mut Vec<Vec<usize>>,
    node_to_subcommunity_per_level: &Vec<Vec<usize>>,
    changed_nodes_per_level: &mut Vec<SharedBitVec>,
    max_levels: usize,
)
    requires
        levels_fit(
            level_maps(old(node_to_community_per_level)@),
            level_maps(node_to_subcommunity_per_level@),
            level_sets(old(changed_nodes_per_level)@),
            max_levels as int,
        ),
        forall|p: int|
            0 <= p < max_levels ==> (#[trigger] old(changed_nodes_per_level)@[p]).wf(),
    ensures
        updated_from(
            level_maps(final(node_to_community_per_level)@),
            level_sets(final(changed_nodes_per_level)@),
            level_maps(old(node_to_community_per_level)@),
            level_maps(node_to_subcommunity_per_level@),
            level_sets(old(changed_nodes_per_level)@),
            max_levels as int,
            0,
        ),
        forall|p: int|
            0 <= p < max_levels ==> (#[trigger] final(changed_nodes_per_level)@[p]).wf(),
{
    let ghost labels0 = level_maps(node_to_community_per_level@);
    let ghost sub = level_maps(node_to_subcommunity_per_level@);
    let ghost changed0 = level_sets(changed_nodes_per_level@);
    let ghost top = max_levels as int;
    let mut p: usize = max_levels;
    proof {
        assert(updated_from(
            level_maps(node_to_community_per_level@),
            level_sets(changed_nodes_per_level@),
            labels0,
            sub,
            changed0,
            top,
            top,
        )) by {
            if top > 0 {
                assert(touched(sub, changed0, top, top - 1) == changed0[top - 1]);
            }
        }
    }
    while p > 0
        invariant
            p <= max_levels,
            top == max_levels as int,
            sub == level_maps(node_to_subcommunity_per_level@),
            levels_fit(labels0, sub, changed0, top),
            node_to_community_per_level@.len() == labels0.len(),
            changed_nodes_per_level@.len() == changed0.len(),
            forall|q: int| 0 <= q < max_levels ==> (#[trigger] changed_nodes_per_level@[q]).wf(),
            updated_from(
                level_maps(node_to_community_per_level@),
                level_sets(changed_nodes_per_level@),
                labels0,
                sub,
                changed0,
                top,
                p as int,
            ),
        decreases p,
    {
        p -= 1;
        let ghost labels_before = level_maps(node_to_community_per_level@);
        let ghost changed_before = level_sets(changed_nodes_per_level@);
        proof {
            lemma_update_lengths(labels0, sub, changed0, top, p as int);
            assert(changed_before[p as int] == touched(sub, changed0, top, p as int));
            assert(labels_before[p as int] == labels0[p as int]);
            assert(node_to_subcommunity_per_level@[p as int]@ == sub[p as int]);
        }
        if p + 1 < max_levels {
            proof {
                lemma_update_lengths(labels0, sub, changed0, top, p + 1);
                assert(labels_before[p + 1] == updated_labels(labels0, sub, changed0, top, p + 1));
            }
            pull_labels(
                node_to_community_per_level,
                &node_to_subcommunity_per_level[p],
                &changed_nodes_per_level[p],
                p,
            );
        }
        if p > 0 {
            proof {
                assert(changed_before[p - 1] == changed0[p - 1]);
                assert(node_to_subcommunity_per_level@[p - 1]@ == sub[p - 1]);
                assert(labels0[p - 1].len() == sub[p - 1].len());
                assert(changed0[p - 1].len() == sub[p - 1].len());
                assert(labels0[p as int].len() == sub[p as int].len());
            }
            push_touched(changed_nodes_per_level, &node_to_subcommunity_per_level[p - 1], p);
        }
        proof {
            let labels_now = level_maps(node_to_community_per_level@);
            let changed_now = level_sets(changed_nodes_per_level@);
            assert forall|q: int| 0 <= q < labels0.len() implies #[trigger] labels_now[q] == (if p
                <= q < top {
                updated_labels(labels0, sub, changed0, top, q)
            } else {
                labels0[q]
            }) by {
                if q == p {
                    if p + 1 < max_levels {
                        assert(labels_now[q] =~= updated_labels(labels0, sub, changed0, top, q));
                    }
                } else {
                    assert(labels_now[q] == labels_before[q]);
                }
            }
            assert forall|q: int| 0 <= q < changed0.len() implies #[trigger] changed_now[q] == (
            if p - 1 <= q < top {
                touched(sub, changed0, top, q)
            } else {
                changed0[q]
            }) by {
                if q == p - 1 {
                    assert(changed_now[q] =~= touched(sub, changed0, top, q));
                } else {
                    assert(changed_now[q] == changed_before[q]);
                }
            }
        }
    }
}

/// Gives every touched node of level `p` the label that the level above gives to its sub-community.
fn pull_labels(
    node_to_community_per_level: &mut Vec<Vec<usize>>,
    node_to_subcommunity: &Vec<usize>,
    changed_nodes: &SharedBitVec,
    p: usize,
)
    requires
        p + 1 < old(node_to_community_per_level)@.len(),
        old(node_to_community_per_level)@[p as int]@.len() == node_to_subcommunity@.len(),
        changed_nodes.wf(),
        changed_nodes@.len() == node_to_subcommunity@.len(),
        forall|v: int|
            0 <= v < node_to_subcommunity@.len()
                ==> (#[trigger] node_to_subcommunity@[v]) < old(node_to_community_per_level)@[p + 1]@.len(),
    ensures
        final(node_to_community_per_level)@.len() == old(node_to_community_per_level)@.len(),
        forall|q: int|
            0 <= q < old(node_to_community_per_level)@.len() && q != p
                ==> #[trigger] final(node_to_community_per_level)@[q]
                == old(node_to_community_per_level)@[q],
        final(node_to_community_per_level)@[p as int]@.len() == node_to_subcommunity@.len(),
        forall|v: int|
            0 <= v < node_to_subcommunity@.len()
                ==> #[trigger] final(node_to_community_per_level)@[p as int]@[v]
                == (if changed_nodes@[v] {
                old(node_to_community_per_level)@[p + 1]@[node_to_subcommunity@[v] as int]
            } else {
                old(node_to_community_per_level)@[p as int]@[v]
            }),
{
    let n: usize = node_to_subcommunity.len();
    let levels: usize = node_to_community_per_level.len();
    let ghost before = node_to_community_per_level@;
    let mut v: usize = 0;
    while v < n
        invariant
            levels == before.len(),
            n == node_to_subcommunity@.len(),
            changed_nodes.wf(),
            changed_nodes@.len() == n,
            before == old(node_to_community_per_level)@,
            p + 1 < before.len(),
            node_to_community_per_level@.len() == before.len(),
            forall|q: int|
                0 <= q < before.len() && q != p ==> #[trigger] node_to_community_per_level@[q]
                    == before[q],
            node_to_community_per_level@[p as int]@.len() == n,
            before[p as int]@.len() == n,
            forall|u: int|
                0 <= u < n ==> (#[trigger] node_to_subcommunity@[u]) < before[p + 1]@.len(),
            v <= n,
            forall|u: int|
                0 <= u < n ==> #[trigger] node_to_community_per_level@[p as int]@[u] == (if u < v
                    && changed_nodes@[u] {
                    before[p + 1]@[node_to_subcommunity@[u] as int]
                } else {
                    before[p as int]@[u]
                }),
        decreases n - v,
    {
        if changed_nodes.get(v) {
            let s: usize = node_to_subcommunity[v];
            assert(node_to_community_per_level@[p + 1] == before[p + 1]);
            let label: usize = node_to_community_per_level[p + 1][s];
            let level = &mut node_to_community_per_level[p];
            level.set(v, label);
        }
        v += 1;
    }
}

/// Touches every node of level `p - 1` whose sub-community is a touched node of level `p`.
fn push_touched(
    changed_nodes_per_level: &mut Vec<SharedBitVec>,
    node_to_subcommunity_below: &Vec<usize>,
    p: usize,
)
    requires
        0 < p < old(changed_nodes_per_level)@.len(),
        old(changed_nodes_per_level)@[p as int].wf(),
        old(changed_nodes_per_level)@[p - 1].wf(),
        old(changed_nodes_per_level)@[p - 1]@.len() == node_to_subcommunity_below@.len(),
        forall|u: int|
            0 <= u < node_to_subcommunity_below@.len() ==> (
            #[trigger] node_to_subcommunity_below@[u]) < old(changed_nodes_per_level)@[p as int]@.len(),
    ensures
        final(changed_nodes_per_level)@.len() == old(changed_nodes_per_level)@.len(),
        forall|q: int|
            0 <= q < old(changed_nodes_per_level)@.len() && q != p - 1
                ==> #[trigger] final(changed_nodes_per_level)@[q]
                == old(changed_nodes_per_level)@[q],
        final(changed_nodes_per_level)@[p - 1].wf(),
        final(changed_nodes_per_level)@[p - 1]@.len() == node_to_subcommunity_below@.len(),
        forall|u: int|
            0 <= u < node_to_subcommunity_below@.len()
                ==> #[trigger] final(changed_nodes_per_level)@[p - 1]@[u]
                == (old(changed_nodes_per_level)@[p - 1]@[u] || old(changed_nodes_per_level)@[p as int]@[node_to_subcommunity_below@[u] as int]),
{
    let n: usize = node_to_subcommunity_below.len();
    let ghost before = changed_nodes_per_level@;
    let mut u: usize = 0;
    while u < n
        invariant
            n == node_to_subcommunity_below@.len(),
            before == old(changed_nodes_per_level)@,
            0 < p < before.len(),
            changed_nodes_per_level@.len() == before.len(),
            forall|q: int|
                0 <= q < before.len() && q != p - 1 ==> #[trigger] changed_nodes_per_level@[q]
                    == before[q],
            before[p as int].wf(),
            changed_nodes_per_level@[p - 1].wf(),
            changed_nodes_per_level@[p - 1]@.len() == n,
            before[p - 1]@.len() == n,
            forall|w: int|
                0 <= w < n ==> (#[trigger] node_to_subcommunity_below@[w]) < before[p as int]@.len(),
            u <= n,
            forall|w: int|
                0 <= w < n ==> #[trigger] changed_nodes_per_level@[p - 1]@[w] == (before[p - 1]@[w]
                    || (w < u && before[p as int]@[node_to_subcommunity_below@[w] as int])),
        decreases n - u,
    {
        let s: usize = node_to_subcommunity_below[u];
        assert(changed_nodes_per_level@[p as int] == before[p as int]);
        if changed_nodes_per_level[p].get(s) {
            let below = &mut changed_nodes_per_level[p - 1];
            below.set(u);
        }
        u += 1;
    }
}

} // verus!
