use crate::solver::partition::state::{identity_map, identity_vec};
use vstd::prelude::*;

verus! {

/// The order in which the deterministic mode takes the nodes: ascending by id.
pub fn stable_order(node_count: usize) -> (order: Vec<usize>)
    ensures
        order@ == identity_map(node_count as nat),
{
    identity_vec(node_count)
}

/// Of two communities of equal gain the one of the smaller id.
pub fn tie_break_community(c1: usize, c2: usize) -> (winner: usize)
    ensures
        winner == if c1 <= c2 {
            c1
        } else {
            c2
        },
{
    if c1 <= c2 {
        c1
    } else {
        c2
    }
}

/// Of two moves the one of the greater gain; of two moves of equal gain the
/// one into the community of the smaller id, and the second where the ids are equal.
pub fn tie_break_gain(g1: i64, c1: usize, g2: i64, c2: usize) -> (winner: (i64, usize))
    ensures
        winner == if g1 > g2 || (g1 == g2 && c1 < c2) {
            (g1, c1)
        } else {
            (g2, c2)
        },
{
    if g1 == g2 {
        if c1 < c2 {
            (g1, c1)
        } else {
            (g2, c2)
        }
    } else if g1 > g2 {
        (g1, c1)
    } else {
        (g2, c2)
    }
}

} // verus!
