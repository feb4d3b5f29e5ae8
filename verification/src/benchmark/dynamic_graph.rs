use crate::solver::text::{decimal_digits, numbered};
use crate::solver::types::{Edge, GraphInput};
use crate::solver::weight::SCALE;
use rand::rngs::StdRng;
use rand::seq::SliceRandom;
use rand::SeedableRng;
use vstd::prelude::*;
use vstd::string::StringExecFns;

verus! {

/// The order in which `SliceRandom::shuffle` leaves `pairs` when it draws from
/// the `StdRng` that `SeedableRng::seed_from_u64` makes of `seed`.
pub uninterp spec fn shuffled_pairs(pairs: Seq<(usize, usize)>, seed: u64) -> Seq<(usize, usize)>;

/// `SliceRandom::shuffle`, drawing from the generator that
/// `StdRng::seed_from_u64` makes of the seed: swaps the pairs about in place.
/// The order that comes out is a function of the pairs and the seed alone; the
/// pairs that the vector holds, and how often it holds each, stay as they are.
#[verifier::external_body]
fn shuffle_seeded(pairs: &mut Vec<(usize, usize)>, seed: u64)
    ensures
        final(pairs)@ == shuffled_pairs(old(pairs)@, seed),
        final(pairs)@.to_multiset() == old(pairs)@.to_multiset(),
{
    let mut rng = StdRng::seed_from_u64(seed);
    pairs.shuffle(&mut rng);
}

/// The first `upto` pairs as edges without a weight of their own.
pub open spec fn unweighted(pairs: Seq<(usize, usize)>, upto: int) -> Seq<Edge> {
    Seq::new(upto as nat, |i: int| (pairs[i].0, pairs[i].1, None::<i64>))
}

/// The first `upto` pairs as edges without a weight of their own.
fn unweighted_edges(pairs: &Vec<(usize, usize)>, upto: usize) -> (edges: Vec<Edge>)
    requires
        upto <= pairs@.len(),
    ensures
        edges@ == unweighted(pairs@, upto as int),
{
    let mut edges: Vec<Edge> = Vec::new();
    let mut i: usize = 0;
    while i < upto
        invariant
            i <= upto <= pairs@.len(),
            edges@.len() == i,
            forall|j: int| 0 <= j < i ==> #[trigger] edges@[j] == (pairs@[j].0, pairs@[j].1, None::<i64>),
        decreases upto - i,
    {
        let (s, d) = pairs[i];
        edges.push((s, d, None));
        i += 1;
    }
    assert(edges@ =~= unweighted(pairs@, upto as int));
    edges
}

/// A copy of the pairs.
fn copy_pairs(pairs: &Vec<(usize, usize)>) -> (copy: Vec<(usize, usize)>)
    ensures
        copy@ == pairs@,
{
    let mut copy: Vec<(usize, usize)> = Vec::new();
    let mut i: usize = 0;
    while i < pairs.len()
        invariant
            i <= pairs@.len(),
            copy@.len() == i,
            forall|j: int| 0 <= j < i ==> copy@[j] == pairs@[j],
        decreases pairs@.len() - i,
    {
        copy.push(pairs[i]);
        i += 1;
    }
    assert(copy@ =~= pairs@);
    copy
}

/// A graph cut into a first part and update batches.
#[derive(Clone, Debug)]
pub struct IncrementalSplit {
    pub initial_graph: GraphInput,
    /// Each batch holds the graph as it stands after the update: all edges up to and with its own.
    pub update_batches: Vec<GraphInput>,
    pub batch_size: usize,
    pub rounds: usize,
}

/// The edges of a graph, to be handed out in batches.
pub struct DynamicGraphBuilder {
    all_edges: Vec<(usize, usize)>,
    node_count: usize,
}

/// The number of edges of the first part: the share `ratio` of `len`, in
/// millionths, rounded down; a share below zero counts as none, one above one as all.
pub open spec fn initial_share(len: nat, ratio: i64) -> nat {
    if ratio <= 0 {
        0
    } else if ratio >= SCALE {
        len
    } else {
        (len * ratio as nat) / (SCALE as nat)
    }
}

/// The number of update batches: as many as asked for, but no more than the
/// remaining edges fill; none where a batch holds no edge.
pub open spec fn effective_rounds(len: nat, initial: nat, batch_size: nat, rounds: nat) -> nat {
    if batch_size == 0 {
        0
    } else if rounds <= (len - initial) / batch_size as int {
        rounds
    } else {
        ((len - initial) / batch_size as int) as nat
    }
}

/// Whether `split` cuts the edges in the order given: the first part holds the
/// initial share of them, and update batch `r` holds the first part and `r + 1` batches more.
pub open spec fn is_split_of(
    split: &IncrementalSplit,
    shuffled: Seq<(usize, usize)>,
    node_count: usize,
    initial_ratio: i64,
    batch_size: usize,
    rounds: usize,
) -> bool {
    let initial = initial_share(shuffled.len(), initial_ratio);
    &&& split.batch_size == batch_size
    &&& split.rounds == effective_rounds(shuffled.len(), initial, batch_size as nat, rounds as nat)
    &&& split.initial_graph.dataset_id@ == "paper_initial"@
    &&& split.initial_graph.node_count == node_count
    &&& split.initial_graph.edges@ == unweighted(shuffled, initial as int)
    &&& split.update_batches@.len() == split.rounds
    &&& forall|r: int|
        0 <= r < split.rounds ==> (#[trigger] split.update_batches@[r]).node_count == node_count
            && split.update_batches@[r].dataset_id@ == "paper_batch_"@ + decimal_digits(r as nat)
            && split.update_batches@[r].edges@ == unweighted(
            shuffled,
            initial + (r + 1) * batch_size,
        )
}

/// Cuts edges, in the order given, into a first part and update batches.
pub fn split_shuffled(
    shuffled: &Vec<(usize, usize)>,
    node_count: usize,
    initial_ratio: i64,
    batch_size: usize,
    rounds: usize,
) -> (split: IncrementalSplit)
    ensures
        is_split_of(&split, shuffled@, node_count, initial_ratio, batch_size, rounds),
{
    let len: usize = shuffled.len();
    let initial_count: usize = if initial_ratio <= 0 {
        0
    } else if initial_ratio >= SCALE {
        len
    } else {
        proof {
            assert(len * initial_ratio <= 0xffff_ffff_ffff_ffff * 1_000_000) by (nonlinear_arith)
                requires
                    0 <= len <= 0xffff_ffff_ffff_ffff,
                    0 < initial_ratio < 1_000_000,
            ;
            assert((len * initial_ratio) / 1_000_000 <= len) by (nonlinear_arith)
                requires
                    0 <= len,
                    0 < initial_ratio < 1_000_000,
            ;
        }
        ((len as u128 * initial_ratio as u128) / (SCALE as u128)) as usize
    };
    assert(initial_count == initial_share(len as nat, initial_ratio));
    let available_updates: usize = len - initial_count;
    let effective: usize = if batch_size == 0 {
        0
    } else if rounds <= available_updates / batch_size {
        rounds
    } else {
        available_updates / batch_size
    };
    let mut update_batches: Vec<GraphInput> = Vec::new();
    let mut round: usize = 0;
    while round < effective
        invariant
            len == shuffled@.len(),
            initial_count <= len,
            available_updates == len - initial_count,
            batch_size > 0 ==> effective <= available_updates / batch_size,
            batch_size == 0 ==> effective == 0,
            round <= effective,
            update_batches@.len() == round,
            forall|r: int|
                0 <= r < round ==> (#[trigger] update_batches@[r]).node_count == node_count
                    && update_batches@[r].dataset_id@ == "paper_batch_"@ + decimal_digits(r as nat)
                    && update_batches@[r].edges@ == unweighted(
                    shuffled@,
                    initial_count + (r + 1) * batch_size,
                ),
        decreases effective - round,
    {
        proof {
            assert((round + 1) * batch_size <= available_updates) by (nonlinear_arith)
                requires
                    round + 1 <= effective,
                    effective <= available_updates / batch_size,
                    batch_size > 0,
                    available_updates >= 0,
            ;
        }
        let end: usize = initial_count + (round + 1) * batch_size;
        update_batches.push(
            GraphInput {
                dataset_id: numbered("paper_batch_", round),
                node_count,
                edges: unweighted_edges(shuffled, end),
            },
        );
        round += 1;
    }
    IncrementalSplit {
        initial_graph: GraphInput {
            dataset_id: "paper_initial".to_string(),
            node_count,
            edges: unweighted_edges(shuffled, initial_count),
        },
        update_batches,
        batch_size,
        rounds: effective,
    }
}

impl DynamicGraphBuilder {
    /// The edges that the builder holds, in their order.
    pub closed spec fn edges(&self) -> Seq<(usize, usize)> {
        self.all_edges@
    }

    /// The number of nodes of the graph.
    pub closed spec fn nodes(&self) -> usize {
        self.node_count
    }

    /// Takes the edges of a graph, without their weights.
    pub fn new(graph: &GraphInput) -> (builder: Self)
        ensures
            builder.nodes() == graph.node_count,
            builder.edges().len() == graph.edges@.len(),
            forall|i: int|
                0 <= i < graph.edges@.len() ==> #[trigger] builder.edges()[i] == (
                    graph.edges@[i].0,
                    graph.edges@[i].1,
                ),
    {
        let mut edges: Vec<(usize, usize)> = Vec::new();
        let mut i: usize = 0;
        while i < graph.edges.len()
            invariant
                i <= graph.edges@.len(),
                edges@.len() == i,
                forall|j: int|
                    0 <= j < i ==> #[trigger] edges@[j] == (graph.edges@[j].0, graph.edges@[j].1),
            decreases graph.edges@.len() - i,
        {
            let (s, d, _w) = graph.edges[i];
            edges.push((s, d));
            i += 1;
        }
        DynamicGraphBuilder { all_edges: edges, node_count: graph.node_count }
    }

    /// Shuffles the edges with a generator seeded by `seed`: they come to
    /// stand in the order that the generator gives them. The builder holds the
    /// same edges after, each as often as before.
    pub fn shuffle(&mut self, seed: u64)
        ensures
            final(self).nodes() == old(self).nodes(),
            final(self).edges() == shuffled_pairs(old(self).edges(), seed),
            final(self).edges().to_multiset() == old(self).edges().to_multiset(),
    {
        shuffle_seeded(&mut self.all_edges, seed);
    }

    /// The number of batches that edges in batches of `batch_size` fill: the last may be short.
    pub open spec fn batch_count(len: nat, batch_size: nat) -> nat {
        if len % batch_size == 0 {
            len / batch_size
        } else {
            len / batch_size + 1
        }
    }

    /// The number of edges up to and with batch `index`.
    pub open spec fn batch_end(len: nat, batch_size: nat, index: int) -> int {
        if (index + 1) * batch_size <= len {
            (index + 1) * batch_size
        } else {
            len as int
        }
    }

    /// Cuts the edges into batches of `batch_size`, the last of which may be
    /// short. Each batch holds the graph as it stands with it: all edges up to
    /// and with its own.
    pub fn batches(&self, batch_size: usize) -> (batches: Vec<GraphInput>)
        requires
            batch_size > 0,
        ensures
            batches@.len() == Self::batch_count(self.edges().len(), batch_size as nat),
            forall|i: int|
                0 <= i < batches@.len() ==> (#[trigger] batches@[i]).node_count == self.nodes()
                    && batches@[i].dataset_id@ == "batch_"@ + decimal_digits(i as nat)
                    && batches@[i].edges@ == unweighted(
                    self.edges(),
                    Self::batch_end(self.edges().len(), batch_size as nat, i),
                ),
    {
        let len: usize = self.all_edges.len();
        let mut batches: Vec<GraphInput> = Vec::new();
        let mut start: usize = 0;
        let mut index: usize = 0;
        while start < len
            invariant
                batch_size > 0,
                len == self.all_edges@.len(),
                start <= len,
                start == index * batch_size || start == len,
                start == len ==> index == Self::batch_count(len as nat, batch_size as nat),
                start < len ==> start == index * batch_size,
                batches@.len() == index,
                forall|i: int|
                    0 <= i < index ==> (#[trigger] batches@[i]).node_count == self.node_count
                        && batches@[i].dataset_id@ == "batch_"@ + decimal_digits(i as nat)
                        && batches@[i].edges@ == unweighted(
                        self.all_edges@,
                        Self::batch_end(len as nat, batch_size as nat, i),
                    ),
            decreases len - start,
        {
            let end: usize = if len - start <= batch_size {
                len
            } else {
                start + batch_size
            };
            proof {
                let l = len as int;
                let b = batch_size as int;
                let i = index as int;
                assert((i + 1) * b == i * b + b) by (nonlinear_arith);
                assert(i <= i * b) by (nonlinear_arith)
                    requires
                        i >= 0,
                        b >= 1,
                ;
                assert(end == Self::batch_end(len as nat, batch_size as nat, i));
                if end == len {
                    assert(l / b == i && l % b != 0 || (l / b == i + 1 && l % b == 0)) by (nonlinear_arith)
                        requires
                            i * b < l,
                            l <= i * b + b,
                            b > 0,
                            i >= 0,
                    ;
                }
            }
            batches.push(
                GraphInput {
                    dataset_id: numbered("batch_", index),
                    node_count: self.node_count,
                    edges: unweighted_edges(&self.all_edges, end),
                },
            );
            start = end;
            index += 1;
        }
        proof {
            if len == 0 {
                assert(0nat % (batch_size as nat) == 0 && 0nat / (batch_size as nat) == 0) by (nonlinear_arith)
                    requires
                        batch_size > 0,
                ;
            }
        }
        batches
    }

    /// Cuts the edges as for an experiment with updates: a copy of the edges
    /// is shuffled with a generator seeded by `seed`, as [`Self::shuffle`]
    /// does; the first part holds the share `initial_ratio` of them, in
    /// millionths; then come `rounds` update batches of `batch_size` edges, as
    /// far as the edges reach. The builder keeps its own order.
    pub fn paper_split(&self, initial_ratio: i64, batch_size: usize, rounds: usize, seed: u64) -> (split:
        IncrementalSplit)
        ensures
            is_split_of(
                &split,
                shuffled_pairs(self.edges(), seed),
                self.nodes(),
                initial_ratio,
                batch_size,
                rounds,
            ),
            shuffled_pairs(self.edges(), seed).to_multiset() == self.edges().to_multiset(),
    {
        let mut shuffled: Vec<(usize, usize)> = copy_pairs(&self.all_edges);
        shuffle_seeded(&mut shuffled, seed);
        split_shuffled(&shuffled, self.node_count, initial_ratio, batch_size, rounds)
    }
}

} // verus!
