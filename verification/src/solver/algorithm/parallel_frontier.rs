use crate::solver::algorithm::dense::DenseBitset;
use crate::solver::algorithm::small::SmallList;
use crate::solver::algorithm::gain::{
    best_target, gain, gain_value, ints, is_best, is_candidate, label_at, lemma_best_unique,
    lemma_row_weight_to_bound, lemma_row_weight_to_untouched, row_touches, row_weight_to,
    scores_ok, touches, weight_to, Scores,
};
use crate::solver::graph::in_memory::{
    abs_weight_sum, lemma_abs_weight_sum_part, row_has, InMemoryGraph,
};
use crate::solver::weight::{abs, MAX_RESOLUTION, MAX_TOTAL_WEIGHT};
use vstd::prelude::*;
use vstd::std_specs::bits::axiom_u64_trailing_zeros;

verus! {

/// Whether bit `bit` of `word` is set.
pub open spec fn word_bit(word: u64, bit: int) -> bool {
    0 <= bit < 64 && (word >> (bit as u64)) & 1u64 == 1u64
}

proof fn lemma_set_bit(word: u64, b: u64, j: u64)
    by (bit_vector)
    requires
        b < 64,
        j < 64,
    ensures
        (((word | (1u64 << b)) >> j) & 1u64 == 1u64) == (j == b || (word >> j) & 1u64 == 1u64),
{
}

proof fn lemma_clear_bit(word: u64, b: u64, j: u64)
    by (bit_vector)
    requires
        b < 64,
        j < 64,
    ensures
        (((word & !(1u64 << b)) >> j) & 1u64 == 1u64) == (j != b && (word >> j) & 1u64 == 1u64),
{
}

proof fn lemma_zero_word(j: u64)
    by (bit_vector)
    requires
        j < 64,
    ensures
        (0u64 >> j) & 1u64 == 0u64,
{
}

/// A set of node ids below a fixed length, one bit per id, kept in 64-bit words.
///
/// Its view is the membership of each id.
pub struct SharedBitVec {
    words: Vec<u64>,
    len: usize,
}

impl View for SharedBitVec {
    type V = Seq<bool>;

    closed spec fn view(&self) -> Seq<bool> {
        Seq::new(self.len as nat, |i: int| word_bit(self.words@[i / 64], i % 64))
    }
}

/// Whether `bits` holds any id.
pub open spec fn has_true(bits: Seq<bool>) -> bool {
    exists|i: int| 0 <= i < bits.len() && bits[i]
}

/// Whether `v` stands in `list`.
pub open spec fn list_has(list: Seq<usize>, v: int) -> bool {
    exists|i: int| 0 <= i < list.len() && #[trigger] list[i] == v
}

/// The number of ids below `upto` that `bits` holds.
pub open spec fn count_true(bits: Seq<bool>, upto: int) -> int
    decreases upto,
{
    if upto <= 0 {
        0
    } else {
        count_true(bits, upto - 1) + if bits[upto - 1] {
            1int
        } else {
            0int
        }
    }
}

/// A count lies between zero and the number of ids counted.
pub proof fn lemma_count_true_bounds(bits: Seq<bool>, upto: int)
    requires
        0 <= upto,
    ensures
        0 <= count_true(bits, upto) <= upto,
    decreases upto,
{
    if upto > 0 {
        lemma_count_true_bounds(bits, upto - 1);
    }
}

/// Putting a new id into a set raises its count by one.
pub proof fn lemma_count_true_set(bits: Seq<bool>, i: int, upto: int)
    requires
        0 <= i < bits.len(),
        upto <= bits.len(),
        !bits[i],
    ensures
        count_true(bits.update(i, true), upto) == count_true(bits, upto) + if i < upto {
            1int
        } else {
            0int
        },
    decreases upto,
{
    if upto > 0 {
        lemma_count_true_set(bits, i, upto - 1);
    }
}

/// The count of a union of two disjoint sets is the sum of their counts.
pub proof fn lemma_count_true_disjoint(a: Seq<bool>, b: Seq<bool>, both: Seq<bool>, upto: int)
    requires
        0 <= upto <= a.len(),
        a.len() == b.len(),
        a.len() == both.len(),
        forall|i: int| 0 <= i < a.len() ==> both[i] == (a[i] || b[i]),
        forall|i: int| 0 <= i < a.len() ==> !(a[i] && b[i]),
    ensures
        count_true(both, upto) == count_true(a, upto) + count_true(b, upto),
    decreases upto,
{
    if upto > 0 {
        lemma_count_true_disjoint(a, b, both, upto - 1);
    }
}

/// Whether `indices` lists, in ascending order, exactly the ids below `bound` that `bits` holds.
pub open spec fn gathered_ones(indices: Seq<usize>, bits: Seq<bool>, bound: int) -> bool {
    &&& forall|a: int, b: int| 0 <= a < b < indices.len() ==> indices[a] < indices[b]
    &&& forall|a: int|
        0 <= a < indices.len() ==> (#[trigger] indices[a]) < bits.len() && indices[a] < bound
            && bits[indices[a] as int]
    &&& forall|i: int|
        0 <= i < bits.len() && i < bound && bits[i] ==> exists|a: int|
            0 <= a < indices.len() && #[trigger] indices[a] == i
}

/// The ids that `a` or `b` holds.
pub open spec fn or_bits(a: Seq<bool>, b: Seq<bool>) -> Seq<bool> {
    Seq::new(a.len(), |i: int| a[i] || b[i])
}

/// Whether `indices` lists, in ascending order, exactly the ids that `bits` holds.
pub open spec fn lists_ones(indices: Seq<usize>, bits: Seq<bool>) -> bool {
    &&& forall|a: int, b: int| 0 <= a < b < indices.len() ==> indices[a] < indices[b]
    &&& forall|a: int| 0 <= a < indices.len() ==> (#[trigger] indices[a]) < bits.len() && bits[indices[a] as int]
    &&& forall|i: int| 0 <= i < bits.len() && bits[i] ==> exists|a: int| 0 <= a < indices.len() && #[trigger] indices[a] == i
}

/// The ids below `upto` that `bits` holds, in ascending order.
pub open spec fn ones_upto(bits: Seq<bool>, upto: int) -> Seq<usize>
    decreases upto,
{
    if upto <= 0 {
        Seq::empty()
    } else if bits[upto - 1] {
        ones_upto(bits, upto - 1).push((upto - 1) as usize)
    } else {
        ones_upto(bits, upto - 1)
    }
}

/// The ids that `bits` holds, in ascending order.
pub open spec fn ones_of(bits: Seq<bool>) -> Seq<usize> {
    ones_upto(bits, bits.len() as int)
}

/// Whether `indices` lists, in ascending order, exactly the ids below `upto` that `bits` holds.
pub open spec fn lists_ones_upto(indices: Seq<usize>, bits: Seq<bool>, upto: int) -> bool {
    &&& forall|a: int, b: int| 0 <= a < b < indices.len() ==> indices[a] < indices[b]
    &&& forall|a: int| 0 <= a < indices.len() ==> (#[trigger] indices[a]) < upto && bits[indices[a] as int]
    &&& forall|i: int| 0 <= i < upto && bits[i] ==> exists|a: int| 0 <= a < indices.len() && #[trigger] indices[a] == i
}

/// There is one ascending list of the ids that a set holds.
pub proof fn lemma_lists_ones_upto(indices: Seq<usize>, bits: Seq<bool>, upto: int)
    requires
        0 <= upto <= bits.len(),
        upto <= usize::MAX,
        lists_ones_upto(indices, bits, upto),
    ensures
        indices == ones_upto(bits, upto),
    decreases upto,
{
    if upto == 0 {
        if indices.len() > 0 {
            assert(indices[0] < upto);
        }
        assert(indices =~= Seq::empty());
    } else if bits[upto - 1] {
        let a = choose|a: int| 0 <= a < indices.len() && #[trigger] indices[a] == upto - 1;
        if a < indices.len() - 1 {
            assert(indices[a] < indices[a + 1]);
            assert(indices[a + 1] < upto);
        }
        let rest = indices.drop_last();
        assert forall|b: int| 0 <= b < rest.len() implies (#[trigger] rest[b]) < upto - 1
            && bits[rest[b] as int] by {
            assert(indices[b] < indices[a]);
            assert(rest[b] == indices[b]);
        }
        assert forall|i: int| 0 <= i < upto - 1 && bits[i] implies exists|b: int|
            0 <= b < rest.len() && #[trigger] rest[b] == i by {
            let b = choose|b: int| 0 <= b < indices.len() && #[trigger] indices[b] == i;
            assert(rest[b] == i);
        }
        assert forall|x: int, y: int| 0 <= x < y < rest.len() implies rest[x] < rest[y] by {
            assert(indices[x] < indices[y]);
        }
        lemma_lists_ones_upto(rest, bits, upto - 1);
        assert(indices =~= rest.push((upto - 1) as usize));
    } else {
        assert forall|b: int| 0 <= b < indices.len() implies (#[trigger] indices[b]) < upto - 1
            && bits[indices[b] as int] by {
            assert(indices[b] < upto && bits[indices[b] as int]);
        }
        lemma_lists_ones_upto(indices, bits, upto - 1);
    }
}

/// There is one ascending list of the ids that a set holds.
pub proof fn lemma_lists_ones_unique(indices: Seq<usize>, bits: Seq<bool>)
    requires
        lists_ones(indices, bits),
        bits.len() <= usize::MAX,
    ensures
        indices == ones_of(bits),
{
    lemma_lists_ones_upto(indices, bits, bits.len() as int);
}

impl SharedBitVec {
    /// The words cover the length, and no bit at or beyond the length is set.
    pub closed spec fn wf(&self) -> bool {
        &&& self.words@.len() * 64 >= self.len
        &&& self.words@.len() * 64 < self.len + 64
        &&& forall|w: int, b: int|
            0 <= w < self.words@.len() && 0 <= b < 64 && w * 64 + b >= self.len ==> !#[trigger] word_bit(
                self.words@[w],
                b,
            )
    }

    /// An empty set over `len` ids.
    pub fn new(len: usize) -> (set: Self)
        ensures
            set.wf(),
            set@ == Seq::new(len as nat, |i: int| false),
    {
        let extra: usize = if len % 64 != 0 { 1 } else { 0 };
        let num_words: usize = len / 64 + extra;
        let words: Vec<u64> = vec![0u64; num_words];
        let set = SharedBitVec { words, len };
        proof {
            assert forall|w: int, b: int|
                0 <= w < set.words@.len() && 0 <= b < 64 implies !#[trigger] word_bit(
                set.words@[w],
                b,
            ) by {
                lemma_zero_word(b as u64);
            }
            assert forall|i: int| 0 <= i < len implies !set@[i] by {
                lemma_zero_word((i % 64) as u64);
            }
            assert(set@ =~= Seq::new(len as nat, |i: int| false));
        }
        set
    }

    /// The number of ids that the set ranges over.
    pub fn len(&self) -> (n: usize)
        ensures
            n == self@.len(),
    {
        self.len
    }

    /// Whether `index` is in the set.
    pub fn get(&self, index: usize) -> (bit: bool)
        requires
            self.wf(),
            index < self@.len(),
        ensures
            bit == self@[index as int],
    {
        let word_idx: usize = index / 64;
        let bit_idx: usize = index % 64;
        (self.words[word_idx] >> (bit_idx as u64)) & 1u64 == 1u64
    }

    /// Puts `index` into the set.
    pub fn set(&mut self, index: usize)
        requires
            old(self).wf(),
            index < old(self)@.len(),
        ensures
            final(self).wf(),
            final(self)@ == old(self)@.update(index as int, true),
    {
        let word_idx: usize = index / 64;
        let bit_idx: usize = index % 64;
        let word: u64 = self.words[word_idx];
        let updated: u64 = word | (1u64 << (bit_idx as u64));
        proof {
            assert forall|j: int| 0 <= j < 64 implies word_bit(updated, j) == (j == bit_idx
                || word_bit(word, j)) by {
                lemma_set_bit(word, bit_idx as u64, j as u64);
            }
        }
        self.words.set(word_idx, updated);
        proof {
            assert(final(self)@ =~= old(self)@.update(index as int, true)) by {
                assert forall|i: int| 0 <= i < self.len implies self@[i] == old(self)@.update(
                    index as int,
                    true,
                )[i] by {
                    if i / 64 == word_idx {
                    } else {
                    }
                }
            }
        }
    }

    /// Takes `index` out of the set.
    pub fn clear(&mut self, index: usize)
        requires
            old(self).wf(),
            index < old(self)@.len(),
        ensures
            final(self).wf(),
            final(self)@ == old(self)@.update(index as int, false),
    {
        let word_idx: usize = index / 64;
        let bit_idx: usize = index % 64;
        let word: u64 = self.words[word_idx];
        let updated: u64 = word & !(1u64 << (bit_idx as u64));
        proof {
            assert forall|j: int| 0 <= j < 64 implies word_bit(updated, j) == (j != bit_idx
                && word_bit(word, j)) by {
                lemma_clear_bit(word, bit_idx as u64, j as u64);
            }
        }
        self.words.set(word_idx, updated);
        proof {
            assert(final(self)@ =~= old(self)@.update(index as int, false)) by {
                assert forall|i: int| 0 <= i < self.len implies self@[i] == old(self)@.update(
                    index as int,
                    false,
                )[i] by {
                    if i / 64 == word_idx {
                    } else {
                    }
                }
            }
        }
    }

    /// Whether the set holds any id.
    pub fn any(&self) -> (found: bool)
        requires
            self.wf(),
        ensures
            found == has_true(self@),
    {
        let mut w: usize = 0;
        while w < self.words.len()
            invariant
                self.wf(),
                w <= self.words@.len(),
                forall|i: int| 0 <= i < self@.len() && i < w * 64 ==> !self@[i],
            decreases self.words@.len() - w,
        {
            let word: u64 = self.words[w];
            if word != 0 {
                proof {
                    axiom_u64_trailing_zeros(word);
                    let b = word.trailing_zeros() as int;
                    assert(word_bit(word, b));
                    let i = w * 64 + b;
                    assert(i < self.len);
                    assert(i / 64 == w && i % 64 == b);
                    assert(self@[i]);
                }
                return true;
            }
            proof {
                assert forall|i: int| 0 <= i < self@.len() && i < (w + 1) * 64 implies !self@[i] by {
                    if i >= w * 64 {
                        assert(i / 64 == w);
                        lemma_zero_word((i % 64) as u64);
                    }
                }
            }
            w += 1;
        }
        false
    }

    /// The ids of the set, in ascending order. The ids of each word are gathered in a short list.
    pub fn iter_ones(&self) -> (indices: Vec<usize>)
        requires
            self.wf(),
        ensures
            lists_ones(indices@, self@),
    {
        let mut out: Vec<usize> = Vec::new();
        let mut w: usize = 0;
        while w < self.words.len()
            invariant
                self.wf(),
                w <= self.words@.len(),
                gathered_ones(out@, self@, w * 64),
            decreases self.words@.len() - w,
        {
            let found = self.word_ones(w, Ghost(out@));
            let ghost before = out@;
            let mut list: Vec<usize> = found.into_vec();
            out.append(&mut list);
            w += 1;
        }
        proof {
            assert(lists_ones(out@, self@)) by {
                assert forall|i: int| 0 <= i < self@.len() && self@[i] implies exists|a: int|
                    0 <= a < out@.len() && #[trigger] out@[a] == i by {
                    assert(i < w * 64);
                }
            }
        }
        out
    }

    /// The ids of word `w` that the set holds, in ascending order.
    fn word_ones(&self, w: usize, Ghost(before): Ghost<Seq<usize>>) -> (found: SmallList)
        requires
            self.wf(),
            w < self.words@.len(),
            gathered_ones(before, self@, w * 64),
        ensures
            gathered_ones(before + found@, self@, (w + 1) * 64),
    {
        let orig: u64 = self.words[w];
        let mut word: u64 = orig;
        let mut found = SmallList::new();
        let ghost mut pos: int = 0;
        proof {
            assert(before + found@ =~= before);
        }
        while word != 0
            invariant
                self.wf(),
                w < self.words@.len(),
                orig == self.words@[w as int],
                0 <= pos <= 64,
                forall|j: int| 0 <= j < 64 ==> word_bit(word, j) == (j >= pos && word_bit(orig, j)),
                gathered_ones(before + found@, self@, w * 64 + pos),
            decreases 64 - pos,
        {
            proof {
                axiom_u64_trailing_zeros(word);
            }
            let bit: u32 = word.trailing_zeros();
            assert(word_bit(word, bit as int));
            assert(bit >= pos);
            assert(word_bit(orig, bit as int));
            assert(w * 64 + bit < self.len);
            let global_idx: usize = w * 64 + bit as usize;
            let ghost all = before + found@;
            proof {
                assert(global_idx as int / 64 == w && global_idx as int % 64 == bit);
                assert(self@[global_idx as int]);
                assert forall|j: int| pos <= j < bit implies !word_bit(orig, j) by {
                    assert((word >> (j as u64)) & 1u64 == 0u64);
                }
            }
            found.push(global_idx);
            let cleared: u64 = word & !(1u64 << (bit as u64));
            proof {
                let next = before + found@;
                assert(next =~= all.push(global_idx));
                assert forall|j: int| 0 <= j < 64 implies word_bit(cleared, j) == (j >= bit + 1
                    && word_bit(orig, j)) by {
                    lemma_clear_bit(word, bit as u64, j as u64);
                }
                assert(gathered_ones(next, self@, w * 64 + bit + 1)) by {
                    assert forall|a: int, b: int| 0 <= a < b < next.len() implies next[a]
                        < next[b] by {
                        if b == all.len() {
                            assert(all[a] < w * 64 + pos);
                        }
                    }
                    assert forall|a: int| 0 <= a < next.len() implies (#[trigger] next[a])
                        < self@.len() && next[a] < w * 64 + bit + 1 && self@[next[a] as int] by {
                        if a < all.len() {
                            assert(all[a] < w * 64 + pos);
                        }
                    }
                    assert forall|i: int|
                        0 <= i < self@.len() && i < w * 64 + bit + 1 && self@[i] implies exists|
                        a: int,
                    |
                        0 <= a < next.len() && #[trigger] next[a] == i by {
                        if i == global_idx {
                            assert(next[all.len() as int] == i);
                        } else if i < w * 64 + pos {
                            let a = choose|a: int| 0 <= a < all.len() && #[trigger] all[a] == i;
                            assert(next[a] == i);
                        } else {
                            assert(i / 64 == w);
                            assert(!word_bit(orig, i % 64));
                        }
                    }
                }
                pos = bit + 1;
            }
            word = cleared;
        }
        proof {
            let all = before + found@;
            assert forall|j: int| 0 <= j < 64 implies !word_bit(word, j) by {
                lemma_zero_word(j as u64);
            }
            assert(gathered_ones(all, self@, (w + 1) * 64)) by {
                assert forall|a: int| 0 <= a < all.len() implies (#[trigger] all[a]) < self@.len()
                    && all[a] < (w + 1) * 64 && self@[all[a] as int] by {
                    assert(all[a] < w * 64 + pos);
                }
                assert forall|i: int|
                    0 <= i < self@.len() && i < (w + 1) * 64 && self@[i] implies exists|a: int|
                    0 <= a < all.len() && #[trigger] all[a] == i by {
                    if i >= w * 64 + pos {
                        assert(i / 64 == w);
                        assert(!word_bit(orig, i % 64));
                    }
                }
            }
        }
        found
    }

    /// The smallest id of the set that is not below `start`, if there is one.
    pub fn first_one_from(&self, start: usize) -> (found: Option<usize>)
        requires
            self.wf(),
        ensures
            match found {
                Some(i) => start <= i < self@.len() && self@[i as int] && forall|j: int|
                    start <= j < i ==> !self@[j],
                None => forall|j: int| start <= j < self@.len() ==> !self@[j],
            },
    {
        let mut i: usize = start;
        while i < self.len
            invariant
                self.wf(),
                start <= i,
                forall|j: int| start <= j < i && j < self@.len() ==> !self@[j],
            decreases self.len - i,
        {
            let word_idx: usize = i / 64;
            if i % 64 == 0 && self.words[word_idx] == 0 {
                proof {
                    assert forall|j: int| i <= j < i + 64 && j < self@.len() implies !self@[j] by {
                        assert(j / 64 == word_idx);
                        lemma_zero_word((j % 64) as u64);
                    }
                }
                if self.len - i <= 64 {
                    return None;
                }
                i += 64;
            } else {
                if self.get(i) {
                    return Some(i);
                }
                i += 1;
            }
        }
        None
    }

    /// Puts every id of `other` into the set.
    pub fn union_dense(&mut self, other: &DenseBitset)
        requires
            old(self).wf(),
            other@.len() == old(self)@.len(),
        ensures
            final(self).wf(),
            final(self)@ == or_bits(old(self)@, other@),
    {
        let ones = other.iter_ones();
        let mut j: usize = 0;
        while j < ones.len()
            invariant
                self.wf(),
                lists_ones(ones@, other@),
                other@.len() == old(self)@.len(),
                self@.len() == old(self)@.len(),
                j <= ones@.len(),
                forall|i: int|
                    0 <= i < self@.len() ==> self@[i] == (old(self)@[i] || exists|a: int|
                        0 <= a < j && #[trigger] ones@[a] == i),
            decreases ones@.len() - j,
        {
            let ghost before = self@;
            self.set(ones[j]);
            proof {
                assert forall|i: int| 0 <= i < self@.len() implies self@[i] == (old(self)@[i]
                    || exists|a: int| 0 <= a < j + 1 && #[trigger] ones@[a] == i) by {
                    if i == ones@[j as int] {
                    } else if exists|a: int| 0 <= a < j + 1 && #[trigger] ones@[a] == i {
                        let a = choose|a: int| 0 <= a < j + 1 && #[trigger] ones@[a] == i;
                        assert(0 <= a < j);
                    } else {
                    }
                }
            }
            j += 1;
        }
        assert(self@ =~= or_bits(old(self)@, other@));
    }

    /// The set as a dense bitset.
    pub fn into_bitvec(self) -> (dense: DenseBitset)
        requires
            self.wf(),
            self@.len() <= usize::MAX / 8,
        ensures
            dense@ == self@,
    {
        let ones = self.iter_ones();
        let mut dense = DenseBitset::zeros(self.len);
        let mut j: usize = 0;
        while j < ones.len()
            invariant
                lists_ones(ones@, self@),
                j <= ones@.len(),
                dense@.len() == self@.len(),
                forall|i: int|
                    0 <= i < dense@.len() ==> dense@[i] == exists|a: int|
                        0 <= a < j && #[trigger] ones@[a] == i,
            decreases ones@.len() - j,
        {
            let ghost before = dense@;
            dense.insert(ones[j]);
            proof {
                assert forall|i: int| 0 <= i < dense@.len() implies dense@[i] == exists|a: int|
                    0 <= a < j + 1 && #[trigger] ones@[a] == i by {
                    if i == ones@[j as int] {
                    } else if before[i] {
                        let a = choose|a: int| 0 <= a < j && #[trigger] ones@[a] == i;
                        assert(0 <= a < j + 1 && ones@[a] == i);
                    } else {
                    }
                }
            }
            j += 1;
        }
        assert(dense@ =~= self@);
        dense
    }
}

/// The moves that one shard found, for the caller to apply in order once all shards are done.
pub struct ShardResult {
    /// Each node that moves, with the community it moves to.
    pub node_to_community_updates: Vec<(usize, usize)>,
    /// For each move, what the community left loses and what the community joined gains.
    pub community_degree_updates: Vec<(usize, i64)>,
}

/// The scores that the kernel reads from its arguments.
pub open spec fn scores(
    labels: Seq<usize>,
    label_degrees: Seq<i64>,
    node_degrees: Seq<i64>,
    twice_total: i64,
    gamma: i64,
) -> Scores {
    Scores {
        labels,
        label_degrees: ints(label_degrees),
        node_degrees: ints(node_degrees),
        twice_total: twice_total as int,
        gamma: gamma as int,
    }
}

/// Finds the community that `node` moves to, if any: the neighbouring community
/// of the greatest positive gain, and among equals the one of the smallest id.
///
/// The scratch buffer holds zeros on entry and on return; the dirty list is empty on both.
pub fn evaluate_node(
    graph: &InMemoryGraph,
    node: usize,
    node_to_community: &Vec<usize>,
    community_degrees: &Vec<i64>,
    node_degrees: &Vec<i64>,
    twice_total_weight: i64,
    resolution_parameter: i64,
    neighbor_weight_buf: &mut Vec<i64>,
    dirty_communities: &mut Vec<usize>,
) -> (target: Option<usize>)
    requires
        scores_ok(
            graph,
            scores(
                node_to_community@,
                community_degrees@,
                node_degrees@,
                twice_total_weight,
                resolution_parameter,
            ),
        ),
        node < graph.node_count,
        old(neighbor_weight_buf)@.len() == graph.node_count,
        forall|c: int| 0 <= c < graph.node_count ==> old(neighbor_weight_buf)@[c] == 0,
        old(dirty_communities)@.len() == 0,
    ensures
        final(neighbor_weight_buf)@ == old(neighbor_weight_buf)@,
        final(dirty_communities)@.len() == 0,
        target == best_target(
            graph,
            scores(
                node_to_community@,
                community_degrees@,
                node_degrees@,
                twice_total_weight,
                resolution_parameter,
            ),
            node as int,
        ),
        match target {
            Some(c) => c < graph.node_count && c != node_to_community@[node as int],
            None => true,
        },
{
    let ghost s = scores(
        node_to_community@,
        community_degrees@,
        node_degrees@,
        twice_total_weight,
        resolution_parameter,
    );
    if twice_total_weight == 0 {
        return None;
    }
    proof {
        graph.lemma_row_bounds(node as int);
    }
    let n: usize = graph.node_count;
    let lo: usize = graph.offsets[node];
    let hi: usize = lo + graph.degrees[node];
    let current: usize = node_to_community[node];
    let ghost nbr = graph.neighbors@;
    let ghost wts = graph.weights@;
    let ghost labels = node_to_community@;

    let mut k: usize = lo;
    while k < hi
        invariant
            scores_ok(graph, s),
            s.labels == labels,
            labels == node_to_community@,
            nbr == graph.neighbors@,
            wts == graph.weights@,
            n == graph.node_count,
            lo <= k <= hi <= graph.entries(),
            lo == graph.row_lo(node as int),
            neighbor_weight_buf@.len() == n,
            forall|c: int|
                0 <= c < n ==> #[trigger] neighbor_weight_buf@[c] == row_weight_to(
                    nbr,
                    wts,
                    labels,
                    c,
                    lo as int,
                    k as int,
                ),
            forall|c: int| #[trigger]
                row_touches(nbr, labels, c, lo as int, k as int) ==> dirty_communities@.contains(
                    c as usize,
                ) && 0 <= c < n,
            forall|i: int|
                0 <= i < dirty_communities@.len() ==> (#[trigger] dirty_communities@[i]) < n
                    && row_touches(nbr, labels, dirty_communities@[i] as int, lo as int, k as int),
            dirty_communities@.len() <= k - lo,
        decreases hi - k,
    {
        let u: usize = graph.neighbors[k];
        let c: usize = node_to_community[u];
        let w: i64 = graph.weights[k];
        let ghost dirty_before = dirty_communities@;
        let ghost buf_before = neighbor_weight_buf@;
        proof {
            assert(label_at(nbr, labels, k as int) == c);
            lemma_row_weight_to_bound(nbr, wts, labels, c as int, lo as int, k + 1);
            lemma_abs_weight_sum_part(wts, 0, lo as int, k + 1, graph.entries());
        }
        if neighbor_weight_buf[c] == 0 {
            dirty_communities.push(c);
            assert(dirty_communities@[dirty_before.len() as int] == c);
        } else {
            proof {
                if !row_touches(nbr, labels, c as int, lo as int, k as int) {
                    lemma_row_weight_to_untouched(nbr, wts, labels, c as int, lo as int, k as int);
                }
            }
        }
        assert(dirty_communities@.contains(c));
        let sum: i64 = neighbor_weight_buf[c] + w;
        neighbor_weight_buf.set(c, sum);
        proof {
            let k1: int = k + 1;
            assert forall|x: int| #[trigger]
                row_touches(nbr, labels, x, lo as int, k1) implies dirty_communities@.contains(
                x as usize,
            ) && 0 <= x < n by {
                let kk = choose|kk: int| lo <= kk < k + 1 && #[trigger] label_at(nbr, labels, kk) == x;
                if kk < k {
                    assert(row_touches(nbr, labels, x, lo as int, k as int));
                    let i = choose|i: int|
                        0 <= i < dirty_before.len() && dirty_before[i] == x as usize;
                    assert(dirty_communities@[i] == x as usize);
                } else {
                    assert(x == c);
                }
            }
            assert forall|i: int| 0 <= i < dirty_communities@.len() implies (
            #[trigger] dirty_communities@[i]) < n && row_touches(
                nbr,
                labels,
                dirty_communities@[i] as int,
                lo as int,
                k1,
            ) by {
                if i < dirty_before.len() {
                    let kk = choose|kk: int|
                        lo <= kk < k && #[trigger] label_at(nbr, labels, kk)
                            == dirty_before[i] as int;
                    assert(lo <= kk < k + 1 && label_at(nbr, labels, kk) == dirty_before[i] as int);
                } else {
                    assert(label_at(nbr, labels, k as int) == c);
                }
            }
        }
        k += 1;
    }

    let weight_to_current: i64 = neighbor_weight_buf[current];
    let node_degree: i64 = node_degrees[node];
    let current_degree: i64 = community_degrees[current];
    let mut found: bool = false;
    let mut best_gain: i128 = 0;
    let mut best: usize = current;
    let mut i: usize = 0;
    proof {
        assert forall|c: int| 0 <= c < n implies abs(
            #[trigger] neighbor_weight_buf@[c] as int,
        ) <= MAX_TOTAL_WEIGHT by {
            lemma_row_weight_to_bound(nbr, wts, labels, c, lo as int, hi as int);
            lemma_abs_weight_sum_part(wts, 0, lo as int, hi as int, graph.entries());
        }
        assert(s.node_degrees[node as int] == node_degree);
        assert(s.label_degrees[current as int] == current_degree);
    }
    while i < dirty_communities.len()
        invariant
            scores_ok(graph, s),
            s == scores(
                node_to_community@,
                community_degrees@,
                node_degrees@,
                twice_total_weight,
                resolution_parameter,
            ),
            node < graph.node_count,
            current == node_to_community@[node as int],
            n == graph.node_count,
            neighbor_weight_buf@.len() == n,
            forall|c: int|
                0 <= c < n ==> #[trigger] neighbor_weight_buf@[c] == weight_to(
                    graph,
                    s.labels,
                    node as int,
                    c,
                ),
            forall|c: int|
                0 <= c < n ==> abs(#[trigger] neighbor_weight_buf@[c] as int) <= MAX_TOTAL_WEIGHT,
            forall|j: int|
                0 <= j < dirty_communities@.len() ==> (#[trigger] dirty_communities@[j]) < n
                    && touches(graph, s.labels, node as int, dirty_communities@[j] as int),
            forall|c: int| #[trigger]
                touches(graph, s.labels, node as int, c) ==> dirty_communities@.contains(c as usize),
            weight_to_current == neighbor_weight_buf@[current as int],
            node_degree == node_degrees@[node as int],
            current_degree == community_degrees@[current as int],
            i <= dirty_communities@.len(),
            !found ==> forall|j: int|
                0 <= j < i && dirty_communities@[j] != current ==> gain(
                    graph,
                    s,
                    node as int,
                    #[trigger] dirty_communities@[j] as int,
                ) <= 0,
            found ==> best != current && best < n && touches(
                graph,
                s.labels,
                node as int,
                best as int,
            ) && best_gain == gain(graph, s, node as int, best as int) && best_gain > 0,
            found ==> forall|j: int|
                0 <= j < i && dirty_communities@[j] != current ==> gain(
                    graph,
                    s,
                    node as int,
                    #[trigger] dirty_communities@[j] as int,
                ) < best_gain || (gain(graph, s, node as int, dirty_communities@[j] as int)
                    == best_gain && best <= dirty_communities@[j]),
        decreases dirty_communities@.len() - i,
    {
        let candidate: usize = dirty_communities[i];
        if candidate != current {
            proof {
                assert(s.label_degrees[candidate as int] == community_degrees@[candidate as int]);
                assert(abs(s.label_degrees[candidate as int]) <= MAX_TOTAL_WEIGHT);
                assert(abs(s.label_degrees[current as int]) <= MAX_TOTAL_WEIGHT);
                assert(abs(s.node_degrees[node as int]) <= MAX_TOTAL_WEIGHT);
            }
            let candidate_gain: i128 = gain_value(
                twice_total_weight,
                resolution_parameter,
                neighbor_weight_buf[candidate],
                weight_to_current,
                node_degree,
                current_degree,
                community_degrees[candidate],
            );
            assert(candidate_gain == gain(graph, s, node as int, candidate as int));
            if candidate_gain > 0 && (!found || candidate_gain > best_gain || (candidate_gain
                == best_gain && candidate < best)) {
                found = true;
                best_gain = candidate_gain;
                best = candidate;
            }
        }
        i += 1;
    }

    let ghost dirty_all = dirty_communities@;
    proof {
        assert forall|c: int|
            0 <= c < n && #[trigger] neighbor_weight_buf@[c] != 0 implies exists|j: int|
            0 <= j < dirty_communities@.len() && #[trigger] dirty_communities@[j] == c by {
            if !touches(graph, s.labels, node as int, c) {
                lemma_row_weight_to_untouched(nbr, wts, labels, c, lo as int, hi as int);
            }
            let j = choose|j: int|
                0 <= j < dirty_communities@.len() && dirty_communities@[j] == c as usize;
            assert(dirty_communities@[j] == c);
        }
    }
    let mut r: usize = 0;
    while r < dirty_communities.len()
        invariant
            n == graph.node_count,
            neighbor_weight_buf@.len() == n,
            dirty_communities@ == dirty_all,
            r <= dirty_communities@.len(),
            forall|j: int| 0 <= j < dirty_communities@.len() ==> (#[trigger] dirty_communities@[j]) < n,
            forall|c: int|
                0 <= c < n && #[trigger] neighbor_weight_buf@[c] != 0 ==> exists|j: int|
                    r <= j < dirty_communities@.len() && #[trigger] dirty_communities@[j] == c,
        decreases dirty_communities@.len() - r,
    {
        let c: usize = dirty_communities[r];
        let ghost before = neighbor_weight_buf@;
        neighbor_weight_buf.set(c, 0);
        proof {
            assert forall|x: int|
                0 <= x < n && #[trigger] neighbor_weight_buf@[x] != 0 implies exists|j: int|
                r + 1 <= j < dirty_communities@.len() && #[trigger] dirty_communities@[j] == x by {
                assert(before[x] != 0);
                let j = choose|j: int|
                    r <= j < dirty_communities@.len() && #[trigger] dirty_communities@[j] == x;
                assert(j != r);
            }
        }
        r += 1;
    }
    proof {
        assert(neighbor_weight_buf@ =~= old(neighbor_weight_buf)@);
        if found {
            assert(is_best(graph, s, node as int, best as int)) by {
                assert forall|other: int| #[trigger]
                    is_candidate(graph, s.labels, node as int, other) implies gain(
                    graph,
                    s,
                    node as int,
                    other,
                ) < gain(graph, s, node as int, best as int) || (gain(graph, s, node as int, other)
                    == gain(graph, s, node as int, best as int) && best <= other) by {
                    let j = choose|j: int|
                        0 <= j < dirty_communities@.len() && dirty_communities@[j]
                            == other as usize;
                    assert(dirty_communities@[j] as int == other);
                }
            }
            let chosen = choose|c: usize| is_best(graph, s, node as int, c as int);
            lemma_best_unique(graph, s, node as int, chosen as int, best as int);
        } else {
            assert forall|c: usize| !is_best(graph, s, node as int, c as int) by {
                if is_best(graph, s, node as int, c as int) {
                    let j = choose|j: int|
                        0 <= j < dirty_communities@.len() && dirty_communities@[j] == c;
                    assert(gain(graph, s, node as int, dirty_communities@[j] as int) <= 0);
                }
            }
        }
    }
    dirty_communities.clear();
    if found {
        Some(best)
    } else {
        None
    }
}

/// Whether a move to `target` from a node with the row `lo..hi` wakes `u`:
/// `u` stands in the row and does not carry `target`.
pub open spec fn row_activates(
    neighbors: Seq<usize>,
    labels: Seq<usize>,
    lo: int,
    hi: int,
    target: int,
    u: int,
) -> bool {
    row_has(neighbors, lo, hi, u) && labels[u] != target
}

/// Whether a move of `v`, whose row is `lo..hi`, marks `u` for refinement:
/// `u` is a neighbour in the sub-community of `v`, or `v` itself where it has such a neighbour.
pub open spec fn row_affects(
    neighbors: Seq<usize>,
    sub: Seq<usize>,
    lo: int,
    hi: int,
    v: int,
    u: int,
) -> bool {
    (row_has(neighbors, lo, hi, u) && sub[u] == sub[v]) || (u == v && row_touches(
        neighbors,
        sub,
        sub[v] as int,
        lo,
        hi,
    ))
}

/// Whether the move of `v` to `target` wakes `u`, judged by `labels`.
pub open spec fn activates(
    graph: &InMemoryGraph,
    labels: Seq<usize>,
    v: int,
    target: int,
    u: int,
) -> bool {
    row_activates(graph.neighbors@, labels, graph.row_lo(v), graph.row_hi(v), target, u)
}

/// Whether a move of `v` marks `u` for refinement.
pub open spec fn affects(graph: &InMemoryGraph, sub: Seq<usize>, v: int, u: int) -> bool {
    row_affects(graph.neighbors@, sub, graph.row_lo(v), graph.row_hi(v), v, u)
}

/// After a move of `node` to `target`: wakes each neighbour that does not carry
/// `target`, and marks `node` and each neighbour in its sub-community for refinement.
///
/// Returns a bound below which no node was woken.
pub fn mark_neighbors(
    graph: &InMemoryGraph,
    node: usize,
    target: usize,
    node_to_community: &Vec<usize>,
    node_to_subcommunity: &Vec<usize>,
    next_active_nodes: &mut SharedBitVec,
    affected_nodes: &mut SharedBitVec,
) -> (lowest: usize)
    requires
        graph.wf(),
        node < graph.node_count,
        node_to_community@.len() == graph.node_count,
        node_to_subcommunity@.len() == graph.node_count,
        old(next_active_nodes).wf(),
        old(next_active_nodes)@.len() == graph.node_count,
        old(affected_nodes).wf(),
        old(affected_nodes)@.len() == graph.node_count,
    ensures
        final(next_active_nodes).wf(),
        final(next_active_nodes)@.len() == graph.node_count,
        final(affected_nodes).wf(),
        final(affected_nodes)@.len() == graph.node_count,
        forall|u: int|
            0 <= u < graph.node_count ==> #[trigger] final(next_active_nodes)@[u] == (old(
                next_active_nodes,
            )@[u] || activates(graph, node_to_community@, node as int, target as int, u)),
        forall|u: int|
            0 <= u < graph.node_count ==> #[trigger] final(affected_nodes)@[u] == (old(
                affected_nodes,
            )@[u] || affects(graph, node_to_subcommunity@, node as int, u)),
        lowest <= graph.node_count,
        forall|u: int|
            0 <= u < lowest ==> !activates(graph, node_to_community@, node as int, target as int, u),
{
    proof {
        graph.lemma_row_bounds(node as int);
    }
    let n: usize = graph.node_count;
    let lo: usize = graph.offsets[node];
    let hi: usize = lo + graph.degrees[node];
    let ghost nbr = graph.neighbors@;
    let ghost labels = node_to_community@;
    let ghost sub = node_to_subcommunity@;
    let mut lowest: usize = n;
    let mut k: usize = lo;
    while k < hi
        invariant
            graph.wf(),
            node < n,
            n == graph.node_count,
            nbr == graph.neighbors@,
            labels == node_to_community@,
            sub == node_to_subcommunity@,
            labels.len() == n,
            sub.len() == n,
            lo <= k <= hi <= graph.entries(),
            next_active_nodes.wf(),
            next_active_nodes@.len() == n,
            affected_nodes.wf(),
            affected_nodes@.len() == n,
            lowest <= n,
            forall|u: int|
                0 <= u < n ==> #[trigger] next_active_nodes@[u] == (old(next_active_nodes)@[u]
                    || row_activates(nbr, labels, lo as int, k as int, target as int, u)),
            forall|u: int|
                0 <= u < n ==> #[trigger] affected_nodes@[u] == (old(affected_nodes)@[u]
                    || row_affects(nbr, sub, lo as int, k as int, node as int, u)),
            forall|u: int|
                0 <= u < lowest ==> !row_activates(
                    nbr,
                    labels,
                    lo as int,
                    k as int,
                    target as int,
                    u,
                ),
        decreases hi - k,
    {
        let u: usize = graph.neighbors[k];
        let ghost active_before = next_active_nodes@;
        let ghost affected_before = affected_nodes@;
        let ghost k1: int = k + 1;
        if node_to_community[u] != target {
            next_active_nodes.set(u);
            if u < lowest {
                lowest = u;
            }
        }
        if node_to_subcommunity[node] == node_to_subcommunity[u] {
            affected_nodes.set(node);
            affected_nodes.set(u);
        }
        proof {
            assert(nbr[k as int] == u);
            assert forall|x: int| row_has(nbr, lo as int, k1, x) == (row_has(
                nbr,
                lo as int,
                k as int,
                x,
            ) || x == u) by {
                if row_has(nbr, lo as int, k1, x) {
                    let kk = choose|kk: int| lo <= kk < k1 && #[trigger] nbr[kk] == x;
                    if kk < k {
                        assert(row_has(nbr, lo as int, k as int, x));
                    }
                }
                if row_has(nbr, lo as int, k as int, x) {
                    let kk = choose|kk: int| lo <= kk < k && #[trigger] nbr[kk] == x;
                    assert(lo <= kk < k1 && nbr[kk] == x);
                }
            }
            assert(row_touches(nbr, sub, sub[node as int] as int, lo as int, k1) == (row_touches(
                nbr,
                sub,
                sub[node as int] as int,
                lo as int,
                k as int,
            ) || sub[u as int] == sub[node as int])) by {
                let t = sub[node as int] as int;
                if row_touches(nbr, sub, t, lo as int, k1) {
                    let kk = choose|kk: int| lo <= kk < k1 && #[trigger] label_at(nbr, sub, kk) == t;
                    if kk < k {
                        assert(row_touches(nbr, sub, t, lo as int, k as int));
                    }
                }
                if row_touches(nbr, sub, t, lo as int, k as int) {
                    let kk = choose|kk: int| lo <= kk < k && #[trigger] label_at(nbr, sub, kk) == t;
                    assert(lo <= kk < k1 && label_at(nbr, sub, kk) == t);
                }
                if sub[u as int] == sub[node as int] {
                    assert(label_at(nbr, sub, k as int) == t);
                }
            }
            assert forall|x: int| 0 <= x < lowest implies !row_activates(
                nbr,
                labels,
                lo as int,
                k1,
                target as int,
                x,
            ) by {
                assert(!row_activates(nbr, labels, lo as int, k as int, target as int, x));
            }
            assert forall|x: int| 0 <= x < n implies #[trigger] next_active_nodes@[x] == (old(
                next_active_nodes,
            )@[x] || row_activates(nbr, labels, lo as int, k1, target as int, x)) by {
                assert(active_before[x] == (old(next_active_nodes)@[x] || row_activates(
                    nbr,
                    labels,
                    lo as int,
                    k as int,
                    target as int,
                    x,
                )));
            }
            assert forall|x: int| 0 <= x < n implies #[trigger] affected_nodes@[x] == (old(
                affected_nodes,
            )@[x] || row_affects(nbr, sub, lo as int, k1, node as int, x)) by {
                assert(affected_before[x] == (old(affected_nodes)@[x] || row_affects(
                    nbr,
                    sub,
                    lo as int,
                    k as int,
                    node as int,
                    x,
                )));
            }
        }
        k += 1;
    }
    lowest
}

/// The moves of a shard: each node that has a best target, with that target, in the order of the shard.
pub open spec fn shard_moves(graph: &InMemoryGraph, s: Scores, shard: Seq<usize>) -> Seq<
    (usize, usize),
>
    decreases shard.len(),
{
    if shard.len() == 0 {
        Seq::empty()
    } else {
        let rest = shard_moves(graph, s, shard.drop_last());
        match best_target(graph, s, shard.last() as int) {
            Some(c) => rest.push((shard.last(), c)),
            None => rest,
        }
    }
}

/// What the moves do to the summed degrees: each takes the weighted degree of
/// its node from the community left and gives it to the community joined.
pub open spec fn degree_updates(
    labels: Seq<usize>,
    node_degrees: Seq<i64>,
    moves: Seq<(usize, usize)>,
) -> Seq<(usize, i64)>
    decreases moves.len(),
{
    if moves.len() == 0 {
        Seq::empty()
    } else {
        let m = moves.last();
        degree_updates(labels, node_degrees, moves.drop_last()).push(
            (labels[m.0 as int], (-node_degrees[m.0 as int]) as i64),
        ).push((m.1, node_degrees[m.0 as int]))
    }
}

/// Whether `v` has a best target.
pub open spec fn moves(graph: &InMemoryGraph, s: Scores, v: int) -> bool {
    best_target(graph, s, v) is Some
}

/// Whether the move of `v`, if it makes one, wakes `u`.
pub open spec fn node_activates(graph: &InMemoryGraph, s: Scores, v: int, u: int) -> bool {
    match best_target(graph, s, v) {
        Some(c) => activates(graph, s.labels, v, c as int, u),
        None => false,
    }
}

/// Whether the move of `v`, if it makes one, marks `u` for refinement.
pub open spec fn node_affects(
    graph: &InMemoryGraph,
    s: Scores,
    sub: Seq<usize>,
    v: int,
    u: int,
) -> bool {
    moves(graph, s, v) && affects(graph, sub, v, u)
}

/// Whether `u` is a node of the shard that moves.
pub open spec fn shard_moved(graph: &InMemoryGraph, s: Scores, shard: Seq<usize>, u: int) -> bool {
    exists|i: int| 0 <= i < shard.len() && #[trigger] shard[i] == u && moves(graph, s, u)
}

/// Whether a move of the shard wakes `u`.
pub open spec fn shard_activates(
    graph: &InMemoryGraph,
    s: Scores,
    shard: Seq<usize>,
    u: int,
) -> bool {
    exists|i: int| 0 <= i < shard.len() && node_activates(graph, s, #[trigger] shard[i] as int, u)
}

/// Whether a move of the shard marks `u` for refinement.
pub open spec fn shard_affects(
    graph: &InMemoryGraph,
    s: Scores,
    sub: Seq<usize>,
    shard: Seq<usize>,
    u: int,
) -> bool {
    exists|i: int| 0 <= i < shard.len() && node_affects(graph, s, sub, #[trigger] shard[i] as int, u)
}

/// Evaluates the nodes of one shard against read-only views of the partition.
///
/// Each node that has a best target is recorded as a move, with the two degree
/// deltas of the move; it is put into `changed_nodes`, its neighbours outside
/// the target into `next_active_nodes`, and it and its neighbours of the same
/// sub-community into `affected_nodes`. The partition itself is not touched:
/// the caller applies the moves.
pub fn execute_shard(
    graph: &InMemoryGraph,
    shard: &[usize],
    node_to_community: &Vec<usize>,
    node_to_subcommunity: &Vec<usize>,
    community_degrees: &Vec<i64>,
    node_degrees: &Vec<i64>,
    twice_total_weight: i64,
    resolution_parameter: i64,
    changed_nodes: &mut SharedBitVec,
    affected_nodes: &mut SharedBitVec,
    next_active_nodes: &mut SharedBitVec,
    neighbor_weight_buf: &mut Vec<i64>,
    dirty_communities: &mut Vec<usize>,
) -> (result: ShardResult)
    requires
        scores_ok(
            graph,
            scores(
                node_to_community@,
                community_degrees@,
                node_degrees@,
                twice_total_weight,
                resolution_parameter,
            ),
        ),
        node_to_subcommunity@.len() == graph.node_count,
        forall|i: int| 0 <= i < shard@.len() ==> (#[trigger] shard@[i]) < graph.node_count,
        old(changed_nodes).wf(),
        old(changed_nodes)@.len() == graph.node_count,
        old(affected_nodes).wf(),
        old(affected_nodes)@.len() == graph.node_count,
        old(next_active_nodes).wf(),
        old(next_active_nodes)@.len() == graph.node_count,
        old(neighbor_weight_buf)@.len() == graph.node_count,
        forall|c: int| 0 <= c < graph.node_count ==> old(neighbor_weight_buf)@[c] == 0,
        old(dirty_communities)@.len() == 0,
    ensures
        result.node_to_community_updates@ == shard_moves(
            graph,
            scores(
                node_to_community@,
                community_degrees@,
                node_degrees@,
                twice_total_weight,
                resolution_parameter,
            ),
            shard@,
        ),
        result.community_degree_updates@ == degree_updates(
            node_to_community@,
            node_degrees@,
            result.node_to_community_updates@,
        ),
        final(changed_nodes).wf(),
        final(changed_nodes)@.len() == graph.node_count,
        final(affected_nodes).wf(),
        final(affected_nodes)@.len() == graph.node_count,
        final(next_active_nodes).wf(),
        final(next_active_nodes)@.len() == graph.node_count,
        forall|u: int|
            0 <= u < graph.node_count ==> #[trigger] final(changed_nodes)@[u] == (old(
                changed_nodes,
            )@[u] || shard_moved(
                graph,
                scores(
                    node_to_community@,
                    community_degrees@,
                    node_degrees@,
                    twice_total_weight,
                    resolution_parameter,
                ),
                shard@,
                u,
            )),
        forall|u: int|
            0 <= u < graph.node_count ==> #[trigger] final(next_active_nodes)@[u] == (old(
                next_active_nodes,
            )@[u] || shard_activates(
                graph,
                scores(
                    node_to_community@,
                    community_degrees@,
                    node_degrees@,
                    twice_total_weight,
                    resolution_parameter,
                ),
                shard@,
                u,
            )),
        forall|u: int|
            0 <= u < graph.node_count ==> #[trigger] final(affected_nodes)@[u] == (old(
                affected_nodes,
            )@[u] || shard_affects(
                graph,
                scores(
                    node_to_community@,
                    community_degrees@,
                    node_degrees@,
                    twice_total_weight,
                    resolution_parameter,
                ),
                node_to_subcommunity@,
                shard@,
                u,
            )),
        final(neighbor_weight_buf)@ == old(neighbor_weight_buf)@,
        final(dirty_communities)@.len() == 0,
{
    let ghost s = scores(
        node_to_community@,
        community_degrees@,
        node_degrees@,
        twice_total_weight,
        resolution_parameter,
    );
    let ghost sub = node_to_subcommunity@;
    let n: usize = graph.node_count;
    let mut result = ShardResult {
        node_to_community_updates: Vec::new(),
        community_degree_updates: Vec::new(),
    };
    let mut i: usize = 0;
    while i < shard.len()
        invariant
            scores_ok(graph, s),
            s == scores(
                node_to_community@,
                community_degrees@,
                node_degrees@,
                twice_total_weight,
                resolution_parameter,
            ),
            sub == node_to_subcommunity@,
            sub.len() == n,
            n == graph.node_count,
            forall|j: int| 0 <= j < shard@.len() ==> (#[trigger] shard@[j]) < n,
            i <= shard@.len(),
            changed_nodes.wf(),
            changed_nodes@.len() == n,
            affected_nodes.wf(),
            affected_nodes@.len() == n,
            next_active_nodes.wf(),
            next_active_nodes@.len() == n,
            neighbor_weight_buf@ == old(neighbor_weight_buf)@,
            neighbor_weight_buf@.len() == n,
            forall|c: int| 0 <= c < n ==> neighbor_weight_buf@[c] == 0,
            dirty_communities@.len() == 0,
            result.node_to_community_updates@ == shard_moves(graph, s, shard@.take(i as int)),
            result.community_degree_updates@ == degree_updates(
                node_to_community@,
                node_degrees@,
                result.node_to_community_updates@,
            ),
            forall|u: int|
                0 <= u < n ==> #[trigger] changed_nodes@[u] == (old(changed_nodes)@[u]
                    || shard_moved(graph, s, shard@.take(i as int), u)),
            forall|u: int|
                0 <= u < n ==> #[trigger] next_active_nodes@[u] == (old(next_active_nodes)@[u]
                    || shard_activates(graph, s, shard@.take(i as int), u)),
            forall|u: int|
                0 <= u < n ==> #[trigger] affected_nodes@[u] == (old(affected_nodes)@[u]
                    || shard_affects(graph, s, sub, shard@.take(i as int), u)),
        decreases shard@.len() - i,
    {
        let node: usize = shard[i];
        let ghost done = shard@.take(i as int);
        let ghost next = shard@.take(i + 1);
        let ghost changed_before = changed_nodes@;
        let ghost active_before = next_active_nodes@;
        let ghost affected_before = affected_nodes@;
        proof {
            assert(next.drop_last() =~= done);
            assert(next.last() == node);
        }
        let target = evaluate_node(
            graph,
            node,
            node_to_community,
            community_degrees,
            node_degrees,
            twice_total_weight,
            resolution_parameter,
            neighbor_weight_buf,
            dirty_communities,
        );
        match target {
            Some(best) => {
                let current: usize = node_to_community[node];
                let node_degree: i64 = node_degrees[node];
                assert(abs(s.node_degrees[node as int]) <= MAX_TOTAL_WEIGHT);
                let ghost moves_before = result.node_to_community_updates@;
                result.node_to_community_updates.push((node, best));
                result.community_degree_updates.push((current, -node_degree));
                result.community_degree_updates.push((best, node_degree));
                proof {
                    assert(result.node_to_community_updates@.drop_last() =~= moves_before);
                }
                changed_nodes.set(node);
                let _ = mark_neighbors(
                    graph,
                    node,
                    best,
                    node_to_community,
                    node_to_subcommunity,
                    next_active_nodes,
                    affected_nodes,
                );
            },
            None => {},
        }
        proof {
            assert forall|u: int| shard_moved(graph, s, next, u) == (shard_moved(graph, s, done, u)
                || (u == node && moves(graph, s, u))) by {
                if shard_moved(graph, s, next, u) {
                    let j = choose|j: int|
                        0 <= j < next.len() && #[trigger] next[j] == u && moves(graph, s, u);
                    if j < i {
                        assert(done[j] == u);
                    }
                }
                if shard_moved(graph, s, done, u) {
                    let j = choose|j: int|
                        0 <= j < done.len() && #[trigger] done[j] == u && moves(graph, s, u);
                    assert(next[j] == u);
                }
                if u == node && moves(graph, s, u) {
                    assert(next[i as int] == u);
                }
            }
            assert forall|u: int| shard_activates(graph, s, next, u) == (shard_activates(
                graph,
                s,
                done,
                u,
            ) || node_activates(graph, s, node as int, u)) by {
                if shard_activates(graph, s, next, u) {
                    let j = choose|j: int|
                        0 <= j < next.len() && node_activates(
                            graph,
                            s,
                            #[trigger] next[j] as int,
                            u,
                        );
                    if j < i {
                        assert(node_activates(graph, s, done[j] as int, u));
                    }
                }
                if shard_activates(graph, s, done, u) {
                    let j = choose|j: int|
                        0 <= j < done.len() && node_activates(
                            graph,
                            s,
                            #[trigger] done[j] as int,
                            u,
                        );
                    assert(node_activates(graph, s, next[j] as int, u));
                }
                if node_activates(graph, s, node as int, u) {
                    assert(node_activates(graph, s, next[i as int] as int, u));
                }
            }
            assert forall|u: int| shard_affects(graph, s, sub, next, u) == (shard_affects(
                graph,
                s,
                sub,
                done,
                u,
            ) || node_affects(graph, s, sub, node as int, u)) by {
                if shard_affects(graph, s, sub, next, u) {
                    let j = choose|j: int|
                        0 <= j < next.len() && node_affects(
                            graph,
                            s,
                            sub,
                            #[trigger] next[j] as int,
                            u,
                        );
                    if j < i {
                        assert(node_affects(graph, s, sub, done[j] as int, u));
                    }
                }
                if shard_affects(graph, s, sub, done, u) {
                    let j = choose|j: int|
                        0 <= j < done.len() && node_affects(
                            graph,
                            s,
                            sub,
                            #[trigger] done[j] as int,
                            u,
                        );
                    assert(node_affects(graph, s, sub, next[j] as int, u));
                }
                if node_affects(graph, s, sub, node as int, u) {
                    assert(node_affects(graph, s, sub, next[i as int] as int, u));
                }
            }
            assert forall|u: int| 0 <= u < n implies #[trigger] changed_nodes@[u] == (old(
                changed_nodes,
            )@[u] || shard_moved(graph, s, next, u)) by {
                assert(changed_before[u] == (old(changed_nodes)@[u] || shard_moved(
                    graph,
                    s,
                    done,
                    u,
                )));
            }
            assert forall|u: int| 0 <= u < n implies #[trigger] next_active_nodes@[u] == (old(
                next_active_nodes,
            )@[u] || shard_activates(graph, s, next, u)) by {
                assert(active_before[u] == (old(next_active_nodes)@[u] || shard_activates(
                    graph,
                    s,
                    done,
                    u,
                )));
            }
            assert forall|u: int| 0 <= u < n implies #[trigger] affected_nodes@[u] == (old(
                affected_nodes,
            )@[u] || shard_affects(graph, s, sub, next, u)) by {
                assert(affected_before[u] == (old(affected_nodes)@[u] || shard_affects(
                    graph,
                    s,
                    sub,
                    done,
                    u,
                )));
            }
        }
        i += 1;
    }
    proof {
        assert(shard@.take(shard@.len() as int) =~= shard@);
    }
    result
}

} // verus!
