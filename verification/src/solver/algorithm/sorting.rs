use vstd::prelude::*;
use vstd::relations::{sorted_by, total_ordering};
use vstd::seq_lib::lemma_sorted_unique;

verus! {

/// Two to the power of 64: the weight of the high half of a key.
pub const HIGH: u128 = 0x1_0000_0000_0000_0000;

/// The order of keys.
pub open spec fn key_le(a: u128, b: u128) -> bool {
    a <= b
}

/// Whether `keys` ascends.
pub open spec fn ascending(keys: Seq<u128>) -> bool {
    forall|i: int, j: int| 0 <= i < j < keys.len() ==> keys[i] <= keys[j]
}

/// The keys in ascending order.
pub open spec fn sorted_keys(keys: Seq<u128>) -> Seq<u128> {
    keys.sort_by(|a: u128, b: u128| key_le(a, b))
}

/// `<[u128]>::sort_unstable`: puts the keys into ascending order. The keys
/// that the vector holds, and how often it holds each, stay as they are.
#[verifier::external_body]
fn sort_unstable_keys(keys: &mut Vec<u128>)
    ensures
        ascending(final(keys)@),
        final(keys)@.to_multiset() == old(keys)@.to_multiset(),
{
    keys.sort_unstable();
}

/// An ascending arrangement of keys is the sorted one.
pub proof fn lemma_ascending_is_sorted(arranged: Seq<u128>, keys: Seq<u128>)
    requires
        ascending(arranged),
        arranged.to_multiset() == keys.to_multiset(),
    ensures
        arranged == sorted_keys(keys),
{
    let leq = |a: u128, b: u128| key_le(a, b);
    assert(total_ordering(leq)) by {
        assert(vstd::relations::reflexive(leq));
        assert(vstd::relations::antisymmetric(leq));
        assert(vstd::relations::transitive(leq));
        assert(vstd::relations::strongly_connected(leq));
    }
    keys.lemma_sort_by_ensures(leq);
    assert(sorted_by(arranged, leq));
    lemma_sorted_unique(arranged, keys.sort_by(leq), leq);
}

/// Sorts the keys into ascending order.
pub fn sort_keys(keys: &mut Vec<u128>)
    ensures
        final(keys)@ == sorted_keys(old(keys)@),
        ascending(final(keys)@),
        final(keys)@.to_multiset() == old(keys)@.to_multiset(),
        final(keys)@.len() == old(keys)@.len(),
{
    sort_unstable_keys(keys);
    proof {
        lemma_ascending_is_sorted(keys@, old(keys)@);
        keys@.to_multiset_ensures();
        old(keys)@.to_multiset_ensures();
    }
}

/// The key that orders by `high` first and by `low` second.
pub open spec fn pair_key(high: int, low: int) -> u128 {
    (high * HIGH + low) as u128
}

/// The high half of a key.
pub open spec fn key_high(key: u128) -> int {
    key as int / (HIGH as int)
}

/// The low half of a key.
pub open spec fn key_low(key: u128) -> int {
    key as int % (HIGH as int)
}

/// A key gives back the two halves that it was made of.
pub proof fn lemma_pair_key_halves(high: int, low: int)
    requires
        0 <= high < HIGH,
        0 <= low < HIGH,
    ensures
        pair_key(high, low) == high * HIGH + low,
        key_high(pair_key(high, low)) == high,
        key_low(pair_key(high, low)) == low,
{
    assert(high * HIGH + low < 0x1_0000_0000_0000_0000_0000_0000_0000_0000) by (nonlinear_arith)
        requires
            0 <= high < 0x1_0000_0000_0000_0000,
            0 <= low < 0x1_0000_0000_0000_0000,
            HIGH == 0x1_0000_0000_0000_0000,
    ;
    let k = high * HIGH + low;
    assert(k / (HIGH as int) == high && k % (HIGH as int) == low) by (nonlinear_arith)
        requires
            k == high * HIGH + low,
            0 <= low < HIGH,
            HIGH > 0,
    ;
}

/// Keys order as their halves do: by the high half first, by the low half second.
pub proof fn lemma_pair_key_order(h1: int, l1: int, h2: int, l2: int)
    requires
        0 <= h1 < HIGH,
        0 <= l1 < HIGH,
        0 <= h2 < HIGH,
        0 <= l2 < HIGH,
    ensures
        pair_key(h1, l1) <= pair_key(h2, l2) <==> (h1 < h2 || (h1 == h2 && l1 <= l2)),
        pair_key(h1, l1) == pair_key(h2, l2) <==> (h1 == h2 && l1 == l2),
{
    lemma_pair_key_halves(h1, l1);
    lemma_pair_key_halves(h2, l2);
    assert(h1 < h2 ==> h1 * HIGH + l1 < h2 * HIGH + l2) by (nonlinear_arith)
        requires
            0 <= l1 < HIGH,
            0 <= l2 < HIGH,
    ;
    assert(h2 < h1 ==> h2 * HIGH + l2 < h1 * HIGH + l1) by (nonlinear_arith)
        requires
            0 <= l1 < HIGH,
            0 <= l2 < HIGH,
    ;
}

/// Makes the key that orders by `high` first and by `low` second.
pub fn make_key(high: u64, low: u64) -> (key: u128)
    ensures
        key == pair_key(high as int, low as int),
        key_high(key) == high,
        key_low(key) == low,
{
    proof {
        lemma_pair_key_halves(high as int, low as int);
    }
    (high as u128) * HIGH + (low as u128)
}

/// The two halves of a key.
pub fn split_key(key: u128) -> (halves: (u64, u64))
    ensures
        halves.0 == key_high(key),
        halves.1 == key_low(key),
        key == pair_key(halves.0 as int, halves.1 as int),
{
    let high: u128 = key / HIGH;
    let low: u128 = key % HIGH;
    proof {
        assert(high < HIGH && key == high * HIGH + low) by (nonlinear_arith)
            requires
                high == key / HIGH,
                low == key % HIGH,
                HIGH == 0x1_0000_0000_0000_0000,
                key < 0x1_0000_0000_0000_0000_0000_0000_0000_0000,
        ;
    }
    (high as u64, low as u64)
}

/// Whether `keys` ascends without repeating a key.
pub open spec fn strictly_ascending(keys: Seq<u128>) -> bool {
    forall|i: int, j: int| 0 <= i < j < keys.len() ==> keys[i] < keys[j]
}

/// Two strictly ascending runs of the same keys are one and the same.
pub proof fn lemma_strictly_ascending_unique(a: Seq<u128>, b: Seq<u128>)
    requires
        strictly_ascending(a),
        strictly_ascending(b),
        forall|x: u128| a.contains(x) <==> b.contains(x),
    ensures
        a == b,
    decreases a.len(),
{
    if a.len() == 0 {
        if b.len() > 0 {
            assert(b.contains(b[0]));
        }
        assert(a =~= b);
    } else {
        let top = a.last();
        assert(a.contains(top));
        assert(b.contains(top));
        let j = choose|j: int| 0 <= j < b.len() && b[j] == top;
        assert(b.contains(b.last()));
        assert(a.contains(b.last()));
        let i = choose|i: int| 0 <= i < a.len() && a[i] == b.last();
        if i < a.len() - 1 {
            assert(a[i] < a[a.len() - 1]);
        }
        if j < b.len() - 1 {
            assert(b[j] < b[b.len() - 1]);
        }
        assert(b.last() == top);
        let a0 = a.drop_last();
        let b0 = b.drop_last();
        assert forall|x: u128| a0.contains(x) <==> b0.contains(x) by {
            if a0.contains(x) {
                let k = choose|k: int| 0 <= k < a0.len() && a0[k] == x;
                assert(a[k] == x && a[k] < a[a.len() - 1]);
                assert(a.contains(x));
                let m = choose|m: int| 0 <= m < b.len() && b[m] == x;
                assert(m < b.len() - 1);
                assert(b0[m] == x);
            }
            if b0.contains(x) {
                let k = choose|k: int| 0 <= k < b0.len() && b0[k] == x;
                assert(b[k] == x && b[k] < b[b.len() - 1]);
                assert(b.contains(x));
                let m = choose|m: int| 0 <= m < a.len() && a[m] == x;
                assert(m < a.len() - 1);
                assert(a0[m] == x);
            }
        }
        assert(strictly_ascending(a0)) by {
            assert forall|x: int, y: int| 0 <= x < y < a0.len() implies a0[x] < a0[y] by {
                assert(a[x] < a[y]);
            }
        }
        assert(strictly_ascending(b0)) by {
            assert forall|x: int, y: int| 0 <= x < y < b0.len() implies b0[x] < b0[y] by {
                assert(b[x] < b[y]);
            }
        }
        lemma_strictly_ascending_unique(a0, b0);
        assert(a =~= a0.push(top));
        assert(b =~= b0.push(top));
    }
}

} // verus!
