use vstd::prelude::*;

verus! {

/// High half of a sort key: what is sorted on.
pub open spec fn key_hi(k: u64) -> u32 {
    (k >> 32u64) as u32
}

/// Low half of a sort key: the index of the item it stands for.
pub open spec fn key_lo(k: u64) -> u32 {
    (k & 0xffff_ffffu64) as u32
}

pub open spec fn sorted_keys(s: Seq<u64>) -> bool {
    forall|i: int, j: int| 0 <= i <= j < s.len() ==> #[trigger] s[i] <= #[trigger] s[j]
}

/// The key with high half `hi` and low half `lo`.
pub open spec fn packed(hi: u32, lo: u32) -> u64 {
    ((hi as u64) << 32u64) | (lo as u64)
}

/// The order keys are sorted by.
pub open spec fn key_order() -> spec_fn(u64, u64) -> bool {
    |a: u64, b: u64| a <= b
}

pub proof fn lemma_key_order_total()
    ensures
        vstd::relations::total_ordering(key_order()),
{
}

/// A sorted copy of `keys` is the one `Seq::sort_by` describes.
pub proof fn lemma_sorted_is_sort_by(keys: Seq<u64>, sorted: Seq<u64>)
    requires
        sorted.to_multiset() == keys.to_multiset(),
        sorted_keys(sorted),
    ensures
        sorted == keys.sort_by(key_order()),
{
    let leq = key_order();
    lemma_key_order_total();
    keys.lemma_sort_by_ensures(leq);
    assert(vstd::relations::sorted_by(sorted, leq)) by {
        assert forall|i: int, j: int| 0 <= i < j < sorted.len() implies #[trigger] leq(sorted[i], sorted[j]) by {
            assert(sorted[i] <= sorted[j]);
        }
    }
    vstd::seq_lib::lemma_sorted_unique(sorted, keys.sort_by(leq), leq);
}

/// Packs `hi` and `lo` into one key that orders by `hi` first.
pub fn pack(hi: u32, lo: u32) -> (k: u64)
    ensures
        k == packed(hi, lo),
        key_hi(k) == hi,
        key_lo(k) == lo,
{
    let k = ((hi as u64) << 32u64) | (lo as u64);
    assert(((k >> 32u64) as u32) == hi && ((k & 0xffff_ffffu64) as u32) == lo) by (bit_vector)
        requires
            k == ((hi as u64) << 32u64) | (lo as u64),
    ;
    k
}

pub fn unpack_hi(k: u64) -> (r: u32)
    ensures
        r == key_hi(k),
{
    (k >> 32u64) as u32
}

pub fn unpack_lo(k: u64) -> (r: u32)
    ensures
        r == key_lo(k),
{
    (k & 0xffff_ffffu64) as u32
}

/// Keys in ascending order have ascending high halves, and on equal high
/// halves ascending low halves; keys with equal halves are equal.
pub proof fn lemma_key_order(a: u64, b: u64)
    ensures
        a <= b ==> key_hi(a) <= key_hi(b),
        a <= b && key_hi(a) == key_hi(b) ==> key_lo(a) <= key_lo(b),
        key_hi(a) == key_hi(b) && key_lo(a) == key_lo(b) ==> a == b,
{
    assert(a <= b ==> ((a >> 32u64) as u32) <= ((b >> 32u64) as u32)) by (bit_vector);
    assert(a <= b && ((a >> 32u64) as u32) == ((b >> 32u64) as u32) ==> ((a & 0xffff_ffffu64) as u32) <= ((b
        & 0xffff_ffffu64) as u32)) by (bit_vector);
    assert(((a >> 32u64) as u32) == ((b >> 32u64) as u32) && ((a & 0xffff_ffffu64) as u32) == ((b
        & 0xffff_ffffu64) as u32) ==> a == b) by (bit_vector);
}

/// Relies on `slice::sort_unstable`: the slice ends up in ascending order and
/// holds the same elements as before.
#[verifier::external_body]
pub(crate) fn sort_keys(v: &mut Vec<u64>)
    ensures
        final(v)@.to_multiset() == old(v)@.to_multiset(),
        sorted_keys(final(v)@),
{
    v.sort_unstable();
}

/// When each key's low half is its position, a sorted copy of the keys visits
/// every position exactly once.
pub proof fn lemma_sorted_permutation(keys: Seq<u64>, sorted: Seq<u64>)
    requires
        keys.to_multiset() == sorted.to_multiset(),
        forall|i: int| 0 <= i < keys.len() ==> #[trigger] key_lo(keys[i]) == i,
    ensures
        sorted.len() == keys.len(),
        sorted.no_duplicates(),
        forall|j: int|
            0 <= j < sorted.len() ==> #[trigger] key_lo(sorted[j]) < keys.len() && sorted[j]
                == keys[key_lo(sorted[j]) as int],
        forall|i: int| 0 <= i < keys.len() ==> sorted.contains(#[trigger] keys[i]),
{
    broadcast use vstd::seq_lib::group_to_multiset_ensures;

    keys.to_multiset_ensures();
    sorted.to_multiset_ensures();
    assert(keys.no_duplicates()) by {
        assert forall|i: int, j: int| 0 <= i < keys.len() && 0 <= j < keys.len() && i != j implies keys[i]
            != keys[j] by {
            assert(key_lo(keys[i]) == i);
            assert(key_lo(keys[j]) == j);
        }
    }
    keys.lemma_multiset_has_no_duplicates();
    sorted.lemma_multiset_has_no_duplicates_conv();
    assert forall|j: int| 0 <= j < sorted.len() implies #[trigger] key_lo(sorted[j]) < keys.len()
        && sorted[j] == keys[key_lo(sorted[j]) as int] by {
        assert(sorted.to_multiset().count(sorted[j]) > 0);
        assert(keys.contains(sorted[j]));
        let i = choose|i: int| 0 <= i < keys.len() && keys[i] == sorted[j];
        assert(key_lo(keys[i]) == i);
    }
    assert forall|i: int| 0 <= i < keys.len() implies sorted.contains(#[trigger] keys[i]) by {
        assert(keys.to_multiset().count(keys[i]) > 0);
    }
}

} // verus!
