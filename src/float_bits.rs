//! Selection over IEEE 754 binary64 values held as their bit patterns.
//!
//! Each pattern is mapped to an order key: a `u64` whose natural order is the
//! order of the values (negative values reversed below the positive ones,
//! `-0.0` just below `+0.0`). The map is a bijection, so selecting over keys
//! and mapping back only rearranges the original patterns. Not-a-number
//! patterns have no place in the order of the values and are refused.
use vstd::prelude::*;
use crate::select::{is_selection, partitioned_at, select_nth_unstable};

verus! {

broadcast use vstd::seq_lib::group_to_multiset_ensures;

/// Why a selection was refused; the buffer is then left as it was.
#[derive(Clone, Copy, Debug, PartialEq, Eq, Structural)]
pub enum SelectError {
    /// The index is not below the length of the buffer.
    InvalidIndex,
    /// The buffer holds a not-a-number value, which no other value compares with.
    IncomparableValue,
}

/// A binary64 pattern is not-a-number when its exponent bits are all set and
/// its fraction is not zero.
pub open spec fn is_nan_bits_spec(b: u64) -> bool {
    b & 0x7ff0_0000_0000_0000u64 == 0x7ff0_0000_0000_0000u64 && b & 0x000f_ffff_ffff_ffffu64 != 0
}

pub fn is_nan_bits(b: u64) -> (r: bool)
    ensures
        r == is_nan_bits_spec(b),
{
    b & 0x7ff0_0000_0000_0000u64 == 0x7ff0_0000_0000_0000u64 && b & 0x000f_ffff_ffff_ffffu64 != 0
}

/// Order key of a binary64 pattern: negative values have all bits flipped,
/// the others get the sign bit set.
pub open spec fn order_key_spec(b: u64) -> u64 {
    if b & 0x8000_0000_0000_0000u64 != 0 {
        !b
    } else {
        b | 0x8000_0000_0000_0000u64
    }
}

/// The pattern whose order key is `k`.
pub open spec fn from_order_key_spec(k: u64) -> u64 {
    if k & 0x8000_0000_0000_0000u64 != 0 {
        k & 0x7fff_ffff_ffff_ffffu64
    } else {
        !k
    }
}

pub fn order_key(b: u64) -> (k: u64)
    ensures
        k == order_key_spec(b),
{
    if b & 0x8000_0000_0000_0000u64 != 0 {
        !b
    } else {
        b | 0x8000_0000_0000_0000u64
    }
}

pub fn from_order_key(k: u64) -> (b: u64)
    ensures
        b == from_order_key_spec(k),
{
    if k & 0x8000_0000_0000_0000u64 != 0 {
        k & 0x7fff_ffff_ffff_ffffu64
    } else {
        !k
    }
}

/// Mapping a pattern to its key and back gives the pattern again, and the
/// other way round: the key map is a bijection on `u64`.
pub proof fn lemma_order_key_round_trip(b: u64, k: u64)
    ensures
        from_order_key_spec(order_key_spec(b)) == b,
        order_key_spec(from_order_key_spec(k)) == k,
{
    assert(b & 0x8000_0000_0000_0000u64 != 0 ==> (!b) & 0x8000_0000_0000_0000u64 == 0 && !(!b) == b)
        by (bit_vector);
    assert(b & 0x8000_0000_0000_0000u64 == 0 ==> (b | 0x8000_0000_0000_0000u64) & 0x8000_0000_0000_0000u64
        != 0 && (b | 0x8000_0000_0000_0000u64) & 0x7fff_ffff_ffff_ffffu64 == b) by (bit_vector);
    assert(k & 0x8000_0000_0000_0000u64 != 0 ==> (k & 0x7fff_ffff_ffff_ffffu64) & 0x8000_0000_0000_0000u64
        == 0 && ((k & 0x7fff_ffff_ffff_ffffu64) | 0x8000_0000_0000_0000u64) == k) by (bit_vector);
    assert(k & 0x8000_0000_0000_0000u64 == 0 ==> (!k) & 0x8000_0000_0000_0000u64 != 0 && !(!k) == k)
        by (bit_vector);
}

pub open spec fn keys_of(s: Seq<u64>) -> Seq<u64> {
    s.map_values(|b: u64| order_key_spec(b))
}

pub open spec fn patterns_of(s: Seq<u64>) -> Seq<u64> {
    s.map_values(|k: u64| from_order_key_spec(k))
}

pub open spec fn has_nan(s: Seq<u64>) -> bool {
    exists|j: int| 0 <= j < s.len() && is_nan_bits_spec(#[trigger] s[j])
}

proof fn lemma_patterns_multiset(a: Seq<u64>, b: Seq<u64>)
    requires
        a.to_multiset() == b.to_multiset(),
    ensures
        patterns_of(a).to_multiset() == patterns_of(b).to_multiset(),
    decreases a.len(),
{
    broadcast use vstd::multiset::group_multiset_axioms;

    if a.len() == 0 {
        assert(b.to_multiset().len() == 0);
        assert(b.len() == 0);
        assert(patterns_of(a) =~= Seq::<u64>::empty());
        assert(patterns_of(b) =~= Seq::<u64>::empty());
    } else {
        let x = a.last();
        assert(a.contains(x));
        assert(b.to_multiset().count(x) > 0);
        assert(b.contains(x));
        let k = choose|k: int| 0 <= k < b.len() && b[k] == x;
        let a2 = a.drop_last();
        let b2 = b.remove(k);
        assert(a =~= a2.push(x));
        assert(a2.to_multiset() =~= a.to_multiset().remove(x));
        lemma_patterns_multiset(a2, b2);
        let fx = from_order_key_spec(x);
        assert(patterns_of(a) =~= patterns_of(a2).push(fx));
        assert(patterns_of(b).remove(k) =~= patterns_of(b2));
        assert(patterns_of(b)[k] == fx);
        vstd::seq_lib::to_multiset_remove(patterns_of(b), k);
        assert(patterns_of(b).contains(fx));
        assert(patterns_of(b).to_multiset().count(fx) > 0);
        assert(patterns_of(b).to_multiset() =~= patterns_of(b2).to_multiset().insert(fx));
        assert(patterns_of(a).to_multiset() =~= patterns_of(a2).to_multiset().insert(fx));
    }
}


/// Rearranges the binary64 patterns of `buf` so that `buf[index]` holds the
/// value of rank `index`, with no greater value before it and no smaller
/// value after it (values ordered by their order keys). Refuses an index out
/// of range, and a buffer with a not-a-number value; a refused buffer is
/// left as it was.
pub fn select_nth_unstable_bits(buf: &mut Vec<u64>, index: usize) -> (r: Result<(), SelectError>)
    ensures
        index >= old(buf).len() ==> r == Err::<(), SelectError>(SelectError::InvalidIndex),
        index < old(buf).len() && has_nan(old(buf)@) ==> r == Err::<(), SelectError>(
            SelectError::IncomparableValue,
        ),
        index < old(buf).len() && !has_nan(old(buf)@) ==> r == Ok::<(), SelectError>(()),
        r is Err ==> final(buf)@ == old(buf)@,
        r is Ok ==> {
            &&& final(buf)@.to_multiset() == old(buf)@.to_multiset()
            &&& is_selection(keys_of(old(buf)@), keys_of(final(buf)@), index as int)
            &&& partitioned_at(keys_of(old(buf)@), index as int) ==> final(buf)@ == old(buf)@
        },
{
    let n = buf.len();
    if index >= n {
        return Err(SelectError::InvalidIndex);
    }
    let mut j: usize = 0;
    while j < n
        invariant
            n == buf.len(),
            index < n,
            buf@ == old(buf)@,
            j <= n,
            forall|k: int| 0 <= k < j ==> !is_nan_bits_spec(#[trigger] buf@[k]),
        decreases n - j,
    {
        if is_nan_bits(buf[j]) {
            return Err(SelectError::IncomparableValue);
        }
        j = j + 1;
    }
    let ghost start = buf@;
    let mut j: usize = 0;
    while j < n
        invariant
            n == buf.len(),
            n == start.len(),
            j <= n,
            forall|k: int| 0 <= k < j ==> #[trigger] buf@[k] == order_key_spec(start[k]),
            forall|k: int| j <= k < n ==> #[trigger] buf@[k] == start[k],
        decreases n - j,
    {
        let key = order_key(buf[j]);
        buf.set(j, key);
        j = j + 1;
    }
    let ghost keys = buf@;
    assert(keys =~= keys_of(start));
    select_nth_unstable(buf, index);
    let ghost selected = buf@;
    let mut j: usize = 0;
    while j < n
        invariant
            n == buf.len(),
            n == selected.len(),
            j <= n,
            forall|k: int| 0 <= k < j ==> #[trigger] buf@[k] == from_order_key_spec(selected[k]),
            forall|k: int| j <= k < n ==> #[trigger] buf@[k] == selected[k],
        decreases n - j,
    {
        let pattern = from_order_key(buf[j]);
        buf.set(j, pattern);
        j = j + 1;
    }
    proof {
        assert(buf@ =~= patterns_of(selected));
        assert forall|k: int| 0 <= k < n implies #[trigger] keys_of(buf@)[k] == selected[k] by {
            lemma_order_key_round_trip(0, selected[k]);
        }
        assert(keys_of(buf@) =~= selected);
        assert forall|k: int| 0 <= k < n implies #[trigger] patterns_of(keys)[k] == start[k] by {
            lemma_order_key_round_trip(start[k], 0);
        }
        assert(patterns_of(keys) =~= start);
        lemma_patterns_multiset(selected, keys);
        if partitioned_at(keys, index as int) {
            assert(buf@ == start);
        }
    }
    Ok(())
}

} // verus!
