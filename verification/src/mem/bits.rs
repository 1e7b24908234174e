//! Bit-field vocabulary shared by the page table entry and address types.
use vstd::prelude::*;

verus! {

/// Whether bit `i` of `v` is set.
pub open spec fn bit_of(v: u64, i: u64) -> bool {
    (v >> i) & 1u64 == 1u64
}

/// `v` with bit `i` set to `b`.
pub open spec fn with_bit(v: u64, i: u64, b: bool) -> u64 {
    if b {
        v | (1u64 << i)
    } else {
        v & !(1u64 << i)
    }
}

/// A mask of the `width` lowest bits.
pub open spec fn low_mask(width: u64) -> u64 {
    ((1u64 << width) - 1u64) as u64
}

/// The field of `v` that starts at bit `shift` and is `width` bits wide.
pub open spec fn field_of(v: u64, shift: u64, width: u64) -> u64 {
    (v >> shift) & low_mask(width)
}

/// `v` with the field that starts at bit `shift` and is `width` bits wide
/// replaced by the low bits of `x`.
pub open spec fn with_field(v: u64, shift: u64, width: u64, x: u64) -> u64 {
    (v & !(low_mask(width) << shift)) | ((x & low_mask(width)) << shift)
}

/// The masks of the widths used by Sv39 addresses and entries.
pub proof fn lemma_masks()
    ensures
        low_mask(2) == 0x3,
        low_mask(9) == 0x1ff,
        low_mask(12) == 0xfff,
        low_mask(21) == 0x1fffff,
        low_mask(26) == 0x3ffffff,
        low_mask(30) == 0x3fffffff,
        low_mask(44) == 0xfffffffffff,
{
    assert(low_mask(2) == 0x3 && low_mask(9) == 0x1ff && low_mask(12) == 0xfff && low_mask(21)
        == 0x1fffff && low_mask(26) == 0x3ffffff && low_mask(30) == 0x3fffffff && low_mask(44)
        == 0xfffffffffff) by (bit_vector);
}

/// A field is no larger than its mask.
pub proof fn lemma_field_bound(v: u64, shift: u64, width: u64)
    requires
        0 < width < 64,
        shift < 64,
    ensures
        field_of(v, shift, width) <= low_mask(width),
{
    assert(field_of(v, shift, width) <= low_mask(width)) by (bit_vector)
        requires
            0 < width < 64,
            shift < 64,
    ;
}

/// One shifted left within the width is at least one.
pub proof fn lemma_shifted_one(shift: u64)
    requires
        shift < 64,
    ensures
        1u64 << shift >= 1,
        low_mask(shift) == (1u64 << shift) - 1,
{
    assert(1u64 << shift >= 1) by (bit_vector)
        requires
            shift < 64,
    ;
}

/// Shifting by zero keeps a value.
pub proof fn lemma_shift_zero(v: u64)
    ensures
        v >> 0u64 == v,
        v << 0u64 == v,
{
    assert(v >> 0u64 == v && v << 0u64 == v) by (bit_vector);
}

/// The lowest bit of a value is either zero or one.
pub proof fn lemma_low_bit(x: u64)
    ensures
        (x & 1u64 > 0) == (x & 1u64 == 1u64),
        x & 1u64 <= 1,
{
    assert((x & 1u64 > 0) == (x & 1u64 == 1u64) && x & 1u64 <= 1) by (bit_vector);
}

/// Setting or clearing one bit changes that bit and no other.
pub proof fn lemma_set_clear_bit(v: u64, i: u64)
    requires
        i < 64,
    ensures
        forall|j: u64| j < 64 ==> #[trigger] bit_of(v | (1u64 << i), j) == (j == i || bit_of(v, j)),
        forall|j: u64| j < 64 ==> #[trigger] bit_of(v & !(1u64 << i), j) == (j != i && bit_of(v, j)),
        bit_of(v | (1u64 << i), i),
        !bit_of(v & !(1u64 << i), i),
{
    assert(forall|j: u64|
        j < 64 ==> #[trigger] bit_of(v | (1u64 << i), j) == (j == i || bit_of(v, j))) by (bit_vector)
        requires
            i < 64,
    ;
    assert(forall|j: u64|
        j < 64 ==> #[trigger] bit_of(v & !(1u64 << i), j) == (j != i && bit_of(v, j))) by (bit_vector)
        requires
            i < 64,
    ;
}

/// Writing a field: the field reads back the low bits of the value written,
/// and every bit outside the field keeps its value.
pub proof fn lemma_with_field(v: u64, shift: u64, width: u64, x: u64)
    requires
        0 < width < 64,
        shift + width <= 64,
    ensures
        field_of(with_field(v, shift, width, x), shift, width) == x & low_mask(width),
        forall|j: u64|
            j < 64 && (j < shift || j >= shift + width) ==> #[trigger] bit_of(
                with_field(v, shift, width, x),
                j,
            ) == bit_of(v, j),
{
    assert(field_of(with_field(v, shift, width, x), shift, width) == x & low_mask(width))
        by (bit_vector)
        requires
            0 < width < 64,
            shift + width <= 64,
    ;
    assert(forall|j: u64|
        j < 64 && (j < shift || j >= shift + width) ==> #[trigger] bit_of(
            with_field(v, shift, width, x),
            j,
        ) == bit_of(v, j)) by (bit_vector)
        requires
            0 < width < 64,
            shift + width <= 64,
    ;
}

/// Two fields that do not overlap: writing one leaves the other unchanged.
pub proof fn lemma_disjoint_fields(v: u64, s1: u64, w1: u64, x: u64, s2: u64, w2: u64)
    requires
        0 < w1 < 64,
        s1 + w1 <= 64,
        0 < w2 < 64,
        s2 + w2 <= 64,
        s1 + w1 <= s2 || s2 + w2 <= s1,
    ensures
        field_of(with_field(v, s1, w1, x), s2, w2) == field_of(v, s2, w2),
{
    assert(field_of(with_field(v, s1, w1, x), s2, w2) == field_of(v, s2, w2)) by (bit_vector)
        requires
            0 < w1 < 64,
            s1 + w1 <= 64,
            0 < w2 < 64,
            s2 + w2 <= 64,
            s1 + w1 <= s2 || s2 + w2 <= s1,
    ;
}

} // verus!
