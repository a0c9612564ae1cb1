//! Bit arithmetic on a container of up to 128 bits.
//!
//! A container of `W` bits is held in the low `W` bits of a `u128`. Shifts
//! take their distance as a `nat` and are total: a distance of 128 or more
//! shifts every bit out.

use vstd::prelude::*;

verus! {

/// The widest container.
pub const MAX_WIDTH: usize = 128;

/// The `n` lowest bits set, for `n` below 128.
pub open spec fn low_bits(n: u128) -> u128 {
    !(u128::MAX << n)
}

/// The largest unsigned value of `width` bits.
pub open spec fn all_ones(width: nat) -> u128 {
    if width >= 128 {
        u128::MAX
    } else {
        low_bits(width as u128)
    }
}

/// `value` shifted left by `n` bits inside a 128-bit word.
pub open spec fn shl(value: u128, n: nat) -> u128 {
    if n >= 128 {
        0
    } else {
        value << (n as u128)
    }
}

/// `value` shifted right by `n` bits.
pub open spec fn shr(value: u128, n: nat) -> u128 {
    if n >= 128 {
        0
    } else {
        value >> (n as u128)
    }
}

/// Whether bit `index` of `value` is set.
pub open spec fn bit(value: u128, index: nat) -> bool {
    shr(value, index) & 1 == 1
}

/// The mask of a field of `width` bits whose lowest bit is bit `offset` of a
/// container of `container` bits: the container's all-ones value, shifted
/// right until `width` bits are left, then shifted left by `offset` inside
/// the container.
pub open spec fn field_mask(container: nat, width: nat, offset: nat) -> u128
    recommends
        width <= container,
{
    shl(shr(all_ones(container), (container - width) as nat), offset) & all_ones(container)
}

/// The field under `mask` at `offset`, moved down to bit 0.
pub open spec fn extract(raw: u128, mask: u128, offset: nat) -> u128 {
    shr(raw & mask, offset)
}

/// `raw` with the bits under `mask` cleared and `value`, shifted up by
/// `offset`, merged in. `value` is not cut to the field's width first: bits
/// of it above the field land in the neighbouring bits. Only what leaves the
/// container of `container` bits is dropped.
pub open spec fn insert(raw: u128, mask: u128, offset: nat, value: u128, container: nat) -> u128 {
    ((raw & !mask) | shl(value, offset)) & all_ones(container)
}

/// `value` cut to its `width` lowest bits.
pub open spec fn truncate(value: u128, width: nat) -> u128 {
    value & all_ones(width)
}

/// `value` cut to `width` bits and read as a two's complement number of
/// that width.
pub open spec fn as_signed(value: u128, width: nat) -> int {
    let low = truncate(value, width);
    if width > 0 && bit(low, (if width >= 128 { 127 } else { width - 1 }) as nat) {
        low - all_ones(width) - 1
    } else {
        low as int
    }
}

/// The largest unsigned value of `width` bits.
pub fn ones(width: usize) -> (r: u128)
    ensures
        r == all_ones(width as nat),
{
    if width >= 128 {
        u128::MAX
    } else {
        let n: u32 = width as u32;
        assert(!(u128::MAX << n) == !(u128::MAX << (n as u128))) by (bit_vector);
        !(u128::MAX << n)
    }
}

/// `value` shifted left by `n` bits; nothing is left once `n` reaches 128.
pub fn shift_left(value: u128, n: usize) -> (r: u128)
    ensures
        r == shl(value, n as nat),
{
    if n >= 128 {
        0
    } else {
        let s: u32 = n as u32;
        assert(value << s == value << (s as u128)) by (bit_vector);
        value << s
    }
}

/// `value` shifted right by `n` bits; nothing is left once `n` reaches 128.
pub fn shift_right(value: u128, n: usize) -> (r: u128)
    ensures
        r == shr(value, n as nat),
{
    if n >= 128 {
        0
    } else {
        let s: u32 = n as u32;
        assert(value >> s == value >> (s as u128)) by (bit_vector);
        value >> s
    }
}

/// The mask of a field of `width` bits at `offset` in a container of
/// `container` bits.
pub fn mask_of(container: usize, width: usize, offset: usize) -> (r: u128)
    requires
        width <= container,
    ensures
        r == field_mask(container as nat, width as nat, offset as nat),
{
    let top = ones(container);
    shift_left(shift_right(top, container - width), offset) & top
}

/// `value` cut to `width` bits and read as a two's complement number of
/// that width.
pub fn signed_of(value: u128, width: usize) -> (r: i128)
    ensures
        r == as_signed(value, width as nat),
{
    let top = ones(width);
    let low = value & top;
    let sign_at: usize = if width >= 128 {
        127
    } else if width == 0 {
        0
    } else {
        width - 1
    };
    let w: u128 = if width >= 128 {
        128
    } else {
        width as u128
    };
    if width > 0 && shift_right(low, sign_at) & 1 == 1 {
        assert(low <= top && top - low <= 0x7fff_ffff_ffff_ffff_ffff_ffff_ffff_ffffu128)
            by (bit_vector)
            requires
                0 < w <= 128,
                top == (if w >= 128 {
                    u128::MAX
                } else {
                    !(u128::MAX << w)
                }),
                low == value & top,
                (low >> ((w - 1) as u128)) & 1 == 1,
        ;
        let below: i128 = (top - low) as i128;
        -below - 1
    } else {
        assert(low <= 0x7fff_ffff_ffff_ffff_ffff_ffff_ffff_ffffu128) by (bit_vector)
            requires
                w <= 128,
                top == (if w >= 128 {
                    u128::MAX
                } else {
                    !(u128::MAX << w)
                }),
                w >= 128 ==> (low >> 127u128) & 1 != 1,
                low == value & top,
        ;
        low as i128
    }
}

/// Inside its container, the mask of a field is its width's all-ones value
/// shifted up to the field's offset.
pub proof fn lemma_mask_shape(container: nat, width: nat, offset: nat)
    requires
        offset + width <= container <= 128,
    ensures
        field_mask(container, width, offset) == shl(all_ones(width), offset),
        field_mask(container, width, offset) & all_ones(container) == field_mask(
            container,
            width,
            offset,
        ),
{
    let c = container as u128;
    let w = width as u128;
    let o = offset as u128;
    let g = (container - width) as u128;
    let top = all_ones(container);
    let low = all_ones(width);
    let cut = shr(top, (container - width) as nat);
    let up = shl(cut, offset);
    assert(cut == low) by (bit_vector)
        requires
            g <= 128,
            w <= 128,
            c == g + w,
            c <= 128,
            top == (if c >= 128 {
                u128::MAX
            } else {
                !(u128::MAX << c)
            }),
            low == (if w >= 128 {
                u128::MAX
            } else {
                !(u128::MAX << w)
            }),
            cut == (if g >= 128 {
                0
            } else {
                top >> g
            }),
    ;
    assert(up & top == up) by (bit_vector)
        requires
            o <= 128,
            w <= 128,
            o + w <= c,
            c <= 128,
            top == (if c >= 128 {
                u128::MAX
            } else {
                !(u128::MAX << c)
            }),
            low == (if w >= 128 {
                u128::MAX
            } else {
                !(u128::MAX << w)
            }),
            up == (if o >= 128 {
                0
            } else {
                low << o
            }),
    ;
}

/// The masks of two fields, the one wholly below the other, share no bit.
pub proof fn lemma_masks_apart(container: nat, width: nat, offset: nat, upper_width: nat, upper_offset: nat)
    requires
        offset + width <= upper_offset,
        upper_offset + upper_width <= container <= 128,
    ensures
        field_mask(container, width, offset) & field_mask(container, upper_width, upper_offset) == 0,
{
    lemma_mask_shape(container, width, offset);
    lemma_mask_shape(container, upper_width, upper_offset);
    let w = width as u128;
    let o = offset as u128;
    let uw = upper_width as u128;
    let uo = upper_offset as u128;
    let low = all_ones(width);
    let upper_low = all_ones(upper_width);
    let m = field_mask(container, width, offset);
    let um = field_mask(container, upper_width, upper_offset);
    if upper_offset >= 128 {
        assert(m & um == 0) by (bit_vector)
            requires
                um == 0,
        ;
    } else {
        assert(m >> uo == 0) by (bit_vector)
            requires
                o + w <= uo < 128,
                low == !(u128::MAX << w),
                m == low << o,
        ;
        assert(um == (um >> uo) << uo) by (bit_vector)
            requires
                uo < 128,
                um == upper_low << uo,
        ;
        assert(m & um == 0) by (bit_vector)
            requires
                uo < 128,
                m >> uo == 0,
                um == (um >> uo) << uo,
        ;
    }
}

/// A value that fits a field's width, shifted to the field's offset, stays
/// inside the field's mask.
pub proof fn lemma_value_inside_mask(container: nat, width: nat, offset: nat, value: u128)
    requires
        offset + width <= container <= 128,
        value <= all_ones(width),
    ensures
        shl(value, offset) & field_mask(container, width, offset) == shl(value, offset),
{
    lemma_mask_shape(container, width, offset);
    let w = width as u128;
    let o = offset as u128;
    let low = all_ones(width);
    let m = field_mask(container, width, offset);
    let up = shl(value, offset);
    assert(up & m == up) by (bit_vector)
        requires
            o + w <= 128,
            value <= low,
            low == (if w >= 128 {
                u128::MAX
            } else {
                !(u128::MAX << w)
            }),
            m == (if o >= 128 {
                0
            } else {
                low << o
            }),
            up == (if o >= 128 {
                0
            } else {
                value << o
            }),
    ;
}

/// Bit `index` of an extracted field is bit `offset + index` of the
/// container, for every `index` below the field's width.
pub proof fn lemma_extract_bit(container: nat, width: nat, offset: nat, raw: u128, index: nat)
    requires
        offset + width <= container <= 128,
        index < width,
    ensures
        bit(extract(raw, field_mask(container, width, offset), offset), index) == bit(
            raw,
            offset + index,
        ),
{
    lemma_mask_shape(container, width, offset);
    let w = width as u128;
    let o = offset as u128;
    let i = index as u128;
    let low = all_ones(width);
    let m = field_mask(container, width, offset);
    let field = extract(raw, m, offset);
    let got = shr(field, index);
    let there = shr(raw, offset + index);
    assert(got & 1 == there & 1) by (bit_vector)
        requires
            o + w <= 128,
            i < w,
            low == (if w >= 128 {
                u128::MAX
            } else {
                !(u128::MAX << w)
            }),
            m == low << o,
            field == (raw & m) >> o,
            got == field >> i,
            there == raw >> ((o + i) as u128),
    ;
}

/// A container of zeros holds a zero in every field.
pub proof fn lemma_extract_zero(mask: u128, offset: nat)
    ensures
        extract(0, mask, offset) == 0,
{
    let o = offset as u128;
    if offset < 128 {
        assert((0u128 & mask) >> o == 0) by (bit_vector);
    }
}

} // verus!
