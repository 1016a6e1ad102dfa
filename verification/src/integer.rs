//! Integers as expressions compute them: a value and, where one was given, a width in bits.

use vstd::prelude::*;
use vstd::arithmetic::power2::{lemma_pow2_unfold, lemma2_to64, pow2};

verus! {

/// An integer, with the number of bits that it is written out with where that was given.
#[derive(Clone, Copy, Debug, PartialEq, Eq, Structural)]
pub struct Integer {
    pub value: i64,
    pub explicit_width: Option<usize>,
}

/// The number of binary digits of `n`; `0` has one.
pub open spec fn binary_digits(n: nat) -> nat
    decreases n,
{
    if n < 2 {
        1
    } else {
        1 + binary_digits(n / 2)
    }
}

/// Bit number `i` of the two's complement of `value`, the lowest bit being number 0.
pub open spec fn bit(value: i64, i: int) -> bool {
    if 0 <= i < 64 {
        (value >> (i as u64)) & 1 == 1
    } else {
        value < 0
    }
}

/// The `width` lowest bits of `value`, the highest of them first.
pub open spec fn low_bits(value: i64, width: nat) -> Seq<bool> {
    Seq::new(width, |k: int| bit(value, width - 1 - k))
}

/// `value` without its `right` lowest bits.
pub open spec fn shifted(value: i64, right: usize) -> i64 {
    if right < 64 {
        value >> (right as u64)
    } else if value < 0 {
        !0i64
    } else {
        0
    }
}

/// The number whose binary digits are bits `right` to `left` of `value`. It is negative where its
/// digits are more than its value can hold, and `value` is negative.
pub open spec fn slice_value(value: i64, left: usize, right: usize) -> i64 {
    if left - right < 63 {
        shifted(value, right) & ((((1u64 << ((left - right + 1) as u64)) - 1) as u64) as i64)
    } else {
        shifted(value, right)
    }
}

impl Integer {
    /// An integer without a given width.
    pub open spec fn plain(value: i64) -> Integer {
        Integer { value, explicit_width: None }
    }

    /// The number of bits that the integer is written out with: the given width, or else the
    /// number of its binary digits, or all of its bits where it is negative.
    pub open spec fn width(self) -> nat {
        match self.explicit_width {
            Some(width) => width as nat,
            None => if self.value < 0 {
                64
            } else {
                binary_digits(self.value as nat)
            },
        }
    }

    /// The bits that the integer is written out with, the highest first.
    pub open spec fn bits(self) -> Seq<bool> {
        low_bits(self.value, self.width())
    }

    /// Bits `right` to `left` of the integer, as an integer of just that width.
    pub open spec fn sliced(self, left: usize, right: usize) -> Integer {
        Integer {
            value: slice_value(self.value, left, right),
            explicit_width: Some((left - right + 1) as usize),
        }
    }

    /// An integer without a given width.
    pub fn new(value: i64) -> (r: Integer)
        ensures
            r == Integer::plain(value),
    {
        Integer { value, explicit_width: None }
    }

    /// The number of bits that the integer is written out with.
    pub fn get_width(&self) -> (r: usize)
        ensures
            r == self.width(),
    {
        match self.explicit_width {
            Some(width) => width,
            None => if self.value < 0 {
                64
            } else {
                proof {
                    lemma2_to64();
                    assert(pow2(64) == 0x10000000000000000);
                    lemma_binary_digits_bound(self.value as nat, 64);
                }
                count_binary_digits(self.value as u64)
            },
        }
    }

    /// Bit number `i` of the integer, the lowest being number 0.
    pub fn get_bit(&self, i: usize) -> (r: bool)
        ensures
            r == bit(self.value, i as int),
    {
        if i < 64 {
            (self.value >> (i as u64)) & 1 == 1
        } else {
            self.value < 0
        }
    }

    /// Bits `right` to `left` of the integer, as an integer of just that width.
    pub fn slice(&self, left: usize, right: usize) -> (r: Integer)
        requires
            right <= left,
            left - right < usize::MAX,
        ensures
            r == self.sliced(left, right),
    {
        let width: usize = left - right + 1;
        let shifted: i64 = if right < 64 {
            self.value >> (right as u64)
        } else if self.value < 0 {
            !0i64
        } else {
            0
        };
        let value: i64 = if width < 64 {
            let shift: u64 = width as u64;
            assert(1u64 << shift >= 1) by (bit_vector)
                requires
                    shift < 64,
            ;
            let mask: u64 = (1u64 << shift) - 1;
            shifted & (mask as i64)
        } else {
            shifted
        };
        Integer { value, explicit_width: Some(width) }
    }
}

proof fn lemma_binary_digits_bound(n: nat, k: nat)
    requires
        n < pow2(k),
        k >= 1,
    ensures
        binary_digits(n) <= k,
    decreases k,
{
    lemma2_to64();
    if n >= 2 {
        lemma_pow2_unfold(k);
        if k == 1 {
            assert(pow2(1) == 2);
        } else {
            lemma_binary_digits_bound(n / 2, (k - 1) as nat);
        }
    }
}

fn count_binary_digits(n: u64) -> (r: usize)
    requires
        binary_digits(n as nat) <= 64,
    ensures
        r == binary_digits(n as nat),
    decreases n,
{
    if n < 2 {
        1
    } else {
        1 + count_binary_digits(n / 2)
    }
}

proof fn lemma_shifted_bit(value: i64, right: usize, i: int)
    requires
        0 <= i,
    ensures
        bit(shifted(value, right), i) == bit(value, right + i),
        shifted(value, right) < 0 <==> value < 0,
{
    let r = right as u64;
    let k = i as u64;
    assert(!0i64 < 0) by (bit_vector);
    if right < 64 {
        assert(value >> r < 0 <==> value < 0) by (bit_vector)
            requires
                r < 64,
        ;
        if i < 64 {
            if right + i < 64 {
                assert(((value >> r) >> k) & 1 == (value >> ((r + k) as u64)) & 1) by (bit_vector)
                    requires
                        r + k < 64,
                ;
            } else {
                assert(((value >> r) >> k) & 1 == 1 <==> value < 0) by (bit_vector)
                    requires
                        r < 64,
                        k < 64,
                        r + k >= 64,
                ;
            }
        }
    } else if i < 64 {
        assert((!0i64 >> k) & 1 == 1 && (0i64 >> k) & 1 == 0) by (bit_vector)
            requires
                k < 64,
        ;
    }
}

/// Taking bits `right` to `left` of an integer keeps each of these bits: bit `i` of the slice is
/// bit `right + i` of the integer.
pub proof fn slice_keeps_bits(value: Integer, left: usize, right: usize, i: int)
    requires
        right <= left,
        left - right < usize::MAX,
        0 <= i <= left - right,
    ensures
        value.sliced(left, right).width() == left - right + 1,
        bit(value.sliced(left, right).value, i) == bit(value.value, right + i),
{
    lemma_shifted_bit(value.value, right, i);
    if left - right < 63 {
        let v = shifted(value.value, right);
        let w = (left - right + 1) as u64;
        let k = i as u64;
        assert(((v & ((((1u64 << w) - 1) as u64) as i64)) >> k) & 1 == (v >> k) & 1) by (bit_vector)
            requires
                w < 64,
                k < w,
        ;
    }
}

/// The bits of the slice from bit `width - 1` down to bit 0 are the `width` lowest bits of the
/// integer.
pub proof fn low_slice_is_low_bits(value: Integer, width: usize)
    requires
        0 < width,
    ensures
        value.sliced((width - 1) as usize, 0).bits() == low_bits(value.value, width as nat),
{
    let sliced = value.sliced((width - 1) as usize, 0);
    assert forall|k: int| 0 <= k < width implies sliced.bits()[k] == low_bits(
        value.value,
        width as nat,
    )[k] by {
        slice_keeps_bits(value, (width - 1) as usize, 0, width - 1 - k);
    }
    assert(sliced.bits() =~= low_bits(value.value, width as nat));
}

} // verus!
