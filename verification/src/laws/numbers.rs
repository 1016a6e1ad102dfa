//! What numbers are: decimal digits, binary digits, the bits that are written out, and the numbers
//! that addresses and counts are.

use vstd::arithmetic::power2::{
    lemma2_to64,
    lemma2_to64_rest,
    lemma_pow2_pos,
    lemma_pow2_unfold,
    pow2,
};
use vstd::prelude::*;
use crate::bitvec::{laid, overlay, Piece};
use crate::error::{ErrorView, FailureView, Span};
use crate::expr::ExpressionValue;
use crate::integer::{binary_digits, bit, low_bits, Integer};
use crate::model::integer_extracted;
use crate::text::{decimal_number, decimal_text, decimal_value, digit_text, without_plus};

verus! {

// ---- Decimal numbers ----

/// How decimal numbers are read, digit by digit. Nothing is no number; one digit is the number of
/// that digit; a further digit multiplies by ten and adds, as long as a machine integer can hold
/// the number; anything but digits, behind one leading plus sign, is no number.
pub proof fn decimal_digits_are_read_one_by_one(text: Seq<char>, c: char)
    ensures
        decimal_number(Seq::empty()) is None,
        decimal_number(seq![c]) == (if '0' <= c && c <= '9' {
            Some((c as int - 48) as usize)
        } else {
            None
        }),
        text == seq!['+'] ==> decimal_number(text.push(c)) == (if '0' <= c && c <= '9' {
            Some((c as int - 48) as usize)
        } else {
            None
        }),
        text.len() > 0 && text != seq!['+'] ==> decimal_number(text.push(c)) == (
        match decimal_number(text) {
            Some(n) => if '0' <= c && c <= '9' && n * 10 + (c as int - 48) <= usize::MAX {
                Some((n * 10 + (c as int - 48)) as usize)
            } else {
                None
            },
            None => None,
        }),
{
    let one = seq![c];
    assert(one.drop_last() =~= Seq::<char>::empty());
    reveal_with_fuel(decimal_value, 3);
    assert(without_plus(Seq::<char>::empty()) =~= Seq::<char>::empty());
    if c == '+' {
        assert(without_plus(one) =~= Seq::<char>::empty());
    } else {
        assert(without_plus(one) == one);
        assert(one[0] == c);
    }
    if text == seq!['+'] {
        assert(without_plus(text.push(c)) =~= one);
        assert(one[0] == c);
    } else if text.len() > 0 {
        let digits = without_plus(text);
        let more = without_plus(text.push(c));
        assert(more =~= digits.push(c));
        assert(more.drop_last() =~= digits);
        if text.len() == 1 && text[0] == '+' {
            assert(text =~= seq!['+']);
        }
        assert(digits.len() > 0);
        assert(more[digits.len() as int] == c);
        if decimal_number(text) is None {
            if decimal_number(text.push(c)) is Some {
                assert forall|i: int| 0 <= i < digits.len() implies '0' <= #[trigger] digits[i]
                    && digits[i] <= '9' by {
                    assert(more[i] == digits[i]);
                    assert(crate::text::is_digit(more[i]));
                }
                assert(decimal_value(more) >= decimal_value(digits));
                assert(false);
            }
        } else {
            if '0' <= c && c <= '9' {
                assert forall|i: int| 0 <= i < more.len() implies crate::text::is_digit(
                    #[trigger] more[i],
                ) by {
                    if i < digits.len() {
                        assert(more[i] == digits[i]);
                        assert(crate::text::is_digit(digits[i]));
                    }
                }
            } else {
                assert(!crate::text::is_digit(more[digits.len() as int]));
            }
        }
    }
}

proof fn lemma_digit_text(d: nat)
    requires
        d < 10,
    ensures
        digit_text(d).len() == 1,
        digit_text(d)[0] as int == 48 + d,
{
    reveal_strlit("0");
    reveal_strlit("1");
    reveal_strlit("2");
    reveal_strlit("3");
    reveal_strlit("4");
    reveal_strlit("5");
    reveal_strlit("6");
    reveal_strlit("7");
    reveal_strlit("8");
    reveal_strlit("9");
}

/// A number that is written out reads back as that number; it is written with digits only, and
/// without a leading zero.
pub proof fn written_number_reads_back(n: usize)
    ensures
        decimal_number(decimal_text(n as nat)) == Some(n),
        decimal_text(n as nat).len() > 0,
        forall|i: int|
            0 <= i < decimal_text(n as nat).len() ==> '0' <= #[trigger] decimal_text(n as nat)[i]
                && decimal_text(n as nat)[i] <= '9',
        n > 0 ==> decimal_text(n as nat)[0] != '0',
    decreases n,
{
    let d = n as nat % 10;
    lemma_digit_text(d);
    let c = digit_text(d)[0];
    if n < 10 {
        assert(digit_text(n as nat) =~= seq![c]);
        decimal_digits_are_read_one_by_one(Seq::empty(), c);
    } else {
        let rest = (n / 10) as usize;
        written_number_reads_back(rest);
        let text = decimal_text(rest as nat);
        assert(decimal_text(n as nat) =~= text.push(c));
        assert(text[0] != '+');
        decimal_digits_are_read_one_by_one(text, c);
    }
}

// ---- Binary numbers ----

/// A number has as many binary digits as are needed, and no more; zero has one.
pub proof fn binary_digits_are_as_many_as_needed(n: nat)
    ensures
        binary_digits(n) > 0,
        n < pow2(binary_digits(n)),
        n > 0 ==> pow2((binary_digits(n) - 1) as nat) <= n,
        n == 0 ==> binary_digits(n) == 1,
    decreases n,
{
    lemma2_to64();
    if n >= 2 {
        binary_digits_are_as_many_as_needed(n / 2);
        lemma_pow2_unfold(binary_digits(n));
        lemma_pow2_unfold((binary_digits(n) - 1) as nat);
    }
}

/// The bits of a number are its binary digits. Those of a negative number are the opposite of those
/// of the number that is as far below zero as it is above minus one.
pub proof fn bits_are_binary_digits(value: i64, i: int)
    requires
        0 <= i,
    ensures
        value >= 0 ==> bit(value, i) == ((value as nat / pow2(i as nat)) % 2 == 1),
        value < 0 ==> bit(value, i) == !bit((-1 - value) as i64, i),
{
    let k = i as u64;
    if i < 64 {
        if value >= 0 {
            let u = value as u64;
            assert((value >> k) & 1 == 1 <==> (u >> k) % 2 == 1) by (bit_vector)
                requires
                    k < 64,
                    value >= 0,
                    u == value as u64,
            ;
            vstd::bits::lemma_u64_shr_is_div(u, k);
        } else {
            let other = (-1 - value) as i64;
            assert(((value >> k) & 1 == 1) == !((other >> k) & 1 == 1)) by (bit_vector)
                requires
                    k < 64,
                    value < 0,
                    other == (-1 - value) as i64,
            ;
        }
    } else if value >= 0 {
        lemma2_to64();
        lemma2_to64_rest();
        vstd::arithmetic::power2::lemma_pow2_adds(64, (i - 64) as nat);
        lemma_pow2_pos((i - 64) as nat);
        assert(pow2(i as nat) >= pow2(64)) by (nonlinear_arith)
            requires
                pow2(i as nat) == pow2(64) * pow2((i - 64) as nat),
                pow2((i - 64) as nat) >= 1,
        ;
        assert(value as nat / pow2(i as nat) == 0) by {
            vstd::arithmetic::div_mod::lemma_basic_div(value as int, pow2(i as nat) as int);
        }
    } else {
        assert((-1 - value) as i64 >= 0);
    }
}

/// The bits that a number is written out with: as many as are asked for, or else as many as it has
/// binary digits, or all that the machine has where it is negative; the highest comes first.
pub proof fn bits_are_written_highest_first(integer: Integer, k: int)
    ensures
        integer.bits().len() == (match integer.explicit_width {
            Some(width) => width as nat,
            None => if integer.value < 0 {
                64
            } else {
                binary_digits(integer.value as nat)
            },
        }),
        integer.width() == integer.bits().len(),
        0 <= k < integer.bits().len() ==> integer.bits()[k] == bit(
            integer.value,
            integer.bits().len() - 1 - k,
        ),
{
}

/// The same holds of the lowest bits of a number, as many as one likes.
pub proof fn low_bits_are_written_highest_first(value: i64, width: nat, k: int)
    ensures
        low_bits(value, width).len() == width,
        0 <= k < width ==> low_bits(value, width)[k] == bit(value, width - 1 - k),
{
}

/// A slice is a number of just the width that it spans, and no bit beyond its width is set: where
/// the machine has bits beyond, it is not negative and less than the power of two of its width.
pub proof fn slice_fits_its_width(value: Integer, left: usize, right: usize)
    requires
        right <= left,
        left - right < usize::MAX,
    ensures
        value.sliced(left, right).explicit_width == Some((left - right + 1) as usize),
        left - right < 63 ==> 0 <= value.sliced(left, right).value < pow2(
            (left - right + 1) as nat,
        ),
{
    if left - right < 63 {
        lemma_slice_is_small(value, left, right);
    }
}

proof fn lemma_slice_is_small(value: Integer, left: usize, right: usize)
    requires
        right <= left,
        left - right < 63,
    ensures
        0 <= value.sliced(left, right).value < pow2((left - right + 1) as nat),
{
    let w = (left - right + 1) as u64;
    let s = crate::integer::shifted(value.value, right);
    let mask = ((1u64 << w) - 1) as u64;
    assert(0 <= (s & (mask as i64)) <= mask) by (bit_vector)
        requires
            1 <= w < 64,
            mask == ((1u64 << w) - 1) as u64,
    ;
    assert((1u64 << w) >= 1) by (bit_vector)
        requires
            w < 64,
    ;
    lemma_pow2_pos(w as nat);
    vstd::bits::lemma_u64_pow2_no_overflow(w as nat);
    vstd::bits::lemma_u64_shl_is_mul(1, w);
}

// ---- Rows of bits ----

/// What writing a piece over a row of bits gives, position by position: the bits of the piece where
/// it is written, the old bits elsewhere, and zeros where nothing was written before. The row grows
/// as far as the piece reaches, and no further.
pub proof fn overlay_position_by_position(bits: Seq<bool>, index: int, piece: Seq<bool>, i: int)
    requires
        0 <= index,
    ensures
        overlay(bits, index, piece).len() == (if index + piece.len() > bits.len() {
            index + piece.len()
        } else {
            bits.len() as int
        }),
        0 <= i < overlay(bits, index, piece).len() ==> overlay(bits, index, piece)[i] == (if index
            <= i < index + piece.len() {
            piece[i - index]
        } else {
            i < bits.len() && bits[i]
        }),
{
}

/// Pieces are written one by one, each over what the pieces before it left.
pub proof fn pieces_are_laid_one_by_one(bits: Seq<bool>, pieces: Seq<Piece>, piece: Piece)
    ensures
        laid(bits, Seq::empty()) == bits,
        laid(bits, pieces.push(piece)) == overlay(laid(bits, pieces), piece.index, piece.bits),
{
    assert(pieces.push(piece) =~= pieces + seq![piece]);
    crate::bitvec::laid_joins(bits, pieces, seq![piece]);
    assert(seq![piece].drop_first() =~= Seq::<Piece>::empty());
    reveal_with_fuel(laid, 2);
}

// ---- Addresses and counts ----

/// A number that an address or a count may be is that address or count; a truth value is refused.
pub proof fn number_is_taken_as_it_is(value: ExpressionValue, span: Span)
    ensures
        match value {
            ExpressionValue::Integer(integer) => {
                &&& integer_extracted(value, span) is Ok
                &&& 0 <= integer.value <= usize::MAX ==> integer_extracted(value, span)->Ok_0
                    == integer.value
            },
            ExpressionValue::Boolean(_) => integer_extracted(value, span) == Err::<
                usize,
                FailureView,
            >(
                FailureView::Error(
                    ErrorView { message: "expected integer value"@, span },
                ),
            ),
        },
{
}

/// On a machine with addresses of the same size as numbers, a negative number counts down from the
/// highest address.
pub proof fn negative_number_wraps_round(integer: Integer, span: Span)
    requires
        usize::BITS == 64,
        integer.value < 0,
    ensures
        integer_extracted(ExpressionValue::Integer(integer), span) == Ok::<usize, FailureView>(
            (integer.value + 0x1_0000_0000_0000_0000) as usize,
        ),
{
    let v = integer.value;
    assert(v as u64 == v + 0x1_0000_0000_0000_0000) by (bit_vector)
        requires
            v < 0,
    ;
    assert(usize::BITS == 64 ==> v as usize == v as u64) by (bit_vector);
}

} // verus!
