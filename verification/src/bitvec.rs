//! The output of an assembly: a row of bits that grows as far as it is written.

use vstd::prelude::*;
use crate::integer::{bit, Integer};

verus! {

/// `bits` with `piece` written over it from position `index` on. Positions that were never
/// written hold a zero.
pub open spec fn overlay(bits: Seq<bool>, index: int, piece: Seq<bool>) -> Seq<bool> {
    let end = index + piece.len();
    let length = if bits.len() < end {
        end as nat
    } else {
        bits.len()
    };
    Seq::new(
        length,
        |i: int|
            if index <= i < end {
                piece[i - index]
            } else if i < bits.len() {
                bits[i]
            } else {
                false
            },
    )
}

/// Bits, and the position from which on they are written.
#[verifier::ext_equal]
pub struct Piece {
    pub index: int,
    pub bits: Seq<bool>,
}

impl Piece {
    /// Whether the piece is written over position `i`.
    pub open spec fn covers(self, i: int) -> bool {
        self.index <= i < self.index + self.bits.len()
    }
}

/// `bits` with pieces written over it, one after the other.
pub open spec fn laid(bits: Seq<bool>, pieces: Seq<Piece>) -> Seq<bool>
    decreases pieces.len(),
{
    if pieces.len() == 0 {
        bits
    } else {
        laid(overlay(bits, pieces[0].index, pieces[0].bits), pieces.drop_first())
    }
}

/// The bit that pieces leave at position `i`: that of the last one that covers it, or none where
/// none covers it.
pub open spec fn piece_bit(pieces: Seq<Piece>, i: int) -> Option<bool>
    decreases pieces.len(),
{
    if pieces.len() == 0 {
        None
    } else if piece_bit(pieces.drop_first(), i) is Some {
        piece_bit(pieces.drop_first(), i)
    } else if pieces[0].covers(i) {
        Some(pieces[0].bits[i - pieces[0].index])
    } else {
        None
    }
}

/// The bit at position `i`, where what was never written counts as zero.
pub open spec fn bit_at(bits: Seq<bool>, i: int) -> bool {
    0 <= i < bits.len() && bits[i]
}

/// A row of bits.
#[derive(Debug)]
pub struct BitVec {
    pub bits: Vec<bool>,
}

impl View for BitVec {
    type V = Seq<bool>;

    open spec fn view(&self) -> Seq<bool> {
        self.bits@
    }
}

impl BitVec {
    /// A row of no bits.
    pub fn new() -> (r: BitVec)
        ensures
            r@ == Seq::<bool>::empty(),
    {
        BitVec { bits: Vec::new() }
    }

    /// Writes the bits of `value` from position `index` on, the highest bit first.
    pub fn set(&mut self, index: usize, value: &Integer)
        requires
            index + value.width() <= usize::MAX,
        ensures
            final(self)@ == overlay(old(self)@, index as int, value.bits()),
    {
        let width: usize = value.get_width();
        let end: usize = index + width;
        while self.bits.len() < end
            invariant
                self.bits@.len() >= old(self).bits@.len(),
                self.bits@.len() <= old(self).bits@.len() || self.bits@.len() <= end,
                forall|i: int|
                    0 <= i < self.bits@.len() ==> #[trigger] self.bits@[i] == (if i
                        < old(self).bits@.len() {
                        old(self).bits@[i]
                    } else {
                        false
                    }),
            decreases end - self.bits@.len(),
        {
            self.bits.push(false);
        }
        let ghost padded = self.bits@;
        let mut k: usize = 0;
        while k < width
            invariant
                k <= width,
                width == value.width(),
                end == index + width,
                end <= self.bits@.len(),
                self.bits@.len() == padded.len(),
                forall|i: int|
                    0 <= i < self.bits@.len() ==> #[trigger] self.bits@[i] == (if index <= i
                        < index + k {
                        bit(value.value, width - 1 - (i - index))
                    } else {
                        padded[i]
                    }),
            decreases width - k,
        {
            let b: bool = value.get_bit(width - 1 - k);
            self.bits.set(index + k, b);
            k = k + 1;
        }
        assert(self.bits@ =~= overlay(old(self)@, index as int, value.bits()));
    }
}

/// What was written last is what stands there: reading back the written positions gives the
/// written bits, and every other position keeps its bit.
pub proof fn overlay_reads_back(bits: Seq<bool>, index: int, piece: Seq<bool>)
    requires
        0 <= index,
    ensures
        overlay(bits, index, piece).subrange(index, index + piece.len()) == piece,
        forall|i: int|
            0 <= i < bits.len() && !(index <= i < index + piece.len()) ==> #[trigger] overlay(
                bits,
                index,
                piece,
            )[i] == bits[i],
        forall|i: int|
            bits.len() <= i < index ==> i < overlay(bits, index, piece).len()
                && !#[trigger] overlay(bits, index, piece)[i],
{
    assert(overlay(bits, index, piece).subrange(index, index + piece.len()) =~= piece);
}

/// After pieces were written, each position that one of them covers holds the bit that they leave
/// there, and every other position is as it was before.
pub proof fn laid_reads_back(bits: Seq<bool>, pieces: Seq<Piece>, i: int)
    requires
        0 <= i,
    ensures
        bits.len() <= laid(bits, pieces).len(),
        match piece_bit(pieces, i) {
            Some(b) => i < laid(bits, pieces).len() && laid(bits, pieces)[i] == b,
            None => bit_at(laid(bits, pieces), i) == bit_at(bits, i),
        },
    decreases pieces.len(),
{
    if pieces.len() > 0 {
        laid_reads_back(
            overlay(bits, pieces[0].index, pieces[0].bits),
            pieces.drop_first(),
            i,
        );
    }
}

/// Writing two runs of pieces, one after the other, is writing the pieces of both.
pub proof fn laid_joins(bits: Seq<bool>, first: Seq<Piece>, second: Seq<Piece>)
    ensures
        laid(bits, first + second) == laid(laid(bits, first), second),
    decreases first.len(),
{
    if first.len() == 0 {
        assert(first + second =~= second);
    } else {
        assert((first + second).drop_first() =~= first.drop_first() + second);
        laid_joins(
            overlay(bits, first[0].index, first[0].bits),
            first.drop_first(),
            second,
        );
    }
}

/// Of two runs of pieces, the second decides about a position that it covers.
pub proof fn later_pieces_decide(first: Seq<Piece>, second: Seq<Piece>, i: int)
    ensures
        piece_bit(first + second, i) == (if piece_bit(second, i) is Some {
            piece_bit(second, i)
        } else {
            piece_bit(first, i)
        }),
    decreases first.len(),
{
    if first.len() == 0 {
        assert(first + second =~= second);
    } else {
        assert((first + second).drop_first() =~= first.drop_first() + second);
        later_pieces_decide(first.drop_first(), second, i);
    }
}

/// Two pieces that share no position may be written in either order.
pub proof fn overlay_commutes(bits: Seq<bool>, i: int, a: Seq<bool>, j: int, b: Seq<bool>)
    requires
        0 <= i,
        0 <= j,
        i + a.len() <= j || j + b.len() <= i,
    ensures
        overlay(overlay(bits, i, a), j, b) == overlay(overlay(bits, j, b), i, a),
{
    assert(overlay(overlay(bits, i, a), j, b) =~= overlay(overlay(bits, j, b), i, a));
}

} // verus!
