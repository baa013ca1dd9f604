use vstd::prelude::*;

use crate::piece::{flat_of, Color, Piece, Role};

verus! {

/// The greatest height a stack can reach: one color bit for each piece below the top.
pub const MAX_STACK_HEIGHT: u8 = 128;

/// Bit `i` of a color mask: set for a White piece at that depth.
pub open spec fn mask_bit(b: u128, i: int) -> bool {
    ((b >> (i as u128)) & 1u128) == 1u128
}

/// The color that bit `i` of a mask records.
pub open spec fn mask_color(b: u128, i: int) -> Color {
    if mask_bit(b, i) {
        Color::White
    } else {
        Color::Black
    }
}

/// The stack with its top piece flattened: what lies below a newly placed piece.
pub open spec fn flatten_top(s: Seq<Piece>) -> Seq<Piece> {
    if s.len() == 0 {
        s
    } else {
        s.update(s.len() - 1, flat_of(s.last().color_of()))
    }
}

/// Every piece below the top of the stack is a flat stone.
pub open spec fn flat_below_top(s: Seq<Piece>) -> bool {
    forall|i: int| 0 <= i < s.len() - 1 ==> #[trigger] s[i].role_of() == Role::Flat
}

proof fn lemma_bit_set(b: u128, k: u128, i: u128)
    requires
        k < 128,
        i < 128,
    ensures
        ((b | (1u128 << k)) >> i) & 1u128 == (if i == k { 1u128 } else { (b >> i) & 1u128 }),
{
    assert(((b | (1u128 << k)) >> i) & 1u128 == (if i == k { 1u128 } else { (b >> i) & 1u128 })) by (bit_vector)
        requires
            k < 128,
            i < 128,
    ;
}

proof fn lemma_bit_clear(b: u128, k: u128, i: u128)
    requires
        k < 128,
        i < 128,
    ensures
        ((b & !(1u128 << k)) >> i) & 1u128 == (if i == k { 0u128 } else { (b >> i) & 1u128 }),
{
    assert(((b & !(1u128 << k)) >> i) & 1u128 == (if i == k { 0u128 } else { (b >> i) & 1u128 })) by (bit_vector)
        requires
            k < 128,
            i < 128,
    ;
}

proof fn lemma_bit_remove(b: u128, k: u128, j: u128)
    requires
        k < 127,
        j < 127,
    ensures
        ((((b & (((1u128 << k) - 1u128) as u128)) | ((b & !(((1u128 << ((k + 1) as u128)) - 1u128) as u128)) >> 1u128)) >> j) & 1u128)
            == (if j < k { (b >> j) & 1u128 } else { (b >> ((j + 1) as u128)) & 1u128 }),
{
    assert(((((b & (((1u128 << k) - 1u128) as u128)) | ((b & !(((1u128 << ((k + 1) as u128)) - 1u128) as u128)) >> 1u128)) >> j) & 1u128)
            == (if j < k { (b >> j) & 1u128 } else { (b >> ((j + 1) as u128)) & 1u128 })) by (bit_vector)
        requires
            k < 127,
            j < 127,
    ;
}

proof fn lemma_shift_positive(k: u128)
    requires
        k < 128,
    ensures
        (1u128 << k) >= 1u128,
{
    assert((1u128 << k) >= 1u128) by (bit_vector)
        requires
            k < 128,
    ;
}

proof fn lemma_bit_is_bool(b: u128, i: u128)
    ensures
        (b >> i) & 1u128 == 0u128 || (b >> i) & 1u128 == 1u128,
{
    assert((b >> i) & 1u128 == 0u128 || (b >> i) & 1u128 == 1u128) by (bit_vector);
}

/// The contents of a square on the board, consisting of zero or more pieces.
///
/// Only the top piece keeps its role. Below it every piece is a flat stone,
/// stored as one color bit per depth.
#[derive(Clone, Copy, PartialEq, Eq, Debug, Hash)]
pub struct Stack {
    top_stone: Option<Piece>,
    bitboard: u128,
    height: u8,
}

impl View for Stack {
    type V = Seq<Piece>;

    /// The pieces from the bottom up.
    closed spec fn view(&self) -> Seq<Piece> {
        Seq::new(
            self.height as nat,
            |i: int|
                if i == self.height - 1 {
                    self.top_stone.unwrap()
                } else {
                    flat_of(mask_color(self.bitboard, i))
                },
        )
    }
}

impl Stack {
    pub closed spec fn wf(self) -> bool {
        &&& self.height <= MAX_STACK_HEIGHT
        &&& (self.height == 0 <==> self.top_stone.is_none())
    }

    /// What is known of every well-formed stack: its height is bounded and
    /// every piece below the top is flat.
    pub proof fn lemma_wf(self)
        requires
            self.wf(),
        ensures
            self@.len() <= MAX_STACK_HEIGHT,
            flat_below_top(self@),
    {
    }

    /// An empty stack.
    pub fn new() -> (r: Stack)
        ensures
            r.wf(),
            r@ == Seq::<Piece>::empty(),
    {
        let r = Stack { top_stone: None, bitboard: 0, height: 0 };
        assert(r@ =~= Seq::<Piece>::empty());
        r
    }

    /// Get a piece by index. 0 is the bottom of the stack.
    pub fn get(&self, i: u8) -> (r: Option<Piece>)
        requires
            self.wf(),
        ensures
            r == (if (i as int) < self@.len() { Some(self@[i as int]) } else { None }),
    {
        if i >= self.height {
            None
        } else if i == self.height - 1 {
            self.top_stone
        } else if (self.bitboard >> (i as u128)) & 1 == 1 {
            Some(Piece::WhiteFlat)
        } else {
            Some(Piece::BlackFlat)
        }
    }

    pub fn top_stone(&self) -> (r: Option<Piece>)
        requires
            self.wf(),
        ensures
            r == (if self@.len() > 0 { Some(self@.last()) } else { None }),
    {
        self.top_stone
    }

    /// Push a new piece to the top of the stack.
    ///
    /// Any piece already on the stack will be flattened, including capstones.
    pub fn push(&mut self, piece: Piece)
        requires
            old(self).wf(),
            old(self)@.len() < MAX_STACK_HEIGHT,
        ensures
            final(self).wf(),
            final(self)@ == flatten_top(old(self)@).push(piece),
    {
        let ghost before = self@;
        if self.height > 0 {
            let k = (self.height - 1) as u128;
            let ghost b = self.bitboard;
            if self.top_stone.unwrap().color() == Color::White {
                self.bitboard = self.bitboard | (1u128 << k);
            } else {
                self.bitboard = self.bitboard & !(1u128 << k);
            }
            proof {
                assert forall|i: int| 0 <= i < 128 implies mask_bit(self.bitboard, i) == (if i == k {
                    before.last().color_of() == Color::White
                } else {
                    mask_bit(b, i)
                }) by {
                    lemma_bit_set(b, k, i as u128);
                    lemma_bit_clear(b, k, i as u128);
                }
            }
        }
        self.top_stone = Some(piece);
        self.height = self.height + 1;
        proof {
            let expect = flatten_top(before).push(piece);
            assert forall|i: int| 0 <= i < self@.len() implies self@[i] == expect[i] by {
                if i < before.len() - 1 {
                    lemma_bit_is_bool(self.bitboard, i as u128);
                }
            }
            assert(self@ =~= expect);
        }
    }

    /// Remove the top piece from the stack.
    ///
    /// Will not un-flatten a previously flattened stone.
    pub fn pop(&mut self) -> (r: Option<Piece>)
        requires
            old(self).wf(),
            old(self)@.len() > 0,
        ensures
            final(self).wf(),
            final(self)@ == old(self)@.drop_last(),
            r == Some(old(self)@.last()),
    {
        let ghost before = self@;
        let old_piece = self.top_stone;
        if self.height > 1 {
            let k = (self.height - 2) as u128;
            let piece = if (self.bitboard >> k) & 1 == 1 {
                Piece::WhiteFlat
            } else {
                Piece::BlackFlat
            };
            let ghost b = self.bitboard;
            self.bitboard = self.bitboard & !(1u128 << k);
            self.top_stone = Some(piece);
            proof {
                assert forall|i: int| 0 <= i < k implies mask_bit(self.bitboard, i) == mask_bit(b, i) by {
                    lemma_bit_clear(b, k, i as u128);
                }
            }
        } else {
            self.top_stone = None;
        }
        self.height = self.height - 1;
        proof {
            assert(self@ =~= before.drop_last());
        }
        old_piece
    }

    /// Replaces the top piece, and returns the piece that was there.
    pub fn replace_top(&mut self, piece: Piece) -> (r: Option<Piece>)
        requires
            old(self).wf(),
            old(self)@.len() > 0,
        ensures
            final(self).wf(),
            final(self)@ == old(self)@.update(old(self)@.len() - 1, piece),
            r == Some(old(self)@.last()),
    {
        let ghost before = self@;
        let r = self.top_stone;
        self.top_stone = Some(piece);
        proof {
            assert(self@ =~= before.update(before.len() - 1, piece));
        }
        r
    }

    /// Removes the piece at index `i`, 0 being the bottom, and returns it.
    pub fn remove(&mut self, i: u8) -> (r: Piece)
        requires
            old(self).wf(),
            (i as int) < old(self)@.len(),
        ensures
            final(self).wf(),
            final(self)@ == old(self)@.remove(i as int),
            r == old(self)@[i as int],
    {
        if i == self.height - 1 {
            let ghost before = self@;
            let r = self.pop();
            proof {
                assert(before.remove(i as int) =~= before.drop_last());
            }
            r.unwrap()
        } else {
            let ghost before = self@;
            let ghost b = self.bitboard;
            let piece = if (self.bitboard >> (i as u128)) & 1 == 1 {
                Piece::WhiteFlat
            } else {
                Piece::BlackFlat
            };
            let k = i as u128;
            proof {
                lemma_shift_positive(k);
                lemma_shift_positive((k + 1) as u128);
            }
            let pieces_below = self.bitboard & ((1u128 << k) - 1);
            let pieces_above = self.bitboard & !((1u128 << (k + 1)) - 1);
            self.bitboard = pieces_below | (pieces_above >> 1u128);
            self.height = self.height - 1;
            proof {
                assert forall|j: int| 0 <= j < 127 implies mask_bit(self.bitboard, j) == (if j < i {
                    mask_bit(b, j)
                } else {
                    mask_bit(b, j + 1)
                }) by {
                    lemma_bit_remove(b, k, j as u128);
                }
                assert(self@ =~= before.remove(i as int));
            }
            piece
        }
    }

    pub fn is_empty(&self) -> (r: bool)
        ensures
            r == (self@.len() == 0),
    {
        self.height == 0
    }

    pub fn len(&self) -> (r: u8)
        ensures
            r == self@.len(),
    {
        self.height
    }

    /// The pieces, from the bottom up, taken one at a time.
    pub fn into_iter(self) -> (r: StackIterator)
        ensures
            r.rest() == self,
    {
        StackIterator { stack: self }
    }
}

/// Takes the pieces of a stack one at a time, from the bottom up.
pub struct StackIterator {
    stack: Stack,
}

impl StackIterator {
    pub closed spec fn rest(self) -> Stack {
        self.stack
    }

    /// The bottom piece of what is left, or `None` once the stack is used up.
    pub fn next(&mut self) -> (r: Option<Piece>)
        requires
            old(self).rest().wf(),
        ensures
            final(self).rest().wf(),
            old(self).rest()@.len() == 0 ==> r.is_none() && final(self).rest()@ == old(self).rest()@,
            old(self).rest()@.len() > 0 ==> r == Some(old(self).rest()@[0])
                && final(self).rest()@ == old(self).rest()@.remove(0),
    {
        if self.stack.is_empty() {
            None
        } else {
            Some(self.stack.remove(0))
        }
    }
}

} // verus!
