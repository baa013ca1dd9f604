use vstd::prelude::*;

verus! {

/// A set of squares, one bit per square index.
#[derive(Clone, Copy, PartialEq, Eq, Debug, Hash, Structural)]
pub struct BitBoard {
    pub board: u64,
}

proof fn lemma_u64_bits(a: u64, b: u64, i: u64)
    requires
        i < 64,
    ensures
        ((a | b) >> i) & 1u64 == 1u64 <==> ((a >> i) & 1u64 == 1u64 || (b >> i) & 1u64 == 1u64),
        ((a | (1u64 << i)) >> i) & 1u64 == 1u64,
        (0u64 >> i) & 1u64 != 1u64,
{
    assert(((a | b) >> i) & 1u64 == 1u64 <==> ((a >> i) & 1u64 == 1u64 || (b >> i) & 1u64 == 1u64)) by (bit_vector)
        requires
            i < 64,
    ;
    assert(((a | (1u64 << i)) >> i) & 1u64 == 1u64) by (bit_vector)
        requires
            i < 64,
    ;
    assert((0u64 >> i) & 1u64 != 1u64) by (bit_vector);
}

proof fn lemma_u64_set_other(a: u64, i: u64, j: u64)
    requires
        i < 64,
        j < 64,
        i != j,
    ensures
        ((a | (1u64 << i)) >> j) & 1u64 == (a >> j) & 1u64,
{
    assert(((a | (1u64 << i)) >> j) & 1u64 == (a >> j) & 1u64) by (bit_vector)
        requires
            i < 64,
            j < 64,
            i != j,
    ;
}

impl BitBoard {
    /// Square `i` is in the set.
    pub open spec fn has(self, i: int) -> bool {
        0 <= i < 64 && ((self.board >> (i as u64)) & 1u64) == 1u64
    }

    pub fn empty() -> (r: BitBoard)
        ensures
            forall|i: int| !r.has(i),
    {
        let r = BitBoard { board: 0 };
        assert forall|i: int| !r.has(i) by {
            if 0 <= i < 64 {
                lemma_u64_bits(0, 0, i as u64);
            }
        }
        r
    }

    pub fn get(self, i: u8) -> (r: bool)
        requires
            i < 64,
        ensures
            r == self.has(i as int),
    {
        (self.board >> (i as u64)) & 1 == 1
    }

    /// The set with square `i` added.
    pub fn set(self, i: u8) -> (r: BitBoard)
        requires
            i < 64,
        ensures
            forall|j: int| r.has(j) == (j == i || self.has(j)),
    {
        let r = BitBoard { board: self.board | (1u64 << (i as u64)) };
        assert forall|j: int| r.has(j) == (j == i || self.has(j)) by {
            if 0 <= j < 64 {
                if j == i {
                    lemma_u64_bits(self.board, 0, i as u64);
                } else {
                    lemma_u64_set_other(self.board, i as u64, j as u64);
                }
            }
        }
        r
    }

    /// The union of the two sets.
    pub fn union(self, other: BitBoard) -> (r: BitBoard)
        ensures
            r.board == self.board | other.board,
            forall|j: int| r.has(j) == (self.has(j) || other.has(j)),
    {
        let r = BitBoard { board: self.board | other.board };
        assert forall|j: int| r.has(j) == (self.has(j) || other.has(j)) by {
            if 0 <= j < 64 {
                lemma_u64_bits(self.board, other.board, j as u64);
            }
        }
        r
    }
}

} // verus!
