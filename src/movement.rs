use vstd::prelude::*;

use crate::piece::Role;
use crate::square::{Direction, Square};

verus! {

/// Moving a stack of pieces consists of one or more `Movement`s: at each step,
/// how many pieces are carried on to the next square.
#[derive(Clone, Copy, PartialEq, Eq, Debug, Hash, Structural)]
pub struct Movement {
    pub pieces_to_take: u8,
}

/// The carry counts of a slide, one for each square that the slide steps onto.
#[derive(Clone, PartialEq, Eq, Debug, Hash)]
pub struct StackMovement {
    movements: Vec<Movement>,
}

/// The longest slide that a board of any supported size allows.
pub const MAX_SLIDE_STEPS: usize = 7;

impl StackMovement {
    /// The carry counts, in the order of the steps.
    pub closed spec fn carries(&self) -> Seq<int> {
        self.movements@.map_values(|m: Movement| m.pieces_to_take as int)
    }

    pub fn new() -> (r: StackMovement)
        ensures
            r.carries() == Seq::<int>::empty(),
    {
        let r = StackMovement { movements: Vec::new() };
        assert(r.carries() =~= Seq::<int>::empty());
        r
    }

    /// The first step: how many pieces are picked up.
    pub fn get_first<const S: usize>(&self) -> (r: Movement)
        requires
            self.carries().len() > 0,
        ensures
            r.pieces_to_take == self.carries()[0],
    {
        self.movements[0]
    }

    /// The carry count of step `i`.
    pub fn get(&self, i: usize) -> (r: Movement)
        requires
            i < self.carries().len(),
        ensures
            r.pieces_to_take == self.carries()[i as int],
    {
        self.movements[i]
    }

    /// Appends a step that carries `movement.pieces_to_take` of the `pieces_held` pieces onward.
    pub fn push<const S: usize>(&mut self, movement: Movement, pieces_held: u8)
        requires
            old(self).carries().len() < MAX_SLIDE_STEPS,
            pieces_held > 0,
            old(self).carries().len() == 0 || pieces_held > movement.pieces_to_take,
        ensures
            final(self).carries() == old(self).carries().push(movement.pieces_to_take as int),
    {
        let ghost before = self.carries();
        self.movements.push(movement);
        assert(self.carries() =~= before.push(movement.pieces_to_take as int));
    }

    pub fn len(&self) -> (r: usize)
        ensures
            r == self.carries().len(),
    {
        self.movements.len()
    }

    pub fn is_empty(&self) -> (r: bool)
        ensures
            r == (self.carries().len() == 0),
    {
        self.movements.len() == 0
    }

    /// The slide with the given steps.
    pub fn from_movements<const S: usize>(movements: Vec<Movement>) -> (r: StackMovement)
        ensures
            r.carries() == movements@.map_values(|m: Movement| m.pieces_to_take as int),
    {
        StackMovement { movements }
    }

    /// The steps, one at a time.
    pub fn into_iter<const S: usize>(self) -> (r: StackMovementIterator)
        ensures
            r.remaining() == self.carries(),
    {
        let r = StackMovementIterator { movements: self.movements, next: 0 };
        assert(r.remaining() =~= self.carries());
        r
    }

    /// A copy of the slide.
    pub fn duplicate(&self) -> (r: StackMovement)
        ensures
            r.carries() == self.carries(),
    {
        let mut movements: Vec<Movement> = Vec::new();
        let mut i: usize = 0;
        while i < self.movements.len()
            invariant
                i <= self.movements@.len(),
                movements@ == self.movements@.subrange(0, i as int),
            decreases self.movements@.len() - i,
        {
            movements.push(self.movements[i]);
            i = i + 1;
            assert(movements@ =~= self.movements@.subrange(0, i as int));
        }
        assert(movements@ =~= self.movements@);
        StackMovement { movements }
    }
}

/// The steps of a slide, taken one at a time.
pub struct StackMovementIterator {
    movements: Vec<Movement>,
    next: usize,
}

impl StackMovementIterator {
    /// The carry counts that are still to come.
    pub closed spec fn remaining(self) -> Seq<int> {
        self.movements@.subrange(self.next as int, self.movements@.len() as int).map_values(
            |m: Movement| m.pieces_to_take as int,
        )
    }

    pub closed spec fn wf(self) -> bool {
        self.next <= self.movements@.len()
    }

    pub fn next(&mut self) -> (r: Option<Movement>)
        requires
            old(self).wf(),
        ensures
            final(self).wf(),
            old(self).remaining().len() == 0 ==> r.is_none() && final(self).remaining() == old(self).remaining(),
            old(self).remaining().len() > 0 ==> r.is_some() && r.unwrap().pieces_to_take == old(self).remaining()[0]
                && final(self).remaining() == old(self).remaining().skip(1),
    {
        let ghost before = self.remaining();
        if self.next < self.movements.len() {
            let m = self.movements[self.next];
            self.next = self.next + 1;
            assert(self.remaining() =~= before.skip(1));
            Some(m)
        } else {
            None
        }
    }
}

/// A legal move for a position.
#[derive(Clone, PartialEq, Eq, Debug, Hash)]
pub enum Move {
    /// Places a new piece of the role on an empty square.
    Place(Role, Square),
    /// Slides pieces from the square in the direction, carrying the counts of the movement.
    Move(Square, Direction, StackMovement),
}

/// The counterpart of `Move`. When applied to a `Board`, it fully reverses the accompanying `Move`.
#[derive(Clone, PartialEq, Eq, Debug, Hash)]
pub enum ReverseMove {
    /// Takes back the piece placed on the square.
    Place(Square),
    /// Slides back from the square where a slide ended; the flag says that the
    /// slide flattened a wall there.
    Move(Square, Direction, StackMovement, bool),
}

} // verus!
