use vstd::prelude::*;
use vstd::arithmetic::div_mod::lemma_fundamental_div_mod_converse;
use vstd::arithmetic::div_mod::lemma_fundamental_div_mod;
use vstd::arithmetic::div_mod::lemma_mod_pos_bound;

use crate::error::{parse_error, push_char};

verus! {

/// The board sizes that the engine supports.
pub open spec fn valid_size(s: int) -> bool {
    3 <= s <= 8
}

/// One of the four cardinal directions on the board
#[derive(Clone, Copy, PartialEq, Eq, Debug, Hash, Structural)]
pub enum Direction {
    North,
    West,
    East,
    South,
}

impl Direction {
    pub open spec fn opposite(self) -> Direction {
        match self {
            Direction::North => Direction::South,
            Direction::West => Direction::East,
            Direction::East => Direction::West,
            Direction::South => Direction::North,
        }
    }

    /// The glyph of the direction in move text.
    pub open spec fn glyph(self) -> char {
        match self {
            Direction::North => '+',
            Direction::West => '<',
            Direction::East => '>',
            Direction::South => '-',
        }
    }

    pub open spec fn from_glyph(ch: char) -> Option<Direction> {
        if ch == '+' {
            Some(Direction::North)
        } else if ch == '<' {
            Some(Direction::West)
        } else if ch == '>' {
            Some(Direction::East)
        } else if ch == '-' {
            Some(Direction::South)
        } else {
            None
        }
    }

    pub fn reverse(self) -> (r: Direction)
        ensures
            r == self.opposite(),
    {
        match self {
            Direction::North => Direction::South,
            Direction::West => Direction::East,
            Direction::East => Direction::West,
            Direction::South => Direction::North,
        }
    }

    /// The two directions at a right angle to this one.
    pub fn orthogonal_directions(self) -> (r: [Direction; 2])
        ensures
            r@.len() == 2,
            r@[0] != self && r@[0] != self.opposite(),
            r@[1] != self && r@[1] != self.opposite(),
            r@[0] != r@[1],
    {
        match self {
            Direction::North | Direction::South => [Direction::West, Direction::East],
            Direction::West | Direction::East => [Direction::North, Direction::South],
        }
    }

    /// Reads a direction glyph: `+`, `<`, `>` or `-`.
    pub fn parse(ch: char) -> (r: Option<Direction>)
        ensures
            r == Direction::from_glyph(ch),
    {
        if ch == '+' {
            Some(Direction::North)
        } else if ch == '<' {
            Some(Direction::West)
        } else if ch == '>' {
            Some(Direction::East)
        } else if ch == '-' {
            Some(Direction::South)
        } else {
            None
        }
    }

    pub fn to_glyph(self) -> (r: char)
        ensures
            r == self.glyph(),
    {
        match self {
            Direction::North => '+',
            Direction::West => '<',
            Direction::East => '>',
            Direction::South => '-',
        }
    }
}

pub proof fn lemma_glyph_round_trip(d: Direction)
    ensures
        Direction::from_glyph(d.glyph()) == Some(d),
{
}

/// A location on the board. Square `file * S + rank` lies on the given rank and file.
#[derive(Clone, Copy, PartialEq, Eq, Debug, Hash, Structural)]
pub struct Square(pub u8);

/// The rank of square index `sq` on a board of side `s`.
pub open spec fn rank_of(sq: int, s: int) -> int {
    sq % s
}

/// The file of square index `sq` on a board of side `s`.
pub open spec fn file_of(sq: int, s: int) -> int {
    sq / s
}

/// The square `len` steps from `sq` in direction `d`, if it is on the board.
/// North lowers the rank, South raises it; West lowers the file, East raises it.
pub open spec fn jump(sq: int, s: int, d: Direction, len: int) -> Option<int> {
    let r = rank_of(sq, s);
    let f = file_of(sq, s);
    match d {
        Direction::North => if r >= len { Some(sq - len) } else { None },
        Direction::South => if r + len < s { Some(sq + len) } else { None },
        Direction::West => if f >= len { Some(sq - len * s) } else { None },
        Direction::East => if f + len < s { Some(sq + len * s) } else { None },
    }
}

/// The adjacent square in direction `d`, if any.
pub open spec fn step(sq: int, s: int, d: Direction) -> Option<int> {
    jump(sq, s, d, 1)
}

/// `b` is adjacent to `a` on a board of side `s`.
pub open spec fn is_neighbour(a: int, b: int, s: int) -> bool {
    ||| step(a, s, Direction::North) == Some(b)
    ||| step(a, s, Direction::West) == Some(b)
    ||| step(a, s, Direction::East) == Some(b)
    ||| step(a, s, Direction::South) == Some(b)
}

/// The text form of a square: the file letter, then the rank number counted from the South edge.
pub open spec fn square_text(sq: int, s: int) -> Seq<char> {
    seq![((97 + file_of(sq, s)) as u8) as char, ((48 + s - rank_of(sq, s)) as u8) as char]
}

/// The square that a text form names, if it is one of the board's squares.
pub open spec fn parse_square_text(t: Seq<char>, s: int) -> Option<int> {
    if t.len() == 2 && 'a' <= t[0] && (t[0] as int) < 97 + s && '1' <= t[1] && (t[1] as int) < 49 + s {
        Some((t[0] as int - 97) * s + (s - (t[1] as int - 48)))
    } else {
        None
    }
}

pub proof fn lemma_coords(sq: int, s: int)
    requires
        s > 0,
        0 <= sq < s * s,
    ensures
        sq == file_of(sq, s) * s + rank_of(sq, s),
        0 <= rank_of(sq, s) < s,
        0 <= file_of(sq, s) < s,
{
    lemma_fundamental_div_mod(sq, s);
    lemma_mod_pos_bound(sq, s);
    assert(s * (sq / s) == (sq / s) * s) by (nonlinear_arith);
    assert(0 <= file_of(sq, s) < s) by (nonlinear_arith)
        requires
            sq == file_of(sq, s) * s + rank_of(sq, s),
            0 <= rank_of(sq, s) < s,
            0 <= sq < s * s,
            s > 0,
    ;
}

pub proof fn lemma_from_coords(f: int, r: int, s: int)
    requires
        s > 0,
        0 <= r < s,
        0 <= f < s,
    ensures
        rank_of(f * s + r, s) == r,
        file_of(f * s + r, s) == f,
        0 <= f * s + r < s * s,
{
    lemma_fundamental_div_mod_converse(f * s + r, s, f, r);
    assert(0 <= f * s + r < s * s) by (nonlinear_arith)
        requires
            0 <= r < s,
            0 <= f < s,
    ;
}

/// Where a jump lands: on the board, `len` ranks or files further.
pub proof fn lemma_jump(sq: int, s: int, d: Direction, len: int)
    requires
        s > 0,
        0 <= sq < s * s,
        len >= 0,
        jump(sq, s, d, len).is_some(),
    ensures
        ({
            let t = jump(sq, s, d, len).unwrap();
            &&& 0 <= t < s * s
            &&& d == Direction::North ==> rank_of(t, s) == rank_of(sq, s) - len && file_of(t, s) == file_of(sq, s)
            &&& d == Direction::South ==> rank_of(t, s) == rank_of(sq, s) + len && file_of(t, s) == file_of(sq, s)
            &&& d == Direction::West ==> rank_of(t, s) == rank_of(sq, s) && file_of(t, s) == file_of(sq, s) - len
            &&& d == Direction::East ==> rank_of(t, s) == rank_of(sq, s) && file_of(t, s) == file_of(sq, s) + len
        }),
{
    lemma_coords(sq, s);
    let r = rank_of(sq, s);
    let f = file_of(sq, s);
    match d {
        Direction::North => {
            lemma_from_coords(f, r - len, s);
        },
        Direction::South => {
            lemma_from_coords(f, r + len, s);
        },
        Direction::West => {
            assert((f - len) * s + r == sq - len * s) by (nonlinear_arith)
                requires sq == f * s + r;
            lemma_from_coords(f - len, r, s);
        },
        Direction::East => {
            assert((f + len) * s + r == sq + len * s) by (nonlinear_arith)
                requires sq == f * s + r;
            lemma_from_coords(f + len, r, s);
        },
    }
}

/// A step and a step back in the opposite direction return to the start.
pub proof fn lemma_step_back(a: int, s: int, d: Direction)
    requires
        s > 0,
        0 <= a < s * s,
        step(a, s, d).is_some(),
    ensures
        step(step(a, s, d).unwrap(), s, d.opposite()) == Some(a),
{
    lemma_jump(a, s, d, 1);
    let t = step(a, s, d).unwrap();
    lemma_coords(a, s);
    lemma_coords(t, s);
    match d {
        Direction::North => assert(step(t, s, Direction::South) == Some(a)),
        Direction::South => assert(step(t, s, Direction::North) == Some(a)),
        Direction::West => assert(step(t, s, Direction::East) == Some(a)),
        Direction::East => assert(step(t, s, Direction::West) == Some(a)),
    }
}

/// Adjacency is symmetric: `b` is a neighbour of `a` exactly when `a` is a neighbour of `b`.
pub proof fn lemma_neighbour_symmetry(a: int, b: int, s: int)
    requires
        s > 0,
        0 <= a < s * s,
        0 <= b < s * s,
    ensures
        is_neighbour(a, b, s) <==> is_neighbour(b, a, s),
{
    if is_neighbour(a, b, s) {
        if step(a, s, Direction::North) == Some(b) {
            lemma_step_back(a, s, Direction::North);
        } else if step(a, s, Direction::West) == Some(b) {
            lemma_step_back(a, s, Direction::West);
        } else if step(a, s, Direction::East) == Some(b) {
            lemma_step_back(a, s, Direction::East);
        } else {
            lemma_step_back(a, s, Direction::South);
        }
    }
    if is_neighbour(b, a, s) {
        if step(b, s, Direction::North) == Some(a) {
            lemma_step_back(b, s, Direction::North);
        } else if step(b, s, Direction::West) == Some(a) {
            lemma_step_back(b, s, Direction::West);
        } else if step(b, s, Direction::East) == Some(a) {
            lemma_step_back(b, s, Direction::East);
        } else {
            lemma_step_back(b, s, Direction::South);
        }
    }
}

/// Reading the text form of a square gives the square back.
pub proof fn lemma_square_text_round_trip(sq: int, s: int)
    requires
        valid_size(s),
        0 <= sq < s * s,
    ensures
        parse_square_text(square_text(sq, s), s) == Some(sq),
{
    lemma_coords(sq, s);
    let t = square_text(sq, s);
    assert(t[0] as int == 97 + file_of(sq, s));
    assert(t[1] as int == 48 + s - rank_of(sq, s));
}

impl Square {
    pub open spec fn index(self) -> int {
        self.0 as int
    }

    pub open spec fn on_board(self, s: int) -> bool {
        (self.0 as int) < s * s
    }

    pub fn from_rank_file<const S: usize>(rank: u8, file: u8) -> (r: Square)
        requires
            valid_size(S as int),
            rank < S,
            file < S,
        ensures
            r.index() == (file as int) * (S as int) + (rank as int),
            rank_of(r.index(), S as int) == rank,
            file_of(r.index(), S as int) == file,
            r.on_board(S as int),
    {
        proof {
            lemma_from_coords(file as int, rank as int, S as int);
        }
        assert(file * S + rank < 64) by (nonlinear_arith)
            requires
                rank < S,
                file < S,
                S <= 8,
        ;
        Square(file * (S as u8) + rank)
    }

    pub fn rank<const S: usize>(self) -> (r: u8)
        requires
            valid_size(S as int),
        ensures
            r == rank_of(self.index(), S as int),
    {
        self.0 % (S as u8)
    }

    pub fn file<const S: usize>(self) -> (r: u8)
        requires
            valid_size(S as int),
        ensures
            r == file_of(self.index(), S as int),
    {
        self.0 / (S as u8)
    }

    /// The square `len` steps away in `direction`, or `None` past the board's edge.
    pub fn jump_direction<const S: usize>(self, direction: Direction, len: u8) -> (r: Option<Square>)
        requires
            valid_size(S as int),
            self.on_board(S as int),
        ensures
            r.is_some() == jump(self.index(), S as int, direction, len as int).is_some(),
            r.is_some() ==> r.unwrap().index() == jump(self.index(), S as int, direction, len as int).unwrap(),
            r.is_some() ==> r.unwrap().on_board(S as int),
    {
        proof {
            lemma_coords(self.index(), S as int);
        }
        let rank = self.rank::<S>();
        let file = self.file::<S>();
        match direction {
            Direction::North => {
                if rank >= len {
                    let r = Square::from_rank_file::<S>(rank - len, file);
                    assert(r.index() == self.index() - len) by (nonlinear_arith)
                        requires
                            r.index() == (file as int) * (S as int) + (rank - len),
                            self.index() == (file as int) * (S as int) + (rank as int),
                    ;
                    Some(r)
                } else {
                    None
                }
            },
            Direction::West => {
                if file >= len {
                    let r = Square::from_rank_file::<S>(rank, file - len);
                    assert(r.index() == self.index() - len * S) by (nonlinear_arith)
                        requires
                            r.index() == (file - len) * (S as int) + (rank as int),
                            self.index() == (file as int) * (S as int) + (rank as int),
                    ;
                    Some(r)
                } else {
                    None
                }
            },
            Direction::East => {
                if (file as usize) + (len as usize) < S {
                    let r = Square::from_rank_file::<S>(rank, file + len);
                    assert(r.index() == self.index() + len * S) by (nonlinear_arith)
                        requires
                            r.index() == (file + len) * (S as int) + (rank as int),
                            self.index() == (file as int) * (S as int) + (rank as int),
                    ;
                    Some(r)
                } else {
                    None
                }
            },
            Direction::South => {
                if (rank as usize) + (len as usize) < S {
                    Some(Square::from_rank_file::<S>(rank + len, file))
                } else {
                    None
                }
            },
        }
    }

    /// The adjacent square in `direction`, or `None` at the board's edge.
    pub fn go_direction<const S: usize>(self, direction: Direction) -> (r: Option<Square>)
        requires
            valid_size(S as int),
            self.on_board(S as int),
        ensures
            r.is_some() == step(self.index(), S as int, direction).is_some(),
            r.is_some() ==> r.unwrap().index() == step(self.index(), S as int, direction).unwrap(),
            r.is_some() ==> r.unwrap().on_board(S as int),
    {
        self.jump_direction::<S>(direction, 1)
    }

    /// The directions in which the square has a neighbour, each once.
    pub fn directions<const S: usize>(self) -> (r: Vec<Direction>)
        requires
            valid_size(S as int),
            self.on_board(S as int),
        ensures
            r@.no_duplicates(),
            forall|d: Direction| r@.contains(d) <==> step(self.index(), S as int, d).is_some(),
    {
        broadcast use vstd::seq_lib::lemma_seq_contains_after_push;

        let mut r: Vec<Direction> = Vec::new();
        if self.go_direction::<S>(Direction::North).is_some() {
            r.push(Direction::North);
        }
        if self.go_direction::<S>(Direction::West).is_some() {
            r.push(Direction::West);
        }
        if self.go_direction::<S>(Direction::East).is_some() {
            r.push(Direction::East);
        }
        if self.go_direction::<S>(Direction::South).is_some() {
            r.push(Direction::South);
        }
        assert forall|d: Direction| r@.contains(d) <==> step(self.index(), S as int, d).is_some() by {
            if step(self.index(), S as int, d).is_some() {
                assert(r@.contains(d));
            }
        }
        r
    }

    /// The adjacent squares: 2 for a corner, 3 on an edge, 4 otherwise, each once.
    pub fn neighbours<const S: usize>(self) -> (r: Vec<Square>)
        requires
            valid_size(S as int),
            self.on_board(S as int),
        ensures
            r@.no_duplicates(),
            forall|i: int| 0 <= i < r@.len() ==> r@[i].on_board(S as int),
            forall|b: Square| r@.contains(b) <==> is_neighbour(self.index(), b.index(), S as int),
    {
        broadcast use vstd::seq_lib::lemma_seq_contains_after_push;

        let ghost s = S as int;
        let ghost a = self.index();
        proof {
            lemma_coords(a, s);
        }
        let mut r: Vec<Square> = Vec::new();
        if let Some(n) = self.go_direction::<S>(Direction::North) {
            r.push(n);
        }
        if let Some(w) = self.go_direction::<S>(Direction::West) {
            r.push(w);
        }
        if let Some(e) = self.go_direction::<S>(Direction::East) {
            r.push(e);
        }
        if let Some(so) = self.go_direction::<S>(Direction::South) {
            r.push(so);
        }
        assert forall|b: Square| r@.contains(b) <==> is_neighbour(a, b.index(), s) by {
            if is_neighbour(a, b.index(), s) {
                assert(r@.contains(b));
            }
        }
        r
    }

    /// Reads the text form of a square, such as `c3`.
    pub fn parse_square<const S: usize>(input: &str) -> (r: Result<Square, pgn_traits::Error>)
        requires
            valid_size(S as int),
        ensures
            r.is_ok() <==> parse_square_text(input@, S as int).is_some(),
            r.is_ok() ==> r.unwrap().index() == parse_square_text(input@, S as int).unwrap(),
            r.is_ok() ==> r.unwrap().on_board(S as int),
    {
        if input.unicode_len() != 2 {
            return Err(parse_error("Couldn't parse square", input));
        }
        let c0 = input.get_char(0);
        let c1 = input.get_char(1);
        if 'a' <= c0 && (c0 as u32) < 97 + S as u32 && '1' <= c1 && (c1 as u32) < 49 + S as u32 {
            let file = (c0 as u32 - 97) as u8;
            let rank = (S as u32 - (c1 as u32 - 48)) as u8;
            Ok(Square::from_rank_file::<S>(rank, file))
        } else {
            Err(parse_error("Couldn't parse square", input))
        }
    }

    /// The text form of the square, such as `c3`.
    pub fn to_string<const S: usize>(self) -> (r: String)
        requires
            valid_size(S as int),
            self.on_board(S as int),
        ensures
            r@ == square_text(self.index(), S as int),
    {
        proof {
            lemma_coords(self.index(), S as int);
        }
        let mut r = String::new();
        push_char(&mut r, (97 + self.file::<S>()) as char);
        push_char(&mut r, (48 + S as u8 - self.rank::<S>()) as char);
        assert(r@ =~= square_text(self.index(), S as int));
        r
    }
}

/// All the squares of the board, in index order.
pub fn squares_iterator<const S: usize>() -> (r: Vec<Square>)
    requires
        valid_size(S as int),
    ensures
        r@.len() == S * S,
        forall|i: int| 0 <= i < r@.len() ==> r@[i].index() == i,
{
    let mut r: Vec<Square> = Vec::new();
    let mut i: u8 = 0;
    assert(S * S <= 64) by (nonlinear_arith)
        requires
            S <= 8,
    ;
    while (i as usize) < S * S
        invariant
            S * S <= 64,
            i <= S * S,
            r@.len() == i,
            forall|j: int| 0 <= j < r@.len() ==> r@[j].index() == j,
        decreases S * S - i,
    {
        r.push(Square(i));
        i = i + 1;
    }
    r
}

} // verus!
