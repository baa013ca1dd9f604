use vstd::prelude::*;

use crate::bitboard::BitBoard;
use crate::board::{AbstractBoard, Board, BoardModel};
use crate::components::{
    connected, connected_components_graph, labels_closed, labels_sound, lemma_same_label_iff_connected,
    lemma_unlabelled_bound, label_is_new,
};
use crate::piece::{flat_count_result, Color, GameResult, Komi, Piece, Role};
use crate::square::{file_of, is_neighbour, rank_of, valid_size, Square};

verus! {

/// The board edges that a group of road pieces touches.
#[derive(Clone, Copy, PartialEq, Eq, Debug, Hash, Structural)]
pub struct GroupEdgeConnection {
    data: u8,
}

proof fn lemma_u8_or(a: u8, b: u8, k: u8)
    ensures
        ((a | b) & k != 0) == ((a & k != 0) || (b & k != 0)),
        (0u8 & k) == 0,
{
    assert(((a | b) & k != 0) == ((a & k != 0) || (b & k != 0))) by (bit_vector);
    assert((0u8 & k) == 0) by (bit_vector);
}

/// A square on the North edge: the rank that North leads off the board from.
pub open spec fn on_north_edge(sq: int, s: int) -> bool {
    rank_of(sq, s) == 0
}

pub open spec fn on_south_edge(sq: int, s: int) -> bool {
    rank_of(sq, s) == s - 1
}

pub open spec fn on_west_edge(sq: int, s: int) -> bool {
    file_of(sq, s) == 0
}

pub open spec fn on_east_edge(sq: int, s: int) -> bool {
    file_of(sq, s) == s - 1
}

impl GroupEdgeConnection {
    pub closed spec fn north(self) -> bool {
        self.data & 8 != 0
    }

    pub closed spec fn west(self) -> bool {
        self.data & 4 != 0
    }

    pub closed spec fn east(self) -> bool {
        self.data & 2 != 0
    }

    pub closed spec fn south(self) -> bool {
        self.data & 1 != 0
    }

    /// A road: both North and South edges, or both East and West edges.
    pub open spec fn winning(self) -> bool {
        (self.north() && self.south()) || (self.east() && self.west())
    }

    /// Touches no edge.
    pub fn new() -> (r: GroupEdgeConnection)
        ensures
            !r.north() && !r.west() && !r.east() && !r.south(),
    {
        proof {
            lemma_u8_or(0, 0, 8);
            lemma_u8_or(0, 0, 4);
            lemma_u8_or(0, 0, 2);
            lemma_u8_or(0, 0, 1);
        }
        GroupEdgeConnection { data: 0 }
    }

    /// Adds the edges that `square` lies on.
    pub fn connect_square<const S: usize>(self, square: Square) -> (r: GroupEdgeConnection)
        requires
            valid_size(S as int),
        ensures
            r.north() == (self.north() || on_north_edge(square.index(), S as int)),
            r.south() == (self.south() || on_south_edge(square.index(), S as int)),
            r.west() == (self.west() || on_west_edge(square.index(), S as int)),
            r.east() == (self.east() || on_east_edge(square.index(), S as int)),
    {
        let mut edge_connection = self;
        if square.rank::<S>() == 0 {
            edge_connection = edge_connection.connect_north();
        }
        if square.rank::<S>() == S as u8 - 1 {
            edge_connection = edge_connection.connect_south();
        }
        if square.file::<S>() == 0 {
            edge_connection = edge_connection.connect_west();
        }
        if square.file::<S>() == S as u8 - 1 {
            edge_connection = edge_connection.connect_east();
        }
        edge_connection
    }

    pub fn is_winning(self) -> (r: bool)
        ensures
            r == self.winning(),
    {
        self.is_connected_north() && self.is_connected_south() || self.is_connected_east() && self.is_connected_west()
    }

    pub fn is_connected_north(self) -> (r: bool)
        ensures
            r == self.north(),
    {
        self.data & 8 != 0
    }

    pub fn connect_north(self) -> (r: GroupEdgeConnection)
        ensures
            r.north(),
            r.west() == self.west(),
            r.east() == self.east(),
            r.south() == self.south(),
    {
        proof {
            lemma_u8_or(self.data, 8, 8);
            lemma_u8_or(self.data, 8, 4);
            lemma_u8_or(self.data, 8, 2);
            lemma_u8_or(self.data, 8, 1);
            assert(8u8 & 8 != 0 && 8u8 & 4 == 0 && 8u8 & 2 == 0 && 8u8 & 1 == 0) by (bit_vector);
        }
        GroupEdgeConnection { data: self.data | 8 }
    }

    pub fn is_connected_west(self) -> (r: bool)
        ensures
            r == self.west(),
    {
        self.data & 4 != 0
    }

    pub fn connect_west(self) -> (r: GroupEdgeConnection)
        ensures
            r.west(),
            r.north() == self.north(),
            r.east() == self.east(),
            r.south() == self.south(),
    {
        proof {
            lemma_u8_or(self.data, 4, 8);
            lemma_u8_or(self.data, 4, 4);
            lemma_u8_or(self.data, 4, 2);
            lemma_u8_or(self.data, 4, 1);
            assert(4u8 & 8 == 0 && 4u8 & 4 != 0 && 4u8 & 2 == 0 && 4u8 & 1 == 0) by (bit_vector);
        }
        GroupEdgeConnection { data: self.data | 4 }
    }

    pub fn is_connected_east(self) -> (r: bool)
        ensures
            r == self.east(),
    {
        self.data & 2 != 0
    }

    pub fn connect_east(self) -> (r: GroupEdgeConnection)
        ensures
            r.east(),
            r.north() == self.north(),
            r.west() == self.west(),
            r.south() == self.south(),
    {
        proof {
            lemma_u8_or(self.data, 2, 8);
            lemma_u8_or(self.data, 2, 4);
            lemma_u8_or(self.data, 2, 2);
            lemma_u8_or(self.data, 2, 1);
            assert(2u8 & 8 == 0 && 2u8 & 4 == 0 && 2u8 & 2 != 0 && 2u8 & 1 == 0) by (bit_vector);
        }
        GroupEdgeConnection { data: self.data | 2 }
    }

    pub fn is_connected_south(self) -> (r: bool)
        ensures
            r == self.south(),
    {
        self.data & 1 != 0
    }

    pub fn connect_south(self) -> (r: GroupEdgeConnection)
        ensures
            r.south(),
            r.north() == self.north(),
            r.west() == self.west(),
            r.east() == self.east(),
    {
        proof {
            lemma_u8_or(self.data, 1, 8);
            lemma_u8_or(self.data, 1, 4);
            lemma_u8_or(self.data, 1, 2);
            lemma_u8_or(self.data, 1, 1);
            assert(1u8 & 8 == 0 && 1u8 & 4 == 0 && 1u8 & 2 == 0 && 1u8 & 1 != 0) by (bit_vector);
        }
        GroupEdgeConnection { data: self.data | 1 }
    }

    /// The edges that either connection touches.
    pub fn union(self, other: GroupEdgeConnection) -> (r: GroupEdgeConnection)
        ensures
            r.north() == (self.north() || other.north()),
            r.west() == (self.west() || other.west()),
            r.east() == (self.east() || other.east()),
            r.south() == (self.south() || other.south()),
    {
        proof {
            lemma_u8_or(self.data, other.data, 8);
            lemma_u8_or(self.data, other.data, 4);
            lemma_u8_or(self.data, other.data, 2);
            lemma_u8_or(self.data, other.data, 1);
        }
        GroupEdgeConnection { data: self.data | other.data }
    }
}

/// Edge `e` of the board (0 North, 1 South, 2 West, 3 East) runs along square `sq`.
pub open spec fn on_edge(e: int, sq: int, s: int) -> bool {
    if e == 0 {
        on_north_edge(sq, s)
    } else if e == 1 {
        on_south_edge(sq, s)
    } else if e == 2 {
        on_west_edge(sq, s)
    } else {
        on_east_edge(sq, s)
    }
}

/// The connection touches edge `e` (0 North, 1 South, 2 West, 3 East).
pub open spec fn touches_edge(g: GroupEdgeConnection, e: int) -> bool {
    if e == 0 {
        g.north()
    } else if e == 1 {
        g.south()
    } else if e == 2 {
        g.west()
    } else {
        g.east()
    }
}

/// Some neighbour of square `i` is topped by color `c` and lies in a group that touches edge `e`.
pub open spec fn neighbour_touches(m: BoardModel, s: int, labels: Seq<u8>, amounts: Seq<(u8, GroupEdgeConnection)>, i: int, c: Color, e: int) -> bool {
    exists|n: int|
        0 <= n < s * s && is_neighbour(i, n, s) && m.cells[n].len() > 0 && m.cells[n].last().color_of() == c
            && #[trigger] touches_edge(amounts[labels[n] as int].1, e)
}

/// A road piece of color `c` on square `i` would complete a road.
pub open spec fn critical_at(m: BoardModel, s: int, labels: Seq<u8>, amounts: Seq<(u8, GroupEdgeConnection)>, i: int, c: Color) -> bool {
    let conn = |e: int| on_edge(e, i, s) || neighbour_touches(m, s, labels, amounts, i, c, e);
    (conn(0) && conn(1)) || (conn(3) && conn(2))
}

/// The number of squares below `n` whose top piece is `p`.
pub open spec fn top_count(m: BoardModel, p: Piece, n: int) -> nat
    decreases n,
{
    if n <= 0 {
        0
    } else {
        top_count(m, p, n - 1) + if top_is(m, n - 1, p) { 1nat } else { 0nat }
    }
}

/// The game ends on flats: a player has no pieces left in hand, or no square is empty.
pub open spec fn flats_decide(m: BoardModel, s: int) -> bool {
    ||| m.white_stones == 0 && m.white_caps == 0
    ||| m.black_stones == 0 && m.black_caps == 0
    ||| forall|i: int| 0 <= i < s * s ==> #[trigger] m.cells[i].len() > 0
}

/// The top piece of square `i` is `p`.
pub open spec fn top_is(m: BoardModel, i: int, p: Piece) -> bool {
    m.cells[i].len() > 0 && m.cells[i].last() == p
}

/// Square `i` is topped by a flat stone or capstone of color `c`.
pub open spec fn road_square(m: BoardModel, c: Color, i: int) -> bool {
    m.cells[i].len() > 0 && m.cells[i].last().color_of() == c && m.cells[i].last().is_road()
}

/// Some square carries label `id`.
pub open spec fn label_in_use(labels: Seq<u8>, id: int) -> bool {
    exists|y: int| 0 <= y < labels.len() && #[trigger] labels[y] == id
}

/// The number of squares below `n` that carry label `id`.
pub open spec fn label_count(labels: Seq<u8>, id: int, n: int) -> nat
    decreases n,
{
    if n <= 0 {
        0
    } else {
        label_count(labels, id, n - 1) + if labels[n - 1] == id { 1nat } else { 0nat }
    }
}

/// Connectivity data of a position: a group label for every square (0 for no
/// road piece), the size and edges of every group, critical squares, and the
/// squares of each kind of top piece.
pub struct GroupData<const S: usize> {
    pub(crate) groups: AbstractBoard<u8, S>,
    pub(crate) amount_in_group: Vec<(u8, GroupEdgeConnection)>,
    pub(crate) white_critical_squares: BitBoard,
    pub(crate) black_critical_squares: BitBoard,
    white_flat_stones: BitBoard,
    black_flat_stones: BitBoard,
    white_capstones: BitBoard,
    black_capstones: BitBoard,
    white_walls: BitBoard,
    black_walls: BitBoard,
}

impl<const S: usize> GroupData<S> {
    /// The group label of every square.
    pub closed spec fn labels(self) -> Seq<u8> {
        self.groups@
    }

    /// The edges that group `id` touches.
    pub closed spec fn edges(self, id: int) -> GroupEdgeConnection {
        self.amount_in_group@[id].1
    }

    /// The number of group slots: one for every label from 0 to the number of squares.
    pub closed spec fn slots(self) -> int {
        self.amount_in_group@.len() as int
    }

    /// The number of squares with label `id`.
    pub closed spec fn size(self, id: int) -> int {
        self.amount_in_group@[id].0 as int
    }

    /// The squares whose top piece is `p`.
    pub closed spec fn pieces(self, p: Piece) -> BitBoard {
        match p {
            Piece::WhiteFlat => self.white_flat_stones,
            Piece::BlackFlat => self.black_flat_stones,
            Piece::WhiteWall => self.white_walls,
            Piece::BlackWall => self.black_walls,
            Piece::WhiteCap => self.white_capstones,
            Piece::BlackCap => self.black_capstones,
        }
    }

    pub closed spec fn critical(self, c: Color) -> BitBoard {
        match c {
            Color::White => self.white_critical_squares,
            Color::Black => self.black_critical_squares,
        }
    }

    /// The road squares of color `c`.
    pub open spec fn road(self, c: Color) -> BitBoard {
        BitBoard {
            board: self.pieces(piece_of_color(Role::Flat, c)).board | self.pieces(piece_of_color(Role::Cap, c)).board,
        }
    }

    /// Placing a road piece of color `c` on square `i` would join the edges
    /// of its own square and of the neighbouring groups topped by color `c` into a road.
    pub open spec fn critical_spec(self, m: BoardModel, s: int, i: int, c: Color) -> bool {
        let conn = |e: int| on_edge(e, i, s) || exists|n: int|
            0 <= n < s * s && is_neighbour(i, n, s) && m.cells[n].len() > 0 && m.cells[n].last().color_of() == c
                && #[trigger] touches_edge(self.edges(self.labels()[n] as int), e);
        (conn(0) && conn(1)) || (conn(3) && conn(2))
    }

    /// This is the connectivity data of position `m` on a board of side `s`.
    pub open spec fn describes(self, m: BoardModel, s: int) -> bool {
        let labels = self.labels();
        &&& labels.len() == s * s
        &&& self.slots() == s * s + 1
        &&& forall|i: int| 0 <= i < s * s ==> #[trigger] labels[i] <= s * s
        &&& forall|i: int, p: Piece| 0 <= i < s * s ==> (#[trigger] self.pieces(p).has(i) <==> top_is(m, i, p))
        &&& forall|i: int, c: Color| 0 <= i < s * s ==> (#[trigger] self.road(c).has(i) <==> road_square(m, c, i))
        &&& forall|i: int| 0 <= i < s * s ==> (#[trigger] labels[i] != 0 <==> road_square(m, Color::White, i) || road_square(m, Color::Black, i))
        &&& forall|c: Color| labels_closed(#[trigger] self.road(c), s, labels) && labels_sound(self.road(c), s, labels)
        &&& forall|a: int, b: int| 0 <= a < s * s && 0 <= b < s * s && road_square(m, Color::White, a)
            && road_square(m, Color::Black, b) ==> #[trigger] labels[a] < #[trigger] labels[b]
        &&& forall|i: int, id: int| 0 <= i < s * s && 1 <= id <= #[trigger] labels[i] ==> #[trigger] label_in_use(labels, id)
        &&& forall|id: int| 0 <= id <= s * s ==> #[trigger] self.size(id) == label_count(labels, id, s * s)
        &&& forall|e: int| 0 <= e < 4 ==> !#[trigger] touches_edge(self.edges(0), e)
        &&& forall|id: int, e: int| 1 <= id <= s * s && 0 <= e < 4 ==> (#[trigger] touches_edge(self.edges(id), e)
            <==> exists|j: int| 0 <= j < s * s && labels[j] == id && #[trigger] on_edge(e, j, s))
        &&& forall|i: int, c: Color| 0 <= i < s * s ==> (#[trigger] self.critical(c).has(i) <==> self.critical_spec(m, s, i, c))
    }

    /// Color `c` has a road: two of its road squares on opposite edges are
    /// joined by a walk over adjacent road squares of `c`.
    pub open spec fn has_road(self, m: BoardModel, s: int, c: Color) -> bool {
        exists|a: int, b: int|
            0 <= a < s * s && 0 <= b < s * s && road_square(m, c, a) && road_square(m, c, b)
                && connected(self.road(c), s, a, b) && ((on_north_edge(a, s) && on_south_edge(b, s))
                || (on_west_edge(a, s) && on_east_edge(b, s)))
    }

    /// Some group of color `c` touches two opposite edges.
    pub open spec fn group_road(self, m: BoardModel, s: int, c: Color) -> bool {
        exists|i: int| 0 <= i < s * s && road_square(m, c, i) && #[trigger] self.edges(self.labels()[i] as int).winning()
    }

    /// The result of the game: a road for the player who just moved wins, then
    /// a road for the player to move; then, once a player has no pieces left
    /// or the board is full, the flat count with komi decides.
    pub open spec fn result(self, m: BoardModel, s: int, komi: Komi) -> Option<GameResult> {
        let last = m.to_move.opposite();
        if self.has_road(m, s, last) {
            Some(GameResult::win_for(last))
        } else if self.has_road(m, s, m.to_move) {
            Some(GameResult::win_for(m.to_move))
        } else if flats_decide(m, s) {
            Some(flat_count_result(
                top_count(m, Piece::WhiteFlat, s * s) as int,
                top_count(m, Piece::BlackFlat, s * s) as int,
                komi.half(),
            ))
        } else {
            None
        }
    }

    pub fn white_road_pieces(&self) -> (r: BitBoard)
        ensures
            r == self.road(Color::White),
    {
        self.white_flat_stones.union(self.white_capstones)
    }

    /// The group label of `square`: 0 for a square without a road piece.
    pub fn group_of(&self, square: Square) -> (r: u8)
        requires
            square.index() < self.labels().len(),
        ensures
            r == self.labels()[square.index()],
    {
        self.groups.get(square)
    }

    /// The number of squares in group `id`, and the edges that the group touches.
    pub fn group_info(&self, id: u8) -> (r: (u8, GroupEdgeConnection))
        requires
            (id as int) < self.slots(),
        ensures
            r.0 == self.size(id as int),
            r.1 == self.edges(id as int),
    {
        self.amount_in_group[id as usize]
    }

    pub fn black_road_pieces(&self) -> (r: BitBoard)
        ensures
            r == self.road(Color::Black),
    {
        self.black_flat_stones.union(self.black_capstones)
    }

    /// The squares topped by a white wall or capstone.
    pub fn white_blocking_pieces(&self) -> (r: BitBoard)
        ensures
            forall|i: int| r.has(i) == (self.pieces(Piece::WhiteWall).has(i) || self.pieces(Piece::WhiteCap).has(i)),
    {
        self.white_walls.union(self.white_capstones)
    }

    /// The squares topped by a black wall or capstone.
    pub fn black_blocking_pieces(&self) -> (r: BitBoard)
        ensures
            forall|i: int| r.has(i) == (self.pieces(Piece::BlackWall).has(i) || self.pieces(Piece::BlackCap).has(i)),
    {
        self.black_walls.union(self.black_capstones)
    }

    /// The squares with any piece on top.
    pub fn all_pieces(&self) -> (r: BitBoard)
        ensures
            forall|i: int| r.has(i) == (self.pieces(Piece::WhiteFlat).has(i) || self.pieces(Piece::BlackFlat).has(i)
                || self.pieces(Piece::WhiteWall).has(i) || self.pieces(Piece::BlackWall).has(i)
                || self.pieces(Piece::WhiteCap).has(i) || self.pieces(Piece::BlackCap).has(i)),
    {
        self.white_flat_stones.union(self.white_blocking_pieces()).union(self.black_flat_stones).union(
            self.black_blocking_pieces(),
        )
    }

    /// A road piece of `color` on `square` would complete a road.
    pub fn is_critical_square(&self, square: Square, color: Color) -> (r: bool)
        requires
            square.0 < 64,
        ensures
            r == self.critical(color).has(square.index()),
    {
        match color {
            Color::White => self.white_critical_squares.get(square.0),
            Color::Black => self.black_critical_squares.get(square.0),
        }
    }

    /// The critical squares of `color`, in index order.
    pub fn critical_squares(&self, color: Color) -> (r: Vec<Square>)
        ensures
            forall|i: int| 0 <= i < r@.len() ==> self.critical(color).has(#[trigger] r@[i].index()),
            forall|q: int| 0 <= q < 64 && self.critical(color).has(q) ==> exists|i: int| 0 <= i < r@.len() && #[trigger] r@[i].index() == q,
    {
        let mut r: Vec<Square> = Vec::new();
        let mut i: u8 = 0;
        while i < 64
            invariant
                i <= 64,
                forall|k: int| 0 <= k < r@.len() ==> self.critical(color).has(#[trigger] r@[k].index()),
                forall|q: int| 0 <= q < i && self.critical(color).has(q) ==> exists|k: int| 0 <= k < r@.len() && #[trigger] r@[k].index() == q,
            decreases 64 - i,
        {
            let ghost before = r@;
            if self.is_critical_square(Square(i), color) {
                r.push(Square(i));
                assert(r@[r@.len() - 1].index() == i);
            }
            proof {
                assert forall|q: int| 0 <= q < i + 1 && self.critical(color).has(q) implies exists|k: int| 0 <= k < r@.len() && #[trigger] r@[k].index() == q by {
                    if q < i {
                        let k = choose|k: int| 0 <= k < before.len() && #[trigger] before[k].index() == q;
                        assert(r@[k] == before[k]);
                    } else {
                        assert(r@[r@.len() - 1].index() == q);
                    }
                }
            }
            i = i + 1;
        }
        r
    }
}

pub open spec fn piece_of_color(role: Role, c: Color) -> Piece {
    crate::piece::piece_of(role, c)
}

impl<const S: usize> Board<S> {
    /// The squares whose top piece is `p`.
    fn collect_pieces(&self, p: Piece) -> (r: BitBoard)
        requires
            self.wf(),
        ensures
            forall|i: int| 0 <= i < S * S ==> (#[trigger] r.has(i) <==> top_is(self.model(), i, p)),
    {
        let ghost m = self.model();
        let mut r = BitBoard::empty();
        let mut i: u8 = 0;
        proof {
            self.lemma_wf();
        }
        while (i as usize) < S * S
            invariant
                self.wf(),
                m == self.model(),
                S * S <= 64,
                i <= S * S,
                forall|j: int| 0 <= j < S * S ==> (#[trigger] r.has(j) <==> (j < i && top_is(m, j, p))),
            decreases S * S - i,
        {
            let st = self.stack_at(Square(i));
            if st.top_stone() == Some(p) {
                r = r.set(i);
            }
            i = i + 1;
        }
        r
    }

    /// Labels the groups of each color, White's first.
    fn label_groups(&self, white_road: BitBoard, black_road: BitBoard) -> (r: AbstractBoard<u8, S>)
        requires
            self.wf(),
            forall|i: int| 0 <= i < S * S ==> (#[trigger] white_road.has(i) <==> road_square(self.model(), Color::White, i)),
            forall|i: int| 0 <= i < S * S ==> (#[trigger] black_road.has(i) <==> road_square(self.model(), Color::Black, i)),
        ensures
            r@.len() == S * S,
            forall|i: int| 0 <= i < S * S ==> (#[trigger] r@[i] != 0 <==> road_square(self.model(), Color::White, i)
                || road_square(self.model(), Color::Black, i)),
            labels_closed(white_road, S as int, r@),
            labels_sound(white_road, S as int, r@),
            labels_closed(black_road, S as int, r@),
            labels_sound(black_road, S as int, r@),
            forall|a: int, b: int| 0 <= a < S * S && 0 <= b < S * S && road_square(self.model(), Color::White, a)
                && road_square(self.model(), Color::Black, b) ==> #[trigger] r@[a] < #[trigger] r@[b],
            forall|i: int| 0 <= i < S * S ==> #[trigger] r@[i] <= S * S,
            forall|i: int, id: int| 0 <= i < S * S && 1 <= id <= #[trigger] r@[i] ==> #[trigger] label_in_use(r@, id),
    {
        let ghost m = self.model();
        let ghost s = S as int;
        proof {
            self.lemma_wf();
        }
        let mut groups = AbstractBoard::<u8, S>::new_with_value(0u8);
        let ghost l0 = groups@;
        let mut id: u8 = 1;
        proof {
            lemma_unlabelled_bound(groups@);
            assert(labels_closed(white_road, s, groups@));
            assert(labels_sound(white_road, s, groups@));
        }
        connected_components_graph(white_road, &mut groups, &mut id);
        let ghost l1 = groups@;
        let ghost id1 = id;
        proof {
            lemma_unlabelled_bound(groups@);
            assert forall|x: int| 0 <= x < s * s && black_road.has(x) implies #[trigger] l1[x] == 0 by {
                if l1[x] != l0[x] {
                    assert(white_road.has(x));
                }
            }
            assert(labels_closed(black_road, s, l1));
            assert(labels_sound(black_road, s, l1));
        }
        connected_components_graph(black_road, &mut groups, &mut id);
        proof {
            let l2 = groups@;
            assert(id as int <= 1 + s * s);
            assert forall|i: int, k: int| 0 <= i < S * S && 1 <= k <= #[trigger] l2[i] implies #[trigger] label_in_use(l2, k) by {
                assert(l2[i] < id);
                if k < id1 {
                    assert(label_is_new(white_road, l0, l1, k, s * s));
                    let y = choose|y: int| 0 <= y < s * s && #[trigger] l1[y] == k && l0[y] == 0 && white_road.has(y);
                    assert(l2[y] == k);
                } else {
                    assert(label_is_new(black_road, l1, l2, k, s * s));
                    let y = choose|y: int| 0 <= y < s * s && #[trigger] l2[y] == k && l1[y] == 0 && black_road.has(y);
                }
            }
            assert forall|x: int| 0 <= x < s * s && white_road.has(x) implies #[trigger] l2[x] == l1[x] by {
                assert(l1[x] != 0);
            }
            assert(labels_closed(white_road, s, l2));
            assert(labels_sound(white_road, s, l2)) by {
                assert forall|a: int, b: int|
                    0 <= a < s * s && 0 <= b < s * s && white_road.has(a) && white_road.has(b) && #[trigger] l2[a] != 0
                        && #[trigger] l2[b] == l2[a] implies connected(white_road, s, a, b) by {
                    assert(l1[a] == l2[a] && l1[b] == l2[b]);
                }
            }
            assert forall|i: int| 0 <= i < S * S implies (#[trigger] l2[i] != 0 <==> road_square(m, Color::White, i)
                || road_square(m, Color::Black, i)) by {
                if l2[i] != l1[i] {
                    assert(black_road.has(i));
                } else if l1[i] != l0[i] {
                    assert(white_road.has(i));
                }
                if road_square(m, Color::White, i) {
                    assert(white_road.has(i));
                }
                if road_square(m, Color::Black, i) {
                    assert(black_road.has(i));
                }
            }
            assert forall|a: int, b: int| 0 <= a < S * S && 0 <= b < S * S && road_square(m, Color::White, a)
                && road_square(m, Color::Black, b) implies #[trigger] l2[a] < #[trigger] l2[b] by {
                assert(white_road.has(a));
                assert(black_road.has(b));
                assert(l2[a] == l1[a]);
                assert(l1[a] < id1);
                assert(l1[b] == 0) by {
                    if l1[b] != l0[b] {
                        assert(white_road.has(b));
                    }
                }
            }
        }
        groups
    }

    /// The size of every group, and the edges that it touches.
    fn group_sizes_and_edges(&self, groups: &AbstractBoard<u8, S>) -> (r: Vec<(u8, GroupEdgeConnection)>)
        requires
            self.wf(),
            groups@.len() == S * S,
            forall|i: int| 0 <= i < S * S ==> #[trigger] groups@[i] <= S * S,
        ensures
            r@.len() == S * S + 1,
            forall|id: int| 0 <= id <= S * S ==> #[trigger] r@[id].0 == label_count(groups@, id, S * S),
            forall|id: int, e: int| 1 <= id <= S * S && 0 <= e < 4 ==> (#[trigger] touches_edge(r@[id].1, e)
                <==> exists|j: int| 0 <= j < S * S && groups@[j] == id && #[trigger] on_edge(e, j, S as int)),
            forall|e: int| 0 <= e < 4 ==> !#[trigger] touches_edge(r@[0].1, e),
    {
        let ghost s = S as int;
        let ghost labels = groups@;
        proof {
            self.lemma_wf();
        }
        let mut r: Vec<(u8, GroupEdgeConnection)> = Vec::new();
        let mut k: usize = 0;
        while k <= S * S
            invariant
                valid_size(s),
                s == S as int,
                S * S <= 64,
                k <= S * S + 1,
                r@.len() == k,
                forall|id: int| 0 <= id < k ==> (#[trigger] r@[id]).0 == 0,
                forall|id: int, e: int| 0 <= id < k && 0 <= e < 4 ==> !#[trigger] touches_edge(r@[id].1, e),
            decreases S * S + 1 - k,
        {
            let ghost before = r@;
            let fresh = GroupEdgeConnection::new();
            r.push((0u8, fresh));
            proof {
                assert forall|id: int, e: int| 0 <= id < k + 1 && 0 <= e < 4 implies !#[trigger] touches_edge(r@[id].1, e) by {
                    if id < k {
                        assert(r@[id] == before[id]);
                        assert(!touches_edge(before[id].1, e));
                    } else {
                        assert(r@[id].1 == fresh);
                        if e == 0 {
                        } else if e == 1 {
                        } else if e == 2 {
                        } else {
                        }
                    }
                }
            }
            k = k + 1;
        }
        let mut i: u8 = 0;
        while (i as usize) < S * S
            invariant
                valid_size(s),
                s == S as int,
                S * S <= 64,
                labels == groups@,
                labels.len() == S * S,
                forall|j: int| 0 <= j < S * S ==> #[trigger] labels[j] <= S * S,
                i <= S * S,
                r@.len() == S * S + 1,
                forall|id: int| 0 <= id <= S * S ==> #[trigger] r@[id].0 == label_count(labels, id, i as int),
                forall|id: int| 0 <= id <= S * S ==> #[trigger] r@[id].0 <= i,
                forall|id: int, e: int| 1 <= id <= S * S && 0 <= e < 4 ==> (#[trigger] touches_edge(r@[id].1, e)
                    <==> exists|j: int| 0 <= j < i && labels[j] == id && #[trigger] on_edge(e, j, s)),
                forall|e: int| 0 <= e < 4 ==> !#[trigger] touches_edge(r@[0].1, e),
            decreases S * S - i,
        {
            let sq = Square(i);
            let g = groups.get(sq) as usize;
            let (count, edges) = r[g];
            let new_edges = if g != 0 {
                edges.connect_square::<S>(sq)
            } else {
                edges
            };
            let ghost before = r@;
            r.set(g, (count + 1, new_edges));
            proof {
                assert forall|id: int| 0 <= id <= S * S implies #[trigger] r@[id].0 == label_count(labels, id, i + 1) by {
                    if id != g {
                        assert(r@[id] == before[id]);
                    }
                }
                assert forall|id: int, e: int| 1 <= id <= S * S && 0 <= e < 4 implies (#[trigger] touches_edge(r@[id].1, e)
                    <==> exists|j: int| 0 <= j < i + 1 && labels[j] == id && #[trigger] on_edge(e, j, s)) by {
                    if id == g {
                        if touches_edge(r@[id].1, e) {
                            if !on_edge(e, i as int, s) {
                                assert(touches_edge(before[id].1, e));
                                let j = choose|j: int| 0 <= j < i && labels[j] == id && #[trigger] on_edge(e, j, s);
                            } else {
                                assert(labels[i as int] == id && on_edge(e, i as int, s));
                            }
                        } else {
                            assert forall|j: int| 0 <= j < i + 1 && labels[j] == id implies !#[trigger] on_edge(e, j, s) by {
                                if j < i {
                                    assert(!touches_edge(before[id].1, e));
                                }
                            }
                        }
                    } else {
                        assert(r@[id] == before[id]);
                        if exists|j: int| 0 <= j < i + 1 && labels[j] == id && #[trigger] on_edge(e, j, s) {
                            let j = choose|j: int| 0 <= j < i + 1 && labels[j] == id && #[trigger] on_edge(e, j, s);
                            assert(j < i);
                        }
                    }
                }
            }
            i = i + 1;
        }
        r
    }

    /// The critical squares of color `c`.
    fn critical_board(&self, groups: &AbstractBoard<u8, S>, amounts: &Vec<(u8, GroupEdgeConnection)>, c: Color) -> (r: BitBoard)
        requires
            self.wf(),
            groups@.len() == S * S,
            forall|i: int| 0 <= i < S * S ==> #[trigger] groups@[i] <= S * S,
            amounts@.len() == S * S + 1,
        ensures
            forall|i: int| 0 <= i < S * S ==> (#[trigger] r.has(i) <==> critical_at(self.model(), S as int, groups@, amounts@, i, c)),
    {
        let ghost m = self.model();
        let ghost s = S as int;
        proof {
            self.lemma_wf();
        }
        let mut r = BitBoard::empty();
        let mut i: u8 = 0;
        while (i as usize) < S * S
            invariant
                self.wf(),
                m == self.model(),
                valid_size(s),
                s == S as int,
                S * S <= 64,
                groups@.len() == S * S,
                forall|j: int| 0 <= j < S * S ==> #[trigger] groups@[j] <= S * S,
                amounts@.len() == S * S + 1,
                i <= S * S,
                forall|j: int| 0 <= j < S * S ==> (#[trigger] r.has(j) <==> (j < i && critical_at(m, s, groups@, amounts@, j, c))),
            decreases S * S - i,
        {
            let sq = Square(i);
            let mut conn = GroupEdgeConnection::new().connect_square::<S>(sq);
            let nbs = sq.neighbours::<S>();
            let mut k: usize = 0;
            while k < nbs.len()
                invariant
                    self.wf(),
                    m == self.model(),
                    valid_size(s),
                    s == S as int,
                    S * S <= 64,
                    groups@.len() == S * S,
                    forall|j: int| 0 <= j < S * S ==> #[trigger] groups@[j] <= S * S,
                    amounts@.len() == S * S + 1,
                    i < S * S,
                    k <= nbs@.len(),
                    forall|j: int| 0 <= j < nbs@.len() ==> (#[trigger] nbs@[j]).on_board(s),
                    forall|e: int| 0 <= e < 4 ==> (#[trigger] touches_edge(conn, e) <==> on_edge(e, i as int, s)
                        || exists|j: int| 0 <= j < k && m.cells[nbs@[j].index()].len() > 0
                            && m.cells[nbs@[j].index()].last().color_of() == c
                            && #[trigger] touches_edge(amounts@[groups@[nbs@[j].index()] as int].1, e)),
                decreases nbs@.len() - k,
            {
                let n = nbs[k];
                let st = self.stack_at(n);
                let ghost before = conn;
                assert(st@ == m.cells[n.index()]);
                let matches = match st.top_stone() {
                    Some(p) => p.color() == c,
                    None => false,
                };
                let g = groups.get(n) as usize;
                if matches {
                    conn = conn.union(amounts[g].1);
                }
                proof {
                    assert forall|e: int| 0 <= e < 4 implies #[trigger] touches_edge(conn, e) == (touches_edge(before, e)
                        || (matches && touches_edge(amounts@[g as int].1, e))) by {
                        if e == 0 {
                        } else if e == 1 {
                        } else if e == 2 {
                        } else {
                        }
                    }
                    assert forall|e: int| 0 <= e < 4 implies (#[trigger] touches_edge(conn, e) <==> on_edge(e, i as int, s)
                        || exists|j: int| 0 <= j < k + 1 && m.cells[nbs@[j].index()].len() > 0
                            && m.cells[nbs@[j].index()].last().color_of() == c
                            && #[trigger] touches_edge(amounts@[groups@[nbs@[j].index()] as int].1, e)) by {
                        if exists|j: int| 0 <= j < k + 1 && m.cells[nbs@[j].index()].len() > 0
                            && m.cells[nbs@[j].index()].last().color_of() == c
                            && #[trigger] touches_edge(amounts@[groups@[nbs@[j].index()] as int].1, e) {
                            let j = choose|j: int| 0 <= j < k + 1 && m.cells[nbs@[j].index()].len() > 0
                                && m.cells[nbs@[j].index()].last().color_of() == c
                                && #[trigger] touches_edge(amounts@[groups@[nbs@[j].index()] as int].1, e);
                            if j < k {
                                assert(touches_edge(before, e));
                            }
                        }
                        if touches_edge(before, e) && !on_edge(e, i as int, s) {
                            let j = choose|j: int| 0 <= j < k && m.cells[nbs@[j].index()].len() > 0
                                && m.cells[nbs@[j].index()].last().color_of() == c
                                && #[trigger] touches_edge(amounts@[groups@[nbs@[j].index()] as int].1, e);
                            assert(j < k + 1);
                        }
                        if matches && touches_edge(amounts@[groups@[n.index()] as int].1, e) {
                            assert(nbs@[k as int] == n);
                            assert(m.cells[nbs@[k as int].index()].len() > 0);
                            assert(touches_edge(amounts@[groups@[nbs@[k as int].index()] as int].1, e));
                        }
                    }
                }
                k = k + 1;
            }
            let win = conn.is_winning();
            if win {
                r = r.set(i);
            }
            proof {
                assert forall|e: int| 0 <= e < 4 implies (#[trigger] touches_edge(conn, e)
                    <==> on_edge(e, i as int, s) || neighbour_touches(m, s, groups@, amounts@, i as int, c, e)) by {
                    if neighbour_touches(m, s, groups@, amounts@, i as int, c, e) {
                        let n = choose|n: int|
                            0 <= n < s * s && is_neighbour(i as int, n, s) && m.cells[n].len() > 0 && m.cells[n].last().color_of() == c
                                && #[trigger] touches_edge(amounts@[groups@[n] as int].1, e);
                        let b = Square(n as u8);
                        assert(b.index() == n);
                        assert(nbs@.contains(b));
                        let j = choose|j: int| 0 <= j < nbs@.len() && nbs@[j] == b;
                        assert(touches_edge(amounts@[groups@[nbs@[j].index()] as int].1, e));
                    }
                    if exists|j: int| 0 <= j < nbs@.len() && m.cells[nbs@[j].index()].len() > 0
                        && m.cells[nbs@[j].index()].last().color_of() == c
                        && #[trigger] touches_edge(amounts@[groups@[nbs@[j].index()] as int].1, e) {
                        let j = choose|j: int| 0 <= j < nbs@.len() && m.cells[nbs@[j].index()].len() > 0
                            && m.cells[nbs@[j].index()].last().color_of() == c
                            && #[trigger] touches_edge(amounts@[groups@[nbs@[j].index()] as int].1, e);
                        assert(nbs@.contains(nbs@[j]));
                        let n = nbs@[j].index();
                        assert(is_neighbour(i as int, n, s));
                    }
                }
                assert(conn.winning() == ((touches_edge(conn, 0) && touches_edge(conn, 1)) || (touches_edge(conn, 3) && touches_edge(conn, 2))));
            }
            i = i + 1;
        }
        r
    }

    /// The connectivity data of the position: piece sets, group labels, group
    /// sizes and edges, and critical squares.
    pub fn group_data(&self) -> (r: GroupData<S>)
        requires
            self.wf(),
        ensures
            r.describes(self.model(), S as int),
    {
        let ghost m = self.model();
        let ghost s = S as int;
        proof {
            self.lemma_wf();
        }
        let white_flat_stones = self.collect_pieces(Piece::WhiteFlat);
        let black_flat_stones = self.collect_pieces(Piece::BlackFlat);
        let white_walls = self.collect_pieces(Piece::WhiteWall);
        let black_walls = self.collect_pieces(Piece::BlackWall);
        let white_capstones = self.collect_pieces(Piece::WhiteCap);
        let black_capstones = self.collect_pieces(Piece::BlackCap);
        let white_road = white_flat_stones.union(white_capstones);
        let black_road = black_flat_stones.union(black_capstones);
        proof {
            assert forall|i: int| 0 <= i < S * S implies (#[trigger] white_road.has(i) <==> road_square(m, Color::White, i)) by {
                if m.cells[i].len() > 0 {
                    let p = m.cells[i].last();
                }
            }
            assert forall|i: int| 0 <= i < S * S implies (#[trigger] black_road.has(i) <==> road_square(m, Color::Black, i)) by {
                if m.cells[i].len() > 0 {
                    let p = m.cells[i].last();
                }
            }
        }
        let groups = self.label_groups(white_road, black_road);
        let amounts = self.group_sizes_and_edges(&groups);
        let white_critical_squares = self.critical_board(&groups, &amounts, Color::White);
        let black_critical_squares = self.critical_board(&groups, &amounts, Color::Black);
        let r = GroupData {
            groups,
            amount_in_group: amounts,
            white_critical_squares,
            black_critical_squares,
            white_flat_stones,
            black_flat_stones,
            white_capstones,
            black_capstones,
            white_walls,
            black_walls,
        };
        proof {
            assert(r.road(Color::White) == white_road);
            assert(r.road(Color::Black) == black_road);
            assert forall|i: int, c: Color| 0 <= i < s * s implies (#[trigger] r.road(c).has(i) <==> road_square(m, c, i)) by {
                match c {
                    Color::White => {},
                    Color::Black => {},
                }
            }
            assert forall|i: int, p: Piece| 0 <= i < s * s implies (#[trigger] r.pieces(p).has(i) <==> top_is(m, i, p)) by {
                match p {
                    Piece::WhiteFlat => {},
                    Piece::BlackFlat => {},
                    Piece::WhiteWall => {},
                    Piece::BlackWall => {},
                    Piece::WhiteCap => {},
                    Piece::BlackCap => {},
                }
            }
            assert forall|c: Color| labels_closed(#[trigger] r.road(c), s, r.labels()) && labels_sound(r.road(c), s, r.labels()) by {
                match c {
                    Color::White => {},
                    Color::Black => {},
                }
            }
            assert forall|i: int, c: Color| 0 <= i < s * s implies (#[trigger] r.critical(c).has(i) <==> r.critical_spec(m, s, i, c)) by {
                assert forall|e: int| 0 <= e < 4 implies (neighbour_touches(m, s, r.labels(), r.amount_in_group@, i, c, e) <==>
                    exists|n: int| 0 <= n < s * s && is_neighbour(i, n, s) && m.cells[n].len() > 0 && m.cells[n].last().color_of() == c
                        && #[trigger] touches_edge(r.edges(r.labels()[n] as int), e)) by {
                    if neighbour_touches(m, s, r.labels(), r.amount_in_group@, i, c, e) {
                        let n = choose|n: int| 0 <= n < s * s && is_neighbour(i, n, s) && m.cells[n].len() > 0
                            && m.cells[n].last().color_of() == c && #[trigger] touches_edge(r.amount_in_group@[r.labels()[n] as int].1, e);
                        assert(touches_edge(r.edges(r.labels()[n] as int), e));
                    }
                    if exists|n: int| 0 <= n < s * s && is_neighbour(i, n, s) && m.cells[n].len() > 0 && m.cells[n].last().color_of() == c
                        && #[trigger] touches_edge(r.edges(r.labels()[n] as int), e) {
                        let n = choose|n: int| 0 <= n < s * s && is_neighbour(i, n, s) && m.cells[n].len() > 0
                            && m.cells[n].last().color_of() == c && #[trigger] touches_edge(r.edges(r.labels()[n] as int), e);
                        assert(touches_edge(r.amount_in_group@[r.labels()[n] as int].1, e));
                    }
                }
                match c {
                    Color::White => {},
                    Color::Black => {},
                }
            }
        }
        r
    }
}

impl<const S: usize> Board<S> {
    /// The result of the game, if it is decided, from the position's connectivity data.
    pub fn game_result_with_group_data(&self, group_data: &GroupData<S>) -> (r: Option<GameResult>)
        requires
            self.wf(),
            group_data.describes(self.model(), S as int),
        ensures
            r == group_data.result(self.model(), S as int, self.komi_of()),
    {
        let ghost m = self.model();
        let ghost s = S as int;
        let ghost labels = group_data.labels();
        proof {
            self.lemma_wf();
        }
        let to_move = self.side_to_move();
        let last = to_move.flip();
        let mut last_wins = false;
        let mut mover_wins = false;
        let mut full = true;
        let mut white_flats: u8 = 0;
        let mut black_flats: u8 = 0;
        let mut i: u8 = 0;
        while (i as usize) < S * S
            invariant
                self.wf(),
                m == self.model(),
                valid_size(s),
                s == S as int,
                S * S <= 64,
                group_data.describes(m, s),
                labels == group_data.labels(),
                to_move == m.to_move,
                last == m.to_move.opposite(),
                i <= S * S,
                last_wins == exists|j: int| 0 <= j < i && road_square(m, last, j) && #[trigger] group_data.edges(labels[j] as int).winning(),
                mover_wins == exists|j: int| 0 <= j < i && road_square(m, to_move, j) && #[trigger] group_data.edges(labels[j] as int).winning(),
                full == forall|j: int| 0 <= j < i ==> #[trigger] m.cells[j].len() > 0,
                white_flats == top_count(m, Piece::WhiteFlat, i as int),
                black_flats == top_count(m, Piece::BlackFlat, i as int),
                white_flats <= i,
                black_flats <= i,
            decreases S * S - i,
        {
            let sq = Square(i);
            let st = self.stack_at(sq);
            let id = group_data.groups.get(sq) as usize;
            let winning = group_data.amount_in_group[id].1.is_winning();
            match st.top_stone() {
                None => {
                    full = false;
                },
                Some(piece) => {
                    if piece.is_road_piece() && winning {
                        if piece.color() == last {
                            last_wins = true;
                        } else {
                            mover_wins = true;
                        }
                    }
                    if piece == Piece::WhiteFlat {
                        white_flats = white_flats + 1;
                    } else if piece == Piece::BlackFlat {
                        black_flats = black_flats + 1;
                    }
                },
            }
            proof {
                let ii = i as int;
                if road_square(m, last, ii) && group_data.edges(labels[ii] as int).winning() {
                    assert(last_wins);
                }
                if road_square(m, to_move, ii) && group_data.edges(labels[ii] as int).winning() {
                    assert(mover_wins);
                }
                if last_wins {
                    if !(exists|j: int| 0 <= j < ii && road_square(m, last, j) && #[trigger] group_data.edges(labels[j] as int).winning()) {
                        assert(road_square(m, last, ii) && group_data.edges(labels[ii] as int).winning());
                    }
                }
                if mover_wins {
                    if !(exists|j: int| 0 <= j < ii && road_square(m, to_move, j) && #[trigger] group_data.edges(labels[j] as int).winning()) {
                        assert(road_square(m, to_move, ii) && group_data.edges(labels[ii] as int).winning());
                    }
                }
            }
            i = i + 1;
        }
        proof {
            assert(last_wins == group_data.group_road(m, s, last));
            assert(mover_wins == group_data.group_road(m, s, to_move));
            lemma_group_road_iff_road(*group_data, m, last);
            lemma_group_road_iff_road(*group_data, m, to_move);
        }
        if last_wins {
            return Some(match last {
                Color::White => GameResult::WhiteWin,
                Color::Black => GameResult::BlackWin,
            });
        }
        if mover_wins {
            return Some(match to_move {
                Color::White => GameResult::WhiteWin,
                Color::Black => GameResult::BlackWin,
            });
        }
        let (white_stones, white_caps, black_stones, black_caps) = self.pieces_in_hand();
        if (white_stones == 0 && white_caps == 0) || (black_stones == 0 && black_caps == 0) || full {
            Some(self.komi().game_result_with_flatcounts(white_flats as i8, black_flats as i8))
        } else {
            None
        }
    }

    /// The result of the game, if it is decided.
    pub fn game_result(&self) -> (r: Option<GameResult>)
        requires
            self.wf(),
        ensures
            exists|gd: GroupData<S>| #[trigger] gd.describes(self.model(), S as int) && r == gd.result(self.model(), S as int, self.komi_of()),
    {
        let group_data = self.group_data();
        self.game_result_with_group_data(&group_data)
    }
}

/// A group of color `c` touches two opposite edges exactly when `c` has a road.
pub proof fn lemma_group_road_iff_road<const S: usize>(gd: GroupData<S>, m: BoardModel, c: Color)
    requires
        gd.describes(m, S as int),
        valid_size(S as int),
    ensures
        gd.group_road(m, S as int, c) <==> gd.has_road(m, S as int, c),
{
    let s = S as int;
    let labels = gd.labels();
    let road = gd.road(c);
    assert forall|i: int| 0 <= i < s * s && road_square(m, c, i) implies #[trigger] road.has(i) by {}
    if gd.group_road(m, s, c) {
        let i = choose|i: int| 0 <= i < s * s && road_square(m, c, i) && #[trigger] gd.edges(gd.labels()[i] as int).winning();
        let id = labels[i] as int;
        let e = gd.edges(id);
        assert(labels[i] != 0);
        let (e1, e2) = if e.north() && e.south() { (0int, 1int) } else { (2int, 3int) };
        assert(touches_edge(e, e1) && touches_edge(e, e2));
        let a = choose|j: int| 0 <= j < s * s && labels[j] == id && #[trigger] on_edge(e1, j, s);
        let b = choose|j: int| 0 <= j < s * s && labels[j] == id && #[trigger] on_edge(e2, j, s);
        assert(road_square(m, c, a)) by {
            assert(labels[a] != 0);
            if !road_square(m, c, a) {
                if c == Color::White {
                    assert(road_square(m, Color::Black, a));
                } else {
                    assert(road_square(m, Color::White, a));
                }
            }
        }
        assert(road_square(m, c, b)) by {
            assert(labels[b] != 0);
            if !road_square(m, c, b) {
                if c == Color::White {
                    assert(road_square(m, Color::Black, b));
                } else {
                    assert(road_square(m, Color::White, b));
                }
            }
        }
        assert(labels_closed(road, s, labels) && labels_sound(road, s, labels));
        assert forall|y: int| 0 <= y < s * s && road.has(y) implies #[trigger] labels[y] != 0 by {}
        lemma_same_label_iff_connected(road, s, labels, a, b);
    }
    if gd.has_road(m, s, c) {
        let (a, b) = choose|a: int, b: int|
            0 <= a < s * s && 0 <= b < s * s && road_square(m, c, a) && road_square(m, c, b)
                && connected(gd.road(c), s, a, b) && ((on_north_edge(a, s) && on_south_edge(b, s))
                || (on_west_edge(a, s) && on_east_edge(b, s)));
        assert(labels_closed(road, s, labels) && labels_sound(road, s, labels));
        assert forall|y: int| 0 <= y < s * s && road.has(y) implies #[trigger] labels[y] != 0 by {}
        lemma_same_label_iff_connected(road, s, labels, a, b);
        let id = labels[a] as int;
        assert(1 <= id <= s * s) by {
            assert(labels[a] != 0);
        }
        if on_north_edge(a, s) && on_south_edge(b, s) {
            assert(on_edge(0, a, s) && on_edge(1, b, s));
            assert(touches_edge(gd.edges(id), 0));
            assert(touches_edge(gd.edges(id), 1));
        } else {
            assert(on_edge(2, a, s) && on_edge(3, b, s));
            assert(touches_edge(gd.edges(id), 2));
            assert(touches_edge(gd.edges(id), 3));
        }
        assert(gd.edges(labels[a] as int).winning());
    }
}

/// Connectivity soundness for a position: two road squares of one color are
/// in the same group exactly when a walk over adjacent road squares of that
/// color joins them.
pub proof fn lemma_groups_are_connected_components<const S: usize>(gd: GroupData<S>, m: BoardModel, c: Color, a: int, b: int)
    requires
        gd.describes(m, S as int),
        0 <= a < S * S,
        0 <= b < S * S,
        road_square(m, c, a),
        road_square(m, c, b),
    ensures
        gd.labels()[a] == gd.labels()[b] <==> connected(gd.road(c), S as int, a, b),
{
    let s = S as int;
    let road = gd.road(c);
    assert(labels_closed(road, s, gd.labels()) && labels_sound(road, s, gd.labels()));
    assert forall|y: int| 0 <= y < s * s && road.has(y) implies #[trigger] gd.labels()[y] != 0 by {}
    lemma_same_label_iff_connected(road, s, gd.labels(), a, b);
}

} // verus!
