use vstd::prelude::*;

use crate::movement::{Move, Movement, ReverseMove, StackMovement, MAX_SLIDE_STEPS};
use crate::piece::{piece_of, Color, Komi, Piece, Role};
use crate::rules::{
    all_flat_below_top, board_count, lemma_board_count_two, lemma_count_colors, lemma_count_push,
    lemma_board_count_update, lemma_path, lemma_slide_back, lemma_transfer_counts, lemma_transfer_flat,
    lemma_path_step, lemma_slide_back_steps, lemma_slide_steps, lemma_untouched, path, reversed, slide,
    slide_fits, slide_steps, start_caps, start_stones, total_pieces, transfer, color_count,
    lemma_flatten_flat, lemma_passed, lemma_count_replace_top, lemma_path_extend,
};
use crate::square::{file_of, jump, lemma_coords, lemma_from_coords, rank_of, step, valid_size, Direction, Square};
use crate::stack::{flat_below_top, flatten_top, Stack, MAX_STACK_HEIGHT};
use crate::error::push_char;

verus! {

/// A value for every square of the board, indexed by `Square`.
#[derive(Clone, Debug, PartialEq, Eq, Hash)]
pub struct AbstractBoard<T, const S: usize> {
    raw: Vec<T>,
}

impl<T, const S: usize> View for AbstractBoard<T, S> {
    type V = Seq<T>;

    closed spec fn view(&self) -> Seq<T> {
        self.raw@
    }
}

impl<T: Copy, const S: usize> AbstractBoard<T, S> {
    /// A board with `value` on every square.
    pub fn new_with_value(value: T) -> (r: Self)
        requires
            valid_size(S as int),
        ensures
            r@.len() == S * S,
            forall|i: int| 0 <= i < r@.len() ==> r@[i] == value,
    {
        let mut raw: Vec<T> = Vec::new();
        let mut i: usize = 0;
        assert(S * S <= 64) by (nonlinear_arith)
            requires
                S <= 8,
        ;
        while i < S * S
            invariant
                S * S <= 64,
                i <= S * S,
                raw@.len() == i,
                forall|j: int| 0 <= j < raw@.len() ==> raw@[j] == value,
            decreases S * S - i,
        {
            raw.push(value);
            i = i + 1;
        }
        AbstractBoard { raw }
    }

    /// A board with a value that `f` makes for every square.
    pub fn new_from_fn<F: Fn() -> T>(f: F) -> (r: Self)
        requires
            valid_size(S as int),
            f.requires(()),
        ensures
            r@.len() == S * S,
            forall|i: int| 0 <= i < r@.len() ==> f.ensures((), #[trigger] r@[i]),
    {
        let mut raw: Vec<T> = Vec::new();
        let mut i: usize = 0;
        assert(S * S <= 64) by (nonlinear_arith)
            requires
                S <= 8,
        ;
        while i < S * S
            invariant
                S * S <= 64,
                f.requires(()),
                i <= S * S,
                raw@.len() == i,
                forall|j: int| 0 <= j < raw@.len() ==> f.ensures((), #[trigger] raw@[j]),
            decreases S * S - i,
        {
            raw.push(f());
            i = i + 1;
        }
        AbstractBoard { raw }
    }

    pub fn get(&self, square: Square) -> (r: T)
        requires
            square.index() < self@.len(),
        ensures
            r == self@[square.index()],
    {
        self.raw[square.0 as usize]
    }

    pub fn set(&mut self, square: Square, value: T)
        requires
            square.index() < old(self)@.len(),
        ensures
            final(self)@ == old(self)@.update(square.index(), value),
    {
        self.raw.set(square.0 as usize, value);
    }
}

/// The number of flat stones (and walls) each player starts with.
pub fn starting_stones<const S: usize>() -> (r: u8)
    requires
        valid_size(S as int),
    ensures
        r == start_stones(S as int),
{
    match S {
        3 => 10,
        4 => 15,
        5 => 21,
        6 => 30,
        7 => 40,
        _ => 50,
    }
}

/// The number of capstones each player starts with.
pub fn starting_capstones<const S: usize>() -> (r: u8)
    requires
        valid_size(S as int),
    ensures
        r == start_caps(S as int),
{
    if S <= 4 {
        0
    } else if S <= 6 {
        1
    } else {
        2
    }
}

/// The mathematical content of a position.
pub ghost struct BoardModel {
    /// Every square's stack, from the bottom up.
    pub cells: Seq<Seq<Piece>>,
    pub to_move: Color,
    pub white_stones: int,
    pub black_stones: int,
    pub white_caps: int,
    pub black_caps: int,
    /// Plies played so far.
    pub moves_played: int,
    /// The moves played so far.
    pub moves: Seq<Move>,
}

pub proof fn lemma_board_count_empty(cells: Seq<Seq<Piece>>, c: Color)
    requires
        forall|i: int| 0 <= i < cells.len() ==> #[trigger] cells[i].len() == 0,
    ensures
        board_count(cells, c) == 0,
    decreases cells.len(),
{
    if cells.len() > 0 {
        lemma_board_count_empty(cells.drop_last(), c);
    }
}

impl BoardModel {
    pub open spec fn stones(self, c: Color) -> int {
        match c {
            Color::White => self.white_stones,
            Color::Black => self.black_stones,
        }
    }

    pub open spec fn caps(self, c: Color) -> int {
        match c {
            Color::White => self.white_caps,
            Color::Black => self.black_caps,
        }
    }

    /// On the first two plies each player places a piece of the opponent's color.
    pub open spec fn placing_color(self) -> Color {
        if self.moves_played < 2 {
            self.to_move.opposite()
        } else {
            self.to_move
        }
    }

    /// Every piece of each color is either on the board or in its owner's hand.
    pub open spec fn conserves(self, s: int) -> bool {
        forall|c: Color| board_count(self.cells, c) + self.stones(c) + self.caps(c) == total_pieces(s)
    }

    pub open spec fn wf(self, s: int) -> bool {
        &&& valid_size(s)
        &&& self.cells.len() == s * s
        &&& all_flat_below_top(self.cells)
        &&& self.conserves(s)
        &&& self.white_stones >= 0 && self.black_stones >= 0
        &&& self.white_caps >= 0 && self.black_caps >= 0
        &&& 0 <= self.moves_played <= 65535
        &&& self.moves.len() == self.moves_played
    }

    /// Replacing the stacks with `cells` keeps the position well formed.
    pub open spec fn apply_cells_wf(self, s: int, cells: Seq<Seq<Piece>>) -> bool {
        &&& cells.len() == self.cells.len()
        &&& all_flat_below_top(cells)
        &&& forall|c: Color| #[trigger] board_count(cells, c) == board_count(self.cells, c)
    }

    /// Placing a piece of `role` on square `sq` is legal.
    pub open spec fn legal_place(self, s: int, role: Role, sq: int) -> bool {
        &&& 0 <= sq < s * s
        &&& self.cells[sq].len() == 0
        &&& self.moves_played < 2 ==> role == Role::Flat
        &&& role == Role::Cap ==> self.caps(self.placing_color()) > 0
        &&& role != Role::Cap ==> self.stones(self.placing_color()) > 0
    }

    /// Sliding from `sq` in direction `d` with carries `c` is legal: the mover
    /// controls the stack, carries at most `s` pieces and drops at least one on
    /// every square it reaches, never onto a capstone, and onto a wall only with
    /// a capstone alone at the end.
    pub open spec fn legal_slide(self, s: int, sq: int, d: Direction, c: Seq<int>) -> bool {
        let n = c.len() as int;
        &&& self.moves_played >= 2
        &&& 0 <= sq < s * s
        &&& self.cells[sq].len() > 0
        &&& self.cells[sq].last().color_of() == self.to_move
        &&& n <= s - 1
        &&& c[0] <= s
        &&& slide_fits(self.cells, s, sq, d, c)
        &&& forall|m: int| 1 <= m <= n ==> {
            let t = #[trigger] self.cells[path(sq, s, d, m)];
            t.len() > 0 ==> {
                &&& t.last().role_of() != Role::Cap
                &&& t.last().role_of() == Role::Wall ==> m == n && c.last() == 1
                    && self.cells[sq].last().role_of() == Role::Cap
            }
        }
    }

    pub open spec fn is_legal(self, s: int, mv: Move) -> bool {
        match mv {
            Move::Place(role, sq) => self.legal_place(s, role, sq.index()),
            Move::Move(sq, d, sm) => self.legal_slide(s, sq.index(), d, sm.carries()),
        }
    }

    /// The position after `mv`.
    pub open spec fn apply(self, s: int, mv: Move) -> BoardModel {
        let after = BoardModel {
            to_move: self.to_move.opposite(),
            moves_played: self.moves_played + 1,
            moves: self.moves.push(mv),
            ..self
        };
        match mv {
            Move::Place(role, sq) => {
                let c = self.placing_color();
                let placed = BoardModel {
                    cells: self.cells.update(sq.index(), seq![piece_of(role, c)]),
                    ..after
                };
                match (role, c) {
                    (Role::Cap, Color::White) => BoardModel { white_caps: self.white_caps - 1, ..placed },
                    (Role::Cap, Color::Black) => BoardModel { black_caps: self.black_caps - 1, ..placed },
                    (_, Color::White) => BoardModel { white_stones: self.white_stones - 1, ..placed },
                    (_, Color::Black) => BoardModel { black_stones: self.black_stones - 1, ..placed },
                }
            },
            Move::Move(sq, d, sm) => BoardModel {
                cells: slide(self.cells, s, sq.index(), d, sm.carries()),
                ..after
            },
        }
    }

    /// `rev` is the token that undoes `mv` played in this position.
    pub open spec fn undoes(self, s: int, mv: Move, rev: ReverseMove) -> bool {
        match (mv, rev) {
            (Move::Place(_, sq), ReverseMove::Place(rsq)) => rsq == sq,
            (Move::Move(sq, d, sm), ReverseMove::Move(rsq, rd, rsm, flag)) => {
                let c = sm.carries();
                let e = path(sq.index(), s, d, c.len() as int);
                &&& rsq.index() == e
                &&& rd == d.opposite()
                &&& rsm.carries() == reversed(c)
                &&& flag == (self.cells[e].len() > 0 && self.cells[e].last().role_of() == Role::Wall)
            },
            _ => false,
        }
    }

    /// The steps of a slide can be carried out: each square reached holds
    /// at least the pieces to carry on.
    pub open spec fn slide_runs(self, s: int, sq: int, d: Direction, c: Seq<int>) -> bool {
        &&& 0 <= sq < s * s
        &&& 1 <= c.len() <= MAX_SLIDE_STEPS
        &&& jump(sq, s, d, c.len() as int).is_some()
        &&& forall|i: int| 0 <= i < c.len() ==> 1 <= #[trigger] c[i] <= slide_steps(self.cells, s, sq, d, c, i as nat)[path(sq, s, d, i)].len()
    }

    /// `rev` can be played back in this position.
    pub open spec fn can_unapply(self, s: int, rev: ReverseMove) -> bool {
        &&& self.moves_played >= 1
        &&& match rev {
            ReverseMove::Place(sq) => 0 <= sq.index() < s * s && self.cells[sq.index()].len() > 0,
            ReverseMove::Move(sq, d, sm, flag) => {
                &&& self.slide_runs(s, sq.index(), d, sm.carries())
                &&& flag ==> self.cells[sq.index()].len() > sm.carries()[0]
            },
        }
    }

    /// The position after playing back `rev`.
    pub open spec fn unapply(self, s: int, rev: ReverseMove) -> BoardModel {
        let before = BoardModel {
            to_move: self.to_move.opposite(),
            moves_played: self.moves_played - 1,
            moves: self.moves.drop_last(),
            ..self
        };
        match rev {
            ReverseMove::Place(sq) => {
                let p = self.cells[sq.index()].last();
                let lifted = BoardModel {
                    cells: self.cells.update(sq.index(), self.cells[sq.index()].drop_last()),
                    ..before
                };
                match (p.role_of(), p.color_of()) {
                    (Role::Cap, Color::White) => BoardModel { white_caps: self.white_caps + 1, ..lifted },
                    (Role::Cap, Color::Black) => BoardModel { black_caps: self.black_caps + 1, ..lifted },
                    (_, Color::White) => BoardModel { white_stones: self.white_stones + 1, ..lifted },
                    (_, Color::Black) => BoardModel { black_stones: self.black_stones + 1, ..lifted },
                }
            },
            ReverseMove::Move(sq, d, sm, flag) => {
                let back = slide(self.cells, s, sq.index(), d, sm.carries());
                let t = back[sq.index()];
                BoardModel {
                    cells: if flag {
                        back.update(sq.index(), t.update(t.len() - 1, piece_of(Role::Wall, t.last().color_of())))
                    } else {
                        back
                    },
                    ..before
                }
            },
        }
    }
}

/// Counting a prefix of the squares one square further.
pub proof fn lemma_board_count_prefix(cells: Seq<Seq<Piece>>, k: int, c: Color)
    requires
        1 <= k <= cells.len(),
    ensures
        board_count(cells.take(k), c) == board_count(cells.take(k - 1), c) + color_count(cells[k - 1], c),
{
    assert(cells.take(k).drop_last() =~= cells.take(k - 1));
}

/// Squares hold no more pieces of a color than the whole board does.
pub proof fn lemma_board_count_prefix_bound(cells: Seq<Seq<Piece>>, k: int, c: Color)
    requires
        0 <= k <= cells.len(),
    ensures
        board_count(cells.take(k), c) <= board_count(cells, c),
    decreases cells.len() - k,
{
    if k < cells.len() {
        lemma_board_count_prefix_bound(cells, k + 1, c);
        lemma_board_count_prefix(cells, k + 1, c);
    } else {
        assert(cells.take(k) =~= cells);
    }
}

/// A legal slide can be carried out step by step.
pub proof fn lemma_legal_slide_runs(m: BoardModel, s: int, sq: int, d: Direction, c: Seq<int>)
    requires
        m.wf(s),
        m.legal_slide(s, sq, d, c),
    ensures
        m.slide_runs(s, sq, d, c),
        m.apply_cells_wf(s, slide(m.cells, s, sq, d, c)),
{
    let n = c.len() as int;
    assert forall|i: int| 0 <= i < c.len() implies 1 <= #[trigger] c[i] <= slide_steps(m.cells, s, sq, d, c, i as nat)[path(sq, s, d, i)].len() by {
        lemma_slide_steps(m.cells, s, sq, d, c, i as nat);
    }
    lemma_slide_steps(m.cells, s, sq, d, c, n as nat);
}

/// After a legal slide, sliding back from where it ended can be carried out.
pub proof fn lemma_slide_back_runs(m: BoardModel, s: int, sq: int, d: Direction, c: Seq<int>)
    requires
        m.wf(s),
        m.legal_slide(s, sq, d, c),
    ensures
        (BoardModel { cells: slide(m.cells, s, sq, d, c), ..m }).slide_runs(
            s,
            path(sq, s, d, c.len() as int),
            d.opposite(),
            reversed(c),
        ),
{
    let n = c.len() as int;
    let x = m.cells;
    let y = slide(x, s, sq, d, c);
    let e = path(sq, s, d, n);
    let rc = reversed(c);
    let my = BoardModel { cells: y, ..m };
    lemma_path(sq, s, d, n);
    assert forall|j: int| 0 <= j < rc.len() implies 1 <= #[trigger] rc[j] <= slide_steps(y, s, e, d.opposite(), rc, j as nat)[path(e, s, d.opposite(), j)].len() by {
        assert(rc[j] == c[n - 1 - j]);
        assert(path(e, s, d.opposite(), j) == path(sq, s, d, n - j));
        lemma_slide_steps(x, s, sq, d, c, (n - j) as nat);
        if j >= 1 {
            lemma_slide_back_steps(x, s, sq, d, c, j as nat);
        }
    }
    assert(jump(e, s, d.opposite(), n) == Some(path(sq, s, d, 0)));
}

/// Undoing a move keeps every piece accounted for.
pub proof fn lemma_unapply_wf(m: BoardModel, s: int, rev: ReverseMove)
    requires
        m.wf(s),
        m.can_unapply(s, rev),
    ensures
        m.unapply(s, rev).wf(s),
{
    let u = m.unapply(s, rev);
    match rev {
        ReverseMove::Place(sq) => {
            let i = sq.index();
            let t = m.cells[i];
            assert(t =~= t.drop_last().push(t.last()));
            assert forall|co: Color| board_count(u.cells, co) + u.stones(co) + u.caps(co) == total_pieces(s) by {
                assert(board_count(m.cells, co) + m.stones(co) + m.caps(co) == total_pieces(s));
                lemma_board_count_update(m.cells, i, t.drop_last(), co);
                lemma_count_push(t.drop_last(), t.last(), co);
            }
            assert forall|k: int| 0 <= k < u.cells.len() implies flat_below_top(#[trigger] u.cells[k]) by {
                assert(flat_below_top(m.cells[k]));
            }
            assert(u.conserves(s));
            assert(all_flat_below_top(u.cells));
            assert(u.cells.len() == s * s);
            assert(u.moves.len() == u.moves_played);
            assert(u.white_stones >= 0 && u.black_stones >= 0);
            assert(u.white_caps >= 0 && u.black_caps >= 0);
        },
        ReverseMove::Move(sq, d, sm, flag) => {
            let c = sm.carries();
            let i = sq.index();
            lemma_legal_runs_wf(m, s, i, d, c);
            let back = slide(m.cells, s, i, d, c);
            if flag {
                lemma_passed(m.cells, s, i, d, c, c.len());
                let t = back[i];
                let q = piece_of(Role::Wall, t.last().color_of());
                assert forall|co: Color| board_count(u.cells, co) + u.stones(co) + u.caps(co) == total_pieces(s) by {
                    assert(board_count(back, co) + m.stones(co) + m.caps(co) == total_pieces(s));
                    lemma_board_count_update(back, i, t.update(t.len() - 1, q), co);
                    lemma_count_replace_top(t, q, co);
                }
                assert forall|k: int| 0 <= k < u.cells.len() implies flat_below_top(#[trigger] u.cells[k]) by {
                    assert(flat_below_top(back[k]));
                }
            } else {
                assert forall|co: Color| board_count(u.cells, co) + u.stones(co) + u.caps(co) == total_pieces(s) by {
                    assert(board_count(back, co) == board_count(m.cells, co));
                    assert(board_count(m.cells, co) + m.stones(co) + m.caps(co) == total_pieces(s));
                }
            }
            assert(u.conserves(s));
        },
    }
}

/// Carrying out a slide that can be carried out keeps every piece accounted for.
pub proof fn lemma_legal_runs_wf(m: BoardModel, s: int, sq: int, d: Direction, c: Seq<int>)
    requires
        m.wf(s),
        m.slide_runs(s, sq, d, c),
    ensures
        m.apply_cells_wf(s, slide(m.cells, s, sq, d, c)),
{
    lemma_runs_steps(m, s, sq, d, c, c.len());
}

proof fn lemma_runs_steps(m: BoardModel, s: int, sq: int, d: Direction, c: Seq<int>, i: nat)
    requires
        m.wf(s),
        m.slide_runs(s, sq, d, c),
        i <= c.len(),
    ensures
        m.apply_cells_wf(s, slide_steps(m.cells, s, sq, d, c, i)),
    decreases i,
{
    lemma_path(sq, s, d, c.len() as int);
    if i > 0 {
        let k = (i - 1) as nat;
        lemma_runs_steps(m, s, sq, d, c, k);
        let prev = slide_steps(m.cells, s, sq, d, c, k);
        let a = path(sq, s, d, k as int);
        let b = path(sq, s, d, i as int);
        assert(1 <= c[k as int] <= prev[a].len());
        lemma_transfer_flat(prev, a, b, c[k as int]);
        assert forall|co: Color| board_count(slide_steps(m.cells, s, sq, d, c, i), co) == #[trigger] board_count(m.cells, co) by {
            lemma_transfer_counts(prev, a, b, c[k as int], co);
        }
    }
}

/// Doing a legal move and then reversing it with the token that the move
/// produced restores the position exactly: every stack, the stones and
/// capstones in hand, the side to move, the ply count and the move list.
/// The move also keeps every piece accounted for, and its token can be played back.
pub proof fn lemma_reverse_move_restores(m: BoardModel, s: int, mv: Move, rev: ReverseMove)
    requires
        m.wf(s),
        m.is_legal(s, mv),
        m.undoes(s, mv, rev),
        m.moves_played < 65535,
    ensures
        m.apply(s, mv).wf(s),
        m.apply(s, mv).can_unapply(s, rev),
        m.apply(s, mv).unapply(s, rev) == m,
{
    match mv {
        Move::Place(role, sq) => lemma_place_restores(m, s, role, sq, rev),
        Move::Move(sq, d, sm) => lemma_slide_restores(m, s, sq, d, sm, rev),
    }
}

proof fn lemma_place_restores(m: BoardModel, s: int, role: Role, sq: Square, rev: ReverseMove)
    requires
        m.wf(s),
        m.is_legal(s, Move::Place(role, sq)),
        m.undoes(s, Move::Place(role, sq), rev),
        m.moves_played < 65535,
    ensures
        m.apply(s, Move::Place(role, sq)).wf(s),
        m.apply(s, Move::Place(role, sq)).can_unapply(s, rev),
        m.apply(s, Move::Place(role, sq)).unapply(s, rev) == m,
{
    let mv = Move::Place(role, sq);
    let a = m.apply(s, mv);
    let i = sq.index();
    let p = piece_of(role, m.placing_color());
    assert(seq![p].drop_last() =~= m.cells[i]);
    assert(a.cells.update(i, a.cells[i].drop_last()) =~= m.cells);
    assert forall|co: Color| board_count(a.cells, co) + a.stones(co) + a.caps(co) == total_pieces(s) by {
        assert(board_count(m.cells, co) + m.stones(co) + m.caps(co) == total_pieces(s));
        lemma_board_count_update(m.cells, i, seq![p], co);
        lemma_count_push(m.cells[i], p, co);
        assert(m.cells[i].push(p) =~= seq![p]);
    }
    assert forall|k: int| 0 <= k < a.cells.len() implies flat_below_top(#[trigger] a.cells[k]) by {
        assert(flat_below_top(m.cells[k]));
    }
    assert(a.conserves(s));
    assert(a.moves.drop_last() =~= m.moves);
    assert(a.unapply(s, rev) =~= m);
}

#[verifier::rlimit(100)]
proof fn lemma_slide_restores(m: BoardModel, s: int, sq: Square, d: Direction, sm: StackMovement, rev: ReverseMove)
    requires
        m.wf(s),
        m.is_legal(s, Move::Move(sq, d, sm)),
        m.undoes(s, Move::Move(sq, d, sm), rev),
        m.moves_played < 65535,
    ensures
        m.apply(s, Move::Move(sq, d, sm)).wf(s),
        m.apply(s, Move::Move(sq, d, sm)).can_unapply(s, rev),
        m.apply(s, Move::Move(sq, d, sm)).unapply(s, rev) == m,
{
    let mv = Move::Move(sq, d, sm);
    let a = m.apply(s, mv);
    let c = sm.carries();
    let n = c.len() as int;
    let i = sq.index();
    let e = path(i, s, d, n);
    lemma_legal_slide_runs(m, s, i, d, c);
    lemma_slide_back_runs(m, s, i, d, c);
    lemma_slide_steps(m.cells, s, i, d, c, n as nat);
    lemma_path(i, s, d, n);
    assert(a.conserves(s)) by {
        assert forall|co: Color| board_count(a.cells, co) + a.stones(co) + a.caps(co) == total_pieces(s) by {
            assert(board_count(m.cells, co) + m.stones(co) + m.caps(co) == total_pieces(s));
        }
    }
    assert forall|k: int| 1 <= k < c.len() implies {
        let t = #[trigger] m.cells[path(i, s, d, k)];
        t.len() == 0 || t.last().role_of() == Role::Flat
    } by {
        let t = m.cells[path(i, s, d, k)];
        if t.len() > 0 {
            assert(t.last().role_of() != Role::Cap);
        }
    }
    lemma_slide_back(m.cells, s, i, d, c);
    let back = slide(a.cells, s, e, d.opposite(), reversed(c));
    let xe = m.cells[e];
    assert(back == m.cells.update(e, flatten_top(xe)));
    if xe.len() > 0 && xe.last().role_of() == Role::Wall {
        let t = back[e];
        assert(t == flatten_top(xe));
        assert(t.update(t.len() - 1, piece_of(Role::Wall, t.last().color_of())) =~= xe);
        assert(back.update(e, xe) =~= m.cells);
    } else {
        if xe.len() > 0 {
            assert(xe.last().role_of() != Role::Cap);
        }
        lemma_flatten_flat(xe);
        assert(back =~= m.cells);
    }
    assert(a.moves.drop_last() =~= m.moves);
    assert(a.unapply(s, rev) =~= m);
}

/// A legal slide that ends on an empty or flat-topped square can carry on one
/// more square, with fewer pieces, where the rules allow it.
proof fn lemma_extend_slide(m: BoardModel, s: int, sq: int, d: Direction, c: Seq<int>, x: int)
    requires
        m.wf(s),
        m.legal_slide(s, sq, d, c),
        1 <= x < c.last(),
        c.len() + 1 <= s - 1,
        ({
            let e = m.cells[path(sq, s, d, c.len() as int)];
            e.len() == 0 || e.last().role_of() == Role::Flat
        }),
        jump(sq, s, d, c.len() + 1 as int).is_some(),
        ({
            let t = m.cells[path(sq, s, d, c.len() + 1 as int)];
            t.len() > 0 ==> {
                &&& t.last().role_of() != Role::Cap
                &&& t.last().role_of() == Role::Wall ==> x == 1 && m.cells[sq].last().role_of() == Role::Cap
            }
        }),
    ensures
        m.legal_slide(s, sq, d, c.push(x)),
{
    let n = c.len() as int;
    let c2 = c.push(x);
    lemma_path(sq, s, d, n + 1);
    assert forall|k: int| 0 <= k < c2.len() - 1 implies #[trigger] c2[k] > c2[k + 1] by {
        if k < n - 1 {
            assert(c2[k] == c[k] && c2[k + 1] == c[k + 1]);
        }
    }
    assert forall|k: int| 0 <= k < c2.len() implies #[trigger] c2[k] >= 1 by {
        if k < n {
            assert(c2[k] == c[k]);
        }
    }
    assert forall|k: int| 1 <= k <= n + 1 implies {
        let t = #[trigger] m.cells[path(sq, s, d, k)];
        t.len() > 0 ==> {
            &&& t.last().role_of() != Role::Cap
            &&& t.last().role_of() == Role::Wall ==> k == n + 1 && c2.last() == 1
                && m.cells[sq].last().role_of() == Role::Cap
        }
    } by {
        if k <= n {
            let t = m.cells[path(sq, s, d, k)];
            assert(t.len() > 0 ==> t.last().role_of() != Role::Cap);
        }
    }
    assert(slide_fits(m.cells, s, sq, d, c2));
}

/// The opening rule: on the first two plies every legal move places a flat
/// stone, and the stone placed is of the color of the player not to move.
pub proof fn lemma_opening_places_opponent_flat(m: BoardModel, s: int, mv: Move)
    requires
        m.wf(s),
        m.moves_played < 2,
        m.is_legal(s, mv),
    ensures
        mv matches Move::Place(Role::Flat, _),
        match mv {
            Move::Place(_, sq) => m.apply(s, mv).cells[sq.index()] == seq![piece_of(Role::Flat, m.to_move.opposite())],
            _ => true,
        },
{
}

/// A legal slide never picks up more pieces than the board's side, never
/// moves more than the board's side less one squares, and never moves onto
/// a square topped by a capstone.
pub proof fn lemma_slide_bounds(m: BoardModel, s: int, mv: Move)
    requires
        m.wf(s),
        m.is_legal(s, mv),
        mv matches Move::Move(_, _, _),
    ensures
        match mv {
            Move::Move(sq, d, sm) => {
                let c = sm.carries();
                &&& 1 <= c[0] <= s
                &&& c.len() <= s - 1
                &&& forall|k: int| 1 <= k <= c.len() ==> {
                    let t = #[trigger] m.cells[path(sq.index(), s, d, k)];
                    t.len() == 0 || t.last().role_of() != Role::Cap
                }
            },
            _ => true,
        },
{
}

/// Stone conservation: in every well-formed position, and after any legal
/// move or any reversal that can be played back, the pieces of each color on
/// the board and in hand add up to the player's starting allotment.
pub proof fn lemma_stone_conservation(m: BoardModel, s: int, mv: Move, rev: ReverseMove)
    requires
        m.wf(s),
    ensures
        forall|c: Color| board_count(m.cells, c) + m.stones(c) + m.caps(c) == total_pieces(s),
        m.is_legal(s, mv) && m.moves_played < 65535 ==> forall|c: Color|
            board_count(m.apply(s, mv).cells, c) + m.apply(s, mv).stones(c) + m.apply(s, mv).caps(c) == total_pieces(s),
        m.can_unapply(s, rev) ==> forall|c: Color|
            board_count(m.unapply(s, rev).cells, c) + m.unapply(s, rev).stones(c) + m.unapply(s, rev).caps(c) == total_pieces(s),
{
    if m.is_legal(s, mv) && m.moves_played < 65535 {
        let a = m.apply(s, mv);
        match mv {
            Move::Place(role, sq) => lemma_place_restores(m, s, role, sq, ReverseMove::Place(sq)),
            Move::Move(sq, d, sm) => {
                let c = sm.carries();
                lemma_legal_slide_runs(m, s, sq.index(), d, c);
                assert(a.conserves(s)) by {
                    assert forall|co: Color| board_count(a.cells, co) + a.stones(co) + a.caps(co) == total_pieces(s) by {
                        assert(board_count(m.cells, co) + m.stones(co) + m.caps(co) == total_pieces(s));
                    }
                }
            },
        }
        assert(a.conserves(s));
    }
    if m.can_unapply(s, rev) {
        lemma_unapply_wf(m, s, rev);
    }
}

/// The stack with every piece's color swapped.
pub open spec fn flipped_stack(s: Seq<Piece>) -> Seq<Piece> {
    s.map_values(|p: Piece| p.flipped())
}

proof fn lemma_count_flipped(s: Seq<Piece>, c: Color)
    ensures
        color_count(flipped_stack(s), c) == color_count(s, c.opposite()),
    decreases s.len(),
{
    if s.len() > 0 {
        lemma_count_flipped(s.drop_last(), c);
        assert(flipped_stack(s).drop_last() =~= flipped_stack(s.drop_last()));
    }
}

proof fn lemma_board_count_flipped(cells: Seq<Seq<Piece>>, c: Color)
    ensures
        board_count(cells.map_values(|st: Seq<Piece>| flipped_stack(st)), c) == board_count(cells, c.opposite()),
    decreases cells.len(),
{
    if cells.len() > 0 {
        lemma_board_count_flipped(cells.drop_last(), c);
        lemma_count_flipped(cells.last(), c);
        assert(cells.map_values(|st: Seq<Piece>| flipped_stack(st)).drop_last()
            =~= cells.drop_last().map_values(|st: Seq<Piece>| flipped_stack(st)));
    }
}

/// A copy of the stack with every piece's color swapped.
fn flip_stack(st: Stack) -> (r: Stack)
    requires
        st.wf(),
    ensures
        r.wf(),
        r@ == flipped_stack(st@),
{
    let mut r = Stack::new();
    let mut i: u8 = 0;
    proof {
        st.lemma_wf();
    }
    while i < st.len()
        invariant
            st.wf(),
            r.wf(),
            flat_below_top(st@),
            st@.len() <= MAX_STACK_HEIGHT,
            i <= st@.len(),
            r@ == flipped_stack(st@.take(i as int)),
        decreases st@.len() - i,
    {
        let p = st.get(i).unwrap();
        let ghost before = r@;
        r.push(p.flip_color());
        proof {
            if i > 0 {
                assert(st@[i - 1].role_of() == Role::Flat);
                assert(before.last() == st@[i - 1].flipped());
                lemma_flatten_flat(before);
            }
            assert(r@ =~= flipped_stack(st@.take(i + 1)));
        }
        i = i + 1;
    }
    assert(st@.take(st@.len() as int) =~= st@);
    r
}

/// The character for a square in the position text: `-` when empty, else
/// `w`, `W`, `C` for White's flat, wall and capstone, `b`, `B`, `c` for Black's.
pub open spec fn fen_char(st: Seq<Piece>) -> char {
    if st.len() == 0 {
        '-'
    } else {
        match st.last() {
            Piece::WhiteFlat => 'w',
            Piece::WhiteWall => 'W',
            Piece::WhiteCap => 'C',
            Piece::BlackFlat => 'b',
            Piece::BlackWall => 'B',
            Piece::BlackCap => 'c',
        }
    }
}

/// The top piece that a stack shows once its top `t` pieces are gone.
pub open spec fn top_after_taking(st: Seq<Piece>, t: int) -> Option<Piece> {
    if st.len() - t == 0 {
        None
    } else {
        Some(st[st.len() - t - 1])
    }
}

/// A reflection of the board onto itself.
#[derive(Clone, Copy, PartialEq, Eq, Debug, Hash, Structural)]
pub enum Mirror {
    /// Rank `r` goes to rank `s - 1 - r`.
    Ranks,
    /// File `f` goes to file `s - 1 - f`.
    Files,
    /// Rank and file trade places.
    Diagonal,
}

/// The square that square `i` is reflected onto.
pub open spec fn mirrored(m: Mirror, i: int, s: int) -> int {
    let r = rank_of(i, s);
    let f = file_of(i, s);
    match m {
        Mirror::Ranks => f * s + (s - 1 - r),
        Mirror::Files => (s - 1 - f) * s + r,
        Mirror::Diagonal => r * s + f,
    }
}

/// A reflection stays on the board and undoes itself.
pub proof fn lemma_mirror_involution(m: Mirror, i: int, s: int)
    requires
        s > 0,
        0 <= i < s * s,
    ensures
        0 <= mirrored(m, i, s) < s * s,
        mirrored(m, mirrored(m, i, s), s) == i,
{
    lemma_coords(i, s);
    let r = rank_of(i, s);
    let f = file_of(i, s);
    match m {
        Mirror::Ranks => lemma_from_coords(f, s - 1 - r, s),
        Mirror::Files => lemma_from_coords(s - 1 - f, r, s),
        Mirror::Diagonal => lemma_from_coords(r, f, s),
    }
}

/// Move `mv` is the slide from square `sq` in direction `d` with carries `c`.
pub open spec fn slide_matches(mv: Move, sq: int, d: Direction, c: Seq<int>) -> bool {
    match mv {
        Move::Move(q, d2, sm) => q.index() == sq && d2 == d && sm.carries() == c,
        _ => false,
    }
}

/// Some move of `moves` from index `from` on is the slide from `sq` in direction `d` with carries `c`.
pub open spec fn has_slide(moves: Seq<Move>, from: int, sq: int, d: Direction, c: Seq<int>) -> bool {
    exists|i: int| from <= i < moves.len() && #[trigger] slide_matches(moves[i], sq, d, c)
}

proof fn lemma_has_slide_grow(a: Seq<Move>, b: Seq<Move>, from: int, sq: int, d: Direction, c: Seq<int>)
    requires
        0 <= from,
        has_slide(a, from, sq, d, c),
        a.len() <= b.len(),
        b.subrange(0, a.len() as int) == a,
    ensures
        has_slide(b, from, sq, d, c),
{
    let i = choose|i: int| from <= i < a.len() && #[trigger] slide_matches(a[i], sq, d, c);
    assert(b[i] == b.subrange(0, a.len() as int)[i]);
    assert(slide_matches(b[i], sq, d, c));
}

/// The carries of a slide; empty for a placement.
pub open spec fn carries_of(mv: Move) -> Seq<int> {
    match mv {
        Move::Move(_, _, sm) => sm.carries(),
        _ => Seq::empty(),
    }
}

/// Move `mv` is a slide from square `sq` in direction `d` whose carries begin with `c`.
pub open spec fn slide_extends(mv: Move, sq: int, d: Direction, c: Seq<int>) -> bool {
    match mv {
        Move::Move(q, d2, sm) => q.index() == sq && d2 == d && sm.carries().len() >= c.len()
            && sm.carries().take(c.len() as int) == c,
        _ => false,
    }
}

/// The moves of `moves` from index `from` on are pairwise distinct.
pub open spec fn distinct_from(moves: Seq<Move>, from: int) -> bool {
    forall|i: int, j: int| from <= i < j < moves.len() ==> #[trigger] moves[i] != #[trigger] moves[j]
}

/// Move `mv` is a slide from square `sq`.
pub open spec fn is_slide_from(mv: Move, sq: int) -> bool {
    match mv {
        Move::Move(q, _, _) => q.index() == sq,
        _ => false,
    }
}

/// The direction of a slide.
pub open spec fn slide_direction(mv: Move) -> Direction {
    match mv {
        Move::Move(_, d, _) => d,
        _ => Direction::North,
    }
}

/// The position of a direction in the order North, West, East, South.
pub open spec fn direction_index(d: Direction) -> int {
    match d {
        Direction::North => 0,
        Direction::West => 1,
        Direction::East => 2,
        Direction::South => 3,
    }
}

/// The square that a slide starts from; -1 for a placement.
pub open spec fn slide_square(mv: Move) -> int {
    match mv {
        Move::Move(q, _, _) => q.index(),
        _ => -1,
    }
}

/// The square of a placement; -1 for a slide.
pub open spec fn placement_square(mv: Move) -> int {
    match mv {
        Move::Place(_, q) => q.index(),
        _ => -1,
    }
}

/// Complete representation of a Tak position on a board of side `S`.
pub struct Board<const S: usize> {
    cells: AbstractBoard<Stack, S>,
    to_move: Color,
    white_stones_left: u8,
    black_stones_left: u8,
    white_capstones_left: u8,
    black_capstones_left: u8,
    moves_played: u16,
    komi: Komi,
    moves: Vec<Move>,
}

impl<const S: usize> Board<S> {
    pub closed spec fn model(self) -> BoardModel {
        BoardModel {
            cells: self.cells@.map_values(|st: Stack| st@),
            to_move: self.to_move,
            white_stones: self.white_stones_left as int,
            black_stones: self.black_stones_left as int,
            white_caps: self.white_capstones_left as int,
            black_caps: self.black_capstones_left as int,
            moves_played: self.moves_played as int,
            moves: self.moves@,
        }
    }

    pub closed spec fn komi_of(self) -> Komi {
        self.komi
    }

    pub closed spec fn wf(self) -> bool {
        &&& self.model().wf(S as int)
        &&& self.cells@.len() == S * S
        &&& forall|i: int| 0 <= i < self.cells@.len() ==> (#[trigger] self.cells@[i]).wf()
    }

    /// The empty board with the given komi.
    pub fn start_board_with_komi(komi: Komi) -> (r: Board<S>)
        requires
            valid_size(S as int),
        ensures
            r.wf(),
            r.komi_of() == komi,
            r.model().to_move == Color::White,
            r.model().moves_played == 0,
            r.model().moves.len() == 0,
            forall|c: Color| r.model().stones(c) == start_stones(S as int),
            forall|c: Color| r.model().caps(c) == start_caps(S as int),
            forall|i: int| 0 <= i < S * S ==> (#[trigger] r.model().cells[i]).len() == 0,
            r.model().cells.len() == S * S,
    {
        let empty = Stack::new();
        let cells = AbstractBoard::<Stack, S>::new_with_value(empty);
        let stones = starting_stones::<S>();
        let caps = starting_capstones::<S>();
        let r = Board {
            cells,
            to_move: Color::White,
            white_stones_left: stones,
            black_stones_left: stones,
            white_capstones_left: caps,
            black_capstones_left: caps,
            moves_played: 0,
            komi,
            moves: Vec::new(),
        };
        proof {
            let m = r.model();
            assert forall|i: int| 0 <= i < m.cells.len() implies #[trigger] m.cells[i].len() == 0 by {}
            assert forall|c: Color| board_count(m.cells, c) + m.stones(c) + m.caps(c) == total_pieces(S as int) by {
                lemma_board_count_empty(m.cells, c);
            }
            assert forall|i: int| 0 <= i < m.cells.len() implies flat_below_top(#[trigger] m.cells[i]) by {}
        }
        r
    }

    /// The empty board, without komi.
    pub fn start_board() -> (r: Board<S>)
        requires
            valid_size(S as int),
        ensures
            r.wf(),
            r.komi_of().half() == 0,
            r.model().to_move == Color::White,
            r.model().moves_played == 0,
            r.model().moves.len() == 0,
            forall|c: Color| r.model().stones(c) == start_stones(S as int),
            forall|c: Color| r.model().caps(c) == start_caps(S as int),
            forall|i: int| 0 <= i < S * S ==> (#[trigger] r.model().cells[i]).len() == 0,
            r.model().cells.len() == S * S,
    {
        Self::start_board_with_komi(Komi::zero())
    }

    /// Moves the top `t` pieces of `from` onto `to`, keeping their order.
    fn move_pieces(&mut self, from: Square, to: Square, t: u8)
        requires
            old(self).wf(),
            from.index() < S * S,
            to.index() < S * S,
            from != to,
            1 <= t <= old(self).model().cells[from.index()].len(),
        ensures
            final(self).wf(),
            final(self).komi_of() == old(self).komi_of(),
            final(self).model() == (BoardModel {
                cells: transfer(old(self).model().cells, from.index(), to.index(), t as int),
                ..old(self).model()
            }),
    {
        let ghost m0 = self.model();
        let ghost fi = from.index();
        let ghost ti = to.index();
        let mut a = self.cells.get(from);
        let mut b = self.cells.get(to);
        let ghost sa = a@;
        let ghost sb = b@;
        proof {
            assert(m0.cells[fi] == sa);
            assert(m0.cells[ti] == sb);
            lemma_board_count_two(m0.cells, fi, ti, Color::White);
            lemma_board_count_two(m0.cells, fi, ti, Color::Black);
            lemma_count_colors(sa);
            lemma_count_colors(sb);
            assert(m0.conserves(S as int));
            assert(board_count(m0.cells, Color::White) + m0.stones(Color::White) + m0.caps(Color::White) == total_pieces(S as int));
            assert(board_count(m0.cells, Color::Black) + m0.stones(Color::Black) + m0.caps(Color::Black) == total_pieces(S as int));
            assert(flat_below_top(sa));
        }
        let keep: u8 = a.len() - t;
        let mut moved: u8 = 0;
        while moved < t
            invariant
                a.wf(),
                b.wf(),
                0 <= moved <= t,
                keep + t == sa.len(),
                sa.len() + sb.len() <= 104,
                flat_below_top(sa),
                a@ == sa.take(keep as int) + sa.subrange(keep + moved, sa.len() as int),
                moved == 0 ==> b@ == sb,
                moved > 0 ==> b@ == flatten_top(sb) + sa.subrange(keep as int, keep + moved),
            decreases t - moved,
        {
            let ghost b_before = b@;
            let piece = a.get(keep).unwrap();
            assert(piece == sa[keep + moved]);
            b.push(piece);
            a.remove(keep);
            proof {
                assert(a@ =~= sa.take(keep as int) + sa.subrange(keep + moved + 1, sa.len() as int));
                if moved > 0 {
                    let prev = sa[keep + moved - 1];
                    assert(b_before.last() == prev);
                    assert(prev.role_of() == Role::Flat);
                    lemma_flatten_flat(b_before);
                }
                assert(b@ =~= flatten_top(sb) + sa.subrange(keep as int, keep + moved + 1));
            }
            moved = moved + 1;
        }
        self.cells.set(from, a);
        self.cells.set(to, b);
        proof {
            assert(a@ =~= sa.take(keep as int));
            assert(b@ =~= flatten_top(sb) + sa.skip(keep as int));
            let m1 = self.model();
            assert(m1.cells =~= transfer(m0.cells, fi, ti, t as int));
            lemma_transfer_flat(m0.cells, fi, ti, t as int);
            assert forall|co: Color| board_count(m1.cells, co) + m1.stones(co) + m1.caps(co) == total_pieces(S as int) by {
                lemma_transfer_counts(m0.cells, fi, ti, t as int, co);
                assert(board_count(m0.cells, co) + m0.stones(co) + m0.caps(co) == total_pieces(S as int));
            }
        }
    }

    /// Carries out a slide step by step. Returns the square where it ends, and
    /// whether that square was topped by a wall.
    fn slide_pieces(&mut self, sq: Square, d: Direction, sm: &StackMovement) -> (r: (Square, bool))
        requires
            old(self).wf(),
            old(self).model().slide_runs(S as int, sq.index(), d, sm.carries()),
        ensures
            final(self).wf(),
            final(self).komi_of() == old(self).komi_of(),
            final(self).model() == (BoardModel {
                cells: slide(old(self).model().cells, S as int, sq.index(), d, sm.carries()),
                ..old(self).model()
            }),
            r.0.index() == path(sq.index(), S as int, d, sm.carries().len() as int),
            ({
                let e = old(self).model().cells[r.0.index()];
                r.1 == (e.len() > 0 && e.last().role_of() == Role::Wall)
            }),
    {
        let ghost m0 = self.model();
        let ghost k0 = self.komi_of();
        let ghost c = sm.carries();
        let ghost s = S as int;
        let n = sm.len();
        proof {
            lemma_path(sq.index(), s, d, n as int);
        }
        let mut from = sq;
        let mut flattens = false;
        let mut i: usize = 0;
        while i < n
            invariant
                self.wf(),
                self.komi_of() == k0,
                n == c.len(),
                c == sm.carries(),
                m0.wf(s),
                s == S as int,
                m0.slide_runs(s, sq.index(), d, c),
                i <= n,
                from.index() == path(sq.index(), s, d, i as int),
                self.model() == (BoardModel { cells: slide_steps(m0.cells, s, sq.index(), d, c, i as nat), ..m0 }),
                i >= 1 ==> flattens == ({
                    let e = m0.cells[path(sq.index(), s, d, i as int)];
                    e.len() > 0 && e.last().role_of() == Role::Wall
                }),
            decreases n - i,
        {
            proof {
                lemma_path(sq.index(), s, d, n as int);
                assert(0 <= path(sq.index(), s, d, i as int) < s * s);
                lemma_path_step(sq.index(), s, d, i as int, n as int);
                lemma_untouched(m0.cells, s, sq.index(), d, c, i as nat, i + 1);
            }
            let to = from.go_direction::<S>(d).unwrap();
            let top = self.cells.get(to).top_stone();
            flattens = match top {
                Some(piece) => piece.role() == Role::Wall,
                None => false,
            };
            let t = sm.get(i).pieces_to_take;
            assert(1 <= c[i as int]);
            self.move_pieces(from, to, t);
            from = to;
            i = i + 1;
        }
        (from, flattens)
    }

    /// Plays a legal move, and returns the token that takes it back.
    pub fn do_move(&mut self, mv: Move) -> (r: ReverseMove)
        requires
            old(self).wf(),
            old(self).model().is_legal(S as int, mv),
            old(self).model().moves_played < 65535,
        ensures
            final(self).wf(),
            final(self).komi_of() == old(self).komi_of(),
            final(self).model() == old(self).model().apply(S as int, mv),
            old(self).model().undoes(S as int, mv, r),
            final(self).model().can_unapply(S as int, r),
    {
        let ghost m0 = self.model();
        let rev = match &mv {
            Move::Place(role, to) => {
                // On the first two plies, the players place the opponent's color
                let color_to_place = if self.moves_played > 1 {
                    self.to_move
                } else {
                    self.to_move.flip()
                };
                let mut st = self.cells.get(*to);
                let piece = Piece::from_role_color(*role, color_to_place);
                st.push(piece);
                self.cells.set(*to, st);
                match (color_to_place, role) {
                    (Color::White, Role::Cap) => self.white_capstones_left = self.white_capstones_left - 1,
                    (Color::Black, Role::Cap) => self.black_capstones_left = self.black_capstones_left - 1,
                    (Color::White, _) => self.white_stones_left = self.white_stones_left - 1,
                    (Color::Black, _) => self.black_stones_left = self.black_stones_left - 1,
                }
                proof {
                    assert(st@ =~= seq![piece]);
                    assert(self.model().cells =~= m0.cells.update(to.index(), seq![piece]));
                }
                ReverseMove::Place(*to)
            },
            Move::Move(from, direction, sm) => {
                proof {
                    lemma_legal_slide_runs(m0, S as int, from.index(), *direction, sm.carries());
                }
                let (end, flattens) = self.slide_pieces(*from, *direction, sm);
                let n = sm.len();
                let mut back: Vec<Movement> = Vec::new();
                let mut k = n;
                let ghost c = sm.carries();
                while k > 0
                    invariant
                        k <= n,
                        n == c.len(),
                        c == sm.carries(),
                        back@.map_values(|m: Movement| m.pieces_to_take as int) == reversed(c).take(n - k),
                    decreases k,
                {
                    k = k - 1;
                    let ghost before = back@;
                    let step_k = sm.get(k);
                    back.push(step_k);
                    proof {
                        let f = |m: Movement| m.pieces_to_take as int;
                        assert(back@ == before.push(step_k));
                        assert(back@.map_values(f) =~= before.map_values(f).push(c[k as int]));
                        assert(reversed(c)[n - k - 1] == c[k as int]);
                        assert(reversed(c).take(n - k) =~= reversed(c).take(n - k - 1).push(c[k as int]));
                    }
                }
                assert(reversed(c).take(n as int) =~= reversed(c));
                ReverseMove::Move(end, direction.reverse(), StackMovement::from_movements::<S>(back), flattens)
            },
        };
        self.moves.push(mv);
        self.to_move = self.to_move.flip();
        self.moves_played = self.moves_played + 1;
        proof {
            lemma_reverse_move_restores(m0, S as int, mv, rev);
            assert(self.model() =~= m0.apply(S as int, mv));
        }
        rev
    }

    /// Takes back the move that produced the token `rev`.
    pub fn reverse_move(&mut self, rev: ReverseMove)
        requires
            old(self).wf(),
            old(self).model().can_unapply(S as int, rev),
        ensures
            final(self).wf(),
            final(self).komi_of() == old(self).komi_of(),
            final(self).model() == old(self).model().unapply(S as int, rev),
    {
        let ghost m0 = self.model();
        proof {
            lemma_unapply_wf(m0, S as int, rev);
            assert(m0.conserves(S as int));
            assert(board_count(m0.cells, Color::White) + m0.stones(Color::White) + m0.caps(Color::White) == total_pieces(S as int));
            assert(board_count(m0.cells, Color::Black) + m0.stones(Color::Black) + m0.caps(Color::Black) == total_pieces(S as int));
        }
        match &rev {
            ReverseMove::Place(square) => {
                let mut st = self.cells.get(*square);
                let piece = st.pop().unwrap();
                self.cells.set(*square, st);
                match piece {
                    Piece::WhiteFlat | Piece::WhiteWall => self.white_stones_left = self.white_stones_left + 1,
                    Piece::WhiteCap => self.white_capstones_left = self.white_capstones_left + 1,
                    Piece::BlackFlat | Piece::BlackWall => self.black_stones_left = self.black_stones_left + 1,
                    Piece::BlackCap => self.black_capstones_left = self.black_capstones_left + 1,
                }
                proof {
                    assert(self.model().cells =~= m0.cells.update(square.index(), m0.cells[square.index()].drop_last()));
                }
            },
            ReverseMove::Move(from, direction, sm, flattens_wall) => {
                let ghost mid = self.model();
                self.slide_pieces(*from, *direction, sm);
                if *flattens_wall {
                    proof {
                        lemma_passed(m0.cells, S as int, from.index(), *direction, sm.carries(), sm.carries().len());
                    }
                    let mut st = self.cells.get(*from);
                    let top = st.top_stone().unwrap();
                    st.replace_top(Piece::from_role_color(Role::Wall, top.color()));
                    self.cells.set(*from, st);
                    proof {
                        let back = slide(m0.cells, S as int, from.index(), *direction, sm.carries());
                        let t = back[from.index()];
                        assert(self.model().cells =~= back.update(
                            from.index(),
                            t.update(t.len() - 1, piece_of(Role::Wall, t.last().color_of())),
                        ));
                    }
                }
            },
        }
        self.moves.pop();
        self.moves_played = self.moves_played - 1;
        self.to_move = self.to_move.flip();
        proof {
            assert(self.model() =~= m0.unapply(S as int, rev));
        }
    }

    pub fn side_to_move(&self) -> (r: Color)
        ensures
            r == self.model().to_move,
    {
        self.to_move
    }

    /// Flat stones and capstones in hand: White's stones and capstones, then Black's.
    pub fn pieces_in_hand(&self) -> (r: (u8, u8, u8, u8))
        ensures
            r.0 == self.model().white_stones,
            r.1 == self.model().white_caps,
            r.2 == self.model().black_stones,
            r.3 == self.model().black_caps,
    {
        (self.white_stones_left, self.white_capstones_left, self.black_stones_left, self.black_capstones_left)
    }

    pub fn komi(&self) -> (r: Komi)
        ensures
            r == self.komi_of(),
    {
        self.komi
    }

    /// Number of moves/plies played in the game.
    pub fn half_moves_played(&self) -> (r: u16)
        ensures
            r == self.model().moves_played,
    {
        self.moves_played
    }

    /// All the moves played in the game.
    pub fn moves(&self) -> (r: &Vec<Move>)
        ensures
            r@ == self.model().moves,
    {
        &self.moves
    }

    /// Passes the turn to the other player without moving.
    pub fn null_move(&mut self)
        requires
            old(self).wf(),
        ensures
            final(self).wf(),
            final(self).komi_of() == old(self).komi_of(),
            final(self).model() == (BoardModel { to_move: old(self).model().to_move.opposite(), ..old(self).model() }),
    {
        let ghost m0 = self.model();
        self.to_move = self.to_move.flip();
        proof {
            assert(self.model() =~= (BoardModel { to_move: m0.to_move.opposite(), ..m0 }));
            assert(self.model().conserves(S as int)) by {
                assert forall|c: Color| board_count(self.model().cells, c) + self.model().stones(c) + self.model().caps(c) == total_pieces(S as int) by {
                    assert(board_count(m0.cells, c) + m0.stones(c) + m0.caps(c) == total_pieces(S as int));
                }
            }
        }
    }

    /// Reads the text of a move, such as `Sd3` or `3a1>12`, for this board's size.
    pub fn move_from_san(&self, input: &str) -> (r: Result<Move, pgn_traits::Error>)
        requires
            self.wf(),
        ensures
            r.is_ok() <==> crate::notation::parse_move_text(input@, S as int).is_some(),
            r.is_ok() ==> crate::notation::move_view(r.unwrap()) == crate::notation::parse_move_text(input@, S as int).unwrap(),
    {
        proof {
            self.lemma_wf();
        }
        crate::notation::move_from_san::<S>(input)
    }

    /// The same position with the colors swapped: every piece, the pieces in
    /// hand and the side to move.
    pub fn flip_colors(&self) -> (r: Board<S>)
        requires
            self.wf(),
        ensures
            r.wf(),
            r.komi_of() == self.komi_of(),
            r.model().cells == self.model().cells.map_values(|st: Seq<Piece>| flipped_stack(st)),
            r.model().to_move == self.model().to_move.opposite(),
            r.model().white_stones == self.model().black_stones,
            r.model().black_stones == self.model().white_stones,
            r.model().white_caps == self.model().black_caps,
            r.model().black_caps == self.model().white_caps,
            r.model().moves_played == self.model().moves_played,
    {
        let ghost m = self.model();
        proof {
            self.lemma_wf();
        }
        let mut raw: Vec<Stack> = Vec::new();
        let mut i: usize = 0;
        while i < S * S
            invariant
                self.wf(),
                m == self.model(),
                S * S <= 64,
                i <= S * S,
                raw@.len() == i,
                forall|k: int| 0 <= k < i ==> (#[trigger] raw@[k]).wf() && raw@[k]@ == flipped_stack(m.cells[k]),
            decreases S * S - i,
        {
            let st = self.cells.get(Square(i as u8));
            raw.push(flip_stack(st));
            i = i + 1;
        }
        let mut moves: Vec<Move> = Vec::new();
        let mut k: usize = 0;
        while k < self.moves.len()
            invariant
                k <= self.moves@.len(),
                moves@.len() == k,
            decreases self.moves@.len() - k,
        {
            moves.push(self.moves[k].clone());
            k = k + 1;
        }
        let r = Board {
            cells: AbstractBoard { raw },
            to_move: self.to_move.flip(),
            white_stones_left: self.black_stones_left,
            black_stones_left: self.white_stones_left,
            white_capstones_left: self.black_capstones_left,
            black_capstones_left: self.white_capstones_left,
            moves_played: self.moves_played,
            komi: self.komi,
            moves,
        };
        proof {
            let rm = r.model();
            assert(rm.cells =~= m.cells.map_values(|st: Seq<Piece>| flipped_stack(st)));
            assert forall|c: Color| board_count(rm.cells, c) + rm.stones(c) + rm.caps(c) == total_pieces(S as int) by {
                lemma_board_count_flipped(m.cells, c);
                assert(board_count(m.cells, c.opposite()) + m.stones(c.opposite()) + m.caps(c.opposite()) == total_pieces(S as int));
            }
            assert forall|k: int| 0 <= k < rm.cells.len() implies flat_below_top(#[trigger] rm.cells[k]) by {
                assert(flat_below_top(m.cells[k]));
            }
        }
        r
    }

    /// The number of pieces on the board.
    pub fn count_all_pieces(&self) -> (r: u8)
        requires
            self.wf(),
        ensures
            r == board_count(self.model().cells, Color::White) + board_count(self.model().cells, Color::Black),
    {
        let ghost m = self.model();
        proof {
            self.lemma_wf();
            assert(board_count(m.cells, Color::White) + m.stones(Color::White) + m.caps(Color::White) == total_pieces(S as int));
            assert(board_count(m.cells, Color::Black) + m.stones(Color::Black) + m.caps(Color::Black) == total_pieces(S as int));
            assert(m.cells.take(S * S) =~= m.cells);
        }
        let mut total: u8 = 0;
        let mut i: usize = 0;
        while i < S * S
            invariant
                self.wf(),
                m == self.model(),
                S * S <= 64,
                m.cells.len() == S * S,
                i <= S * S,
                total == board_count(m.cells.take(i as int), Color::White) + board_count(m.cells.take(i as int), Color::Black),
                board_count(m.cells, Color::White) + board_count(m.cells, Color::Black) <= 104,
            decreases S * S - i,
        {
            let st = self.cells.get(Square(i as u8));
            proof {
                assert(m.cells.take(i + 1).drop_last() =~= m.cells.take(i as int));
                lemma_count_colors(m.cells[i as int]);
                lemma_board_count_prefix(m.cells, (i + 1) as int, Color::White);
                lemma_board_count_prefix(m.cells, (i + 1) as int, Color::Black);
                lemma_board_count_prefix_bound(m.cells, (i + 1) as int, Color::White);
                lemma_board_count_prefix_bound(m.cells, (i + 1) as int, Color::Black);
            }
            total = total + st.len();
            i = i + 1;
        }
        total
    }

    /// The position text: one character for the top of every square, in index order.
    pub fn to_fen(&self) -> (r: String)
        requires
            self.wf(),
        ensures
            r@ == Seq::new((S * S) as nat, |i: int| fen_char(self.model().cells[i])),
    {
        let ghost m = self.model();
        proof {
            self.lemma_wf();
        }
        let mut r = String::new();
        let mut i: usize = 0;
        while i < S * S
            invariant
                self.wf(),
                m == self.model(),
                S * S <= 64,
                i <= S * S,
                r@ == Seq::new(i as nat, |k: int| fen_char(m.cells[k])),
            decreases S * S - i,
        {
            let st = self.cells.get(Square(i as u8));
            let ch = match st.top_stone() {
                None => '-',
                Some(Piece::WhiteFlat) => 'w',
                Some(Piece::WhiteWall) => 'W',
                Some(Piece::WhiteCap) => 'C',
                Some(Piece::BlackFlat) => 'b',
                Some(Piece::BlackWall) => 'B',
                Some(Piece::BlackCap) => 'c',
            };
            push_char(&mut r, ch);
            i = i + 1;
            assert(r@ =~= Seq::new(i as nat, |k: int| fen_char(m.cells[k])));
        }
        r
    }

    /// The top piece left on `square` after each step of the slide has picked
    /// up its pieces there, followed by the square's current top piece.
    pub fn top_stones_left_behind_by_move(&self, square: Square, stack_movement: &StackMovement) -> (r: Vec<Option<Piece>>)
        requires
            self.wf(),
            square.on_board(S as int),
            forall|i: int| 0 <= i < stack_movement.carries().len() ==> 0 <= #[trigger] stack_movement.carries()[i]
                <= self.model().cells[square.index()].len(),
        ensures
            r@.len() == stack_movement.carries().len() + 1,
            forall|i: int| 0 <= i < stack_movement.carries().len() ==> #[trigger] r@[i] == top_after_taking(
                self.model().cells[square.index()],
                stack_movement.carries()[i],
            ),
            r@.last() == top_after_taking(self.model().cells[square.index()], 0),
    {
        let ghost m = self.model();
        let ghost c = stack_movement.carries();
        let st = self.cells.get(square);
        let n = stack_movement.len();
        let mut r: Vec<Option<Piece>> = Vec::new();
        let mut i: usize = 0;
        while i < n
            invariant
                st.wf(),
                st@ == m.cells[square.index()],
                n == c.len(),
                c == stack_movement.carries(),
                forall|k: int| 0 <= k < c.len() ==> 0 <= #[trigger] c[k] <= st@.len(),
                i <= n,
                r@.len() == i,
                forall|k: int| 0 <= k < i ==> #[trigger] r@[k] == top_after_taking(st@, c[k]),
            decreases n - i,
        {
            let t = stack_movement.get(i).pieces_to_take;
            assert(0 <= c[i as int] <= st@.len());
            let piece_index = st.len() - t;
            if piece_index == 0 {
                r.push(None);
            } else {
                r.push(st.get(piece_index - 1));
            }
            i = i + 1;
        }
        r.push(st.top_stone());
        r
    }

    /// Exchanges the stacks of two squares.
    fn swap_cells(&mut self, a: Square, b: Square)
        requires
            old(self).wf(),
            a.on_board(S as int),
            b.on_board(S as int),
        ensures
            final(self).wf(),
            final(self).komi_of() == old(self).komi_of(),
            final(self).model() == (BoardModel {
                cells: old(self).model().cells.update(a.index(), old(self).model().cells[b.index()]).update(
                    b.index(),
                    old(self).model().cells[a.index()],
                ),
                ..old(self).model()
            }),
    {
        let ghost m0 = self.model();
        let sa = self.cells.get(a);
        let sb = self.cells.get(b);
        self.cells.set(a, sb);
        self.cells.set(b, sa);
        proof {
            let m1 = self.model();
            let c1 = m0.cells.update(a.index(), m0.cells[b.index()]);
            assert(m1.cells =~= c1.update(b.index(), m0.cells[a.index()]));
            assert forall|co: Color| board_count(m1.cells, co) + m1.stones(co) + m1.caps(co) == total_pieces(S as int) by {
                assert(board_count(m0.cells, co) + m0.stones(co) + m0.caps(co) == total_pieces(S as int));
                lemma_board_count_update(m0.cells, a.index(), m0.cells[b.index()], co);
                lemma_board_count_update(c1, b.index(), m0.cells[a.index()], co);
            }
            assert forall|k: int| 0 <= k < m1.cells.len() implies flat_below_top(#[trigger] m1.cells[k]) by {
                assert(flat_below_top(m0.cells[k]));
                assert(flat_below_top(m0.cells[a.index()]));
                assert(flat_below_top(m0.cells[b.index()]));
            }
        }
    }

    /// A copy of the position.
    pub fn duplicate(&self) -> (r: Board<S>)
        requires
            self.wf(),
        ensures
            r.wf(),
            r.komi_of() == self.komi_of(),
            r.model().cells == self.model().cells,
            r.model().to_move == self.model().to_move,
            r.model().white_stones == self.model().white_stones,
            r.model().black_stones == self.model().black_stones,
            r.model().white_caps == self.model().white_caps,
            r.model().black_caps == self.model().black_caps,
            r.model().moves_played == self.model().moves_played,
            r.model().moves.len() == self.model().moves.len(),
    {
        let ghost m = self.model();
        let mut raw: Vec<Stack> = Vec::new();
        let mut i: usize = 0;
        while i < self.cells.raw.len()
            invariant
                i <= self.cells@.len(),
                raw@ == self.cells@.subrange(0, i as int),
            decreases self.cells@.len() - i,
        {
            raw.push(self.cells.raw[i]);
            i = i + 1;
            assert(raw@ =~= self.cells@.subrange(0, i as int));
        }
        assert(raw@ =~= self.cells@);
        let mut moves: Vec<Move> = Vec::new();
        let mut k: usize = 0;
        while k < self.moves.len()
            invariant
                k <= self.moves@.len(),
                moves@.len() == k,
            decreases self.moves@.len() - k,
        {
            moves.push(self.moves[k].clone());
            k = k + 1;
        }
        let r = Board {
            cells: AbstractBoard { raw },
            to_move: self.to_move,
            white_stones_left: self.white_stones_left,
            black_stones_left: self.black_stones_left,
            white_capstones_left: self.white_capstones_left,
            black_capstones_left: self.black_capstones_left,
            moves_played: self.moves_played,
            komi: self.komi,
            moves,
        };
        proof {
            assert(r.model().cells =~= m.cells);
            assert forall|co: Color| board_count(r.model().cells, co) + r.model().stones(co) + r.model().caps(co) == total_pieces(S as int) by {
                assert(board_count(m.cells, co) + m.stones(co) + m.caps(co) == total_pieces(S as int));
            }
        }
        r
    }

    /// The position reflected by `mirror`: the stack of every square moves to
    /// the square it is reflected onto.
    pub fn mirror(&self, mirror: Mirror) -> (r: Board<S>)
        requires
            self.wf(),
        ensures
            r.wf(),
            r.komi_of() == self.komi_of(),
            forall|i: int| 0 <= i < S * S ==> #[trigger] r.model().cells[i] == self.model().cells[mirrored(mirror, i, S as int)],
            r.model().to_move == self.model().to_move,
            r.model().white_stones == self.model().white_stones,
            r.model().black_stones == self.model().black_stones,
            r.model().white_caps == self.model().white_caps,
            r.model().black_caps == self.model().black_caps,
            r.model().moves_played == self.model().moves_played,
    {
        let ghost m = self.model();
        let ghost s = S as int;
        proof {
            self.lemma_wf();
        }
        let mut r = self.duplicate();
        let mut i: u8 = 0;
        proof {
            assert forall|k: int| 0 <= k < S * S implies 0 <= #[trigger] mirrored(mirror, k, s) < s * s by {
                lemma_mirror_involution(mirror, k, s);
            }
        }
        while (i as usize) < S * S
            invariant
                r.wf(),
                valid_size(s),
                s == S as int,
                S * S <= 64,
                i <= S * S,
                r.model().cells.len() == S * S,
                m.cells.len() == S * S,
                r.komi_of() == self.komi_of(),
                r.model().to_move == m.to_move,
                r.model().white_stones == m.white_stones,
                r.model().black_stones == m.black_stones,
                r.model().white_caps == m.white_caps,
                r.model().black_caps == m.black_caps,
                r.model().moves_played == m.moves_played,
                forall|k: int| 0 <= k < S * S ==> #[trigger] r.model().cells[k] == if k < i || mirrored(mirror, k, s) < i {
                    m.cells[mirrored(mirror, k, s)]
                } else {
                    m.cells[k]
                },
            decreases S * S - i,
        {
            let sq = Square(i);
            proof {
                lemma_coords(i as int, s);
            }
            let rank = sq.rank::<S>();
            let file = sq.file::<S>();
            let target = match mirror {
                Mirror::Ranks => Square::from_rank_file::<S>(S as u8 - 1 - rank, file),
                Mirror::Files => Square::from_rank_file::<S>(rank, S as u8 - 1 - file),
                Mirror::Diagonal => Square::from_rank_file::<S>(file, rank),
            };
            proof {
                lemma_coords(i as int, s);
                lemma_mirror_involution(mirror, i as int, s);
                assert(target.index() == mirrored(mirror, i as int, s));
            }
            let ghost before = r.model().cells;
            if target.0 > i {
                r.swap_cells(sq, target);
            }
            proof {
                assert forall|k: int| 0 <= k < S * S implies #[trigger] r.model().cells[k] == if k < i + 1 || mirrored(mirror, k, s) < i + 1 {
                    m.cells[mirrored(mirror, k, s)]
                } else {
                    m.cells[k]
                } by {
                    lemma_mirror_involution(mirror, k, s);
                    if k == target.index() && target.0 > i {
                        assert(mirrored(mirror, k, s) == i);
                    }
                }
            }
            i = i + 1;
        }
        r
    }

    /// The position with ranks reflected.
    pub fn flip_board_y(&self) -> (r: Board<S>)
        requires
            self.wf(),
        ensures
            r.wf(),
            forall|i: int| 0 <= i < S * S ==> #[trigger] r.model().cells[i] == self.model().cells[mirrored(Mirror::Ranks, i, S as int)],
            r.model().to_move == self.model().to_move,
            r.model().moves_played == self.model().moves_played,
    {
        self.mirror(Mirror::Ranks)
    }

    /// The position with files reflected.
    pub fn flip_board_x(&self) -> (r: Board<S>)
        requires
            self.wf(),
        ensures
            r.wf(),
            forall|i: int| 0 <= i < S * S ==> #[trigger] r.model().cells[i] == self.model().cells[mirrored(Mirror::Files, i, S as int)],
            r.model().to_move == self.model().to_move,
            r.model().moves_played == self.model().moves_played,
    {
        self.mirror(Mirror::Files)
    }

    /// The position turned a quarter: the stack at rank `r`, file `f` comes
    /// from rank `S - 1 - f`, file `r`.
    pub fn rotate_board(&self) -> (r: Board<S>)
        requires
            self.wf(),
        ensures
            r.wf(),
            forall|i: int| 0 <= i < S * S ==> #[trigger] r.model().cells[i] == self.model().cells[
                mirrored(Mirror::Ranks, mirrored(Mirror::Diagonal, i, S as int), S as int)],
            r.model().to_move == self.model().to_move,
            r.model().moves_played == self.model().moves_played,
    {
        let flipped = self.mirror(Mirror::Ranks);
        let r = flipped.mirror(Mirror::Diagonal);
        proof {
            assert forall|i: int| 0 <= i < S * S implies #[trigger] r.model().cells[i] == self.model().cells[
                mirrored(Mirror::Ranks, mirrored(Mirror::Diagonal, i, S as int), S as int)] by {
                lemma_mirror_involution(Mirror::Diagonal, i, S as int);
            }
        }
        r
    }

    /// All 8 symmetries of the position: the identity, the two reflections,
    /// the three rotations, and the two reflections of the rotated position.
    pub fn symmetries(&self) -> (r: Vec<Board<S>>)
        requires
            self.wf(),
        ensures
            r@.len() == 8,
            forall|i: int| 0 <= i < 8 ==> (#[trigger] r@[i]).wf(),
    {
        let rotated = self.rotate_board();
        let rotated2 = rotated.rotate_board();
        let rotated3 = rotated2.rotate_board();
        let mut r: Vec<Board<S>> = Vec::new();
        r.push(self.duplicate());
        r.push(self.flip_board_x());
        r.push(self.flip_board_y());
        r.push(rotated.flip_board_x());
        r.push(rotated.flip_board_y());
        r.push(rotated);
        r.push(rotated2);
        r.push(rotated3);
        r
    }

    /// All 16 symmetries of the position, swapping the colors as well.
    pub fn symmetries_with_swapped_colors(&self) -> (r: Vec<Board<S>>)
        requires
            self.wf(),
        ensures
            r@.len() == 16,
            forall|i: int| 0 <= i < 16 ==> (#[trigger] r@[i]).wf(),
    {
        let boards = self.symmetries();
        let mut r: Vec<Board<S>> = Vec::new();
        let mut i: usize = 0;
        while i < boards.len()
            invariant
                boards@.len() == 8,
                forall|k: int| 0 <= k < 8 ==> (#[trigger] boards@[k]).wf(),
                i <= 8,
                r@.len() == 2 * i,
                forall|k: int| 0 <= k < r@.len() ==> (#[trigger] r@[k]).wf(),
            decreases 8 - i,
        {
            r.push(boards[i].duplicate());
            r.push(boards[i].flip_colors());
            i = i + 1;
        }
        r
    }

    /// What is known of every well-formed board.
    pub proof fn lemma_wf(&self)
        requires
            self.wf(),
        ensures
            self.model().wf(S as int),
            valid_size(S as int),
            S * S <= 64,
    {
        assert(S * S <= 64) by (nonlinear_arith)
            requires
                S <= 8,
        ;
    }

    /// The stack on `square`.
    pub fn stack_at(&self, square: Square) -> (r: Stack)
        requires
            self.wf(),
            square.on_board(S as int),
        ensures
            r.wf(),
            r@ == self.model().cells[square.index()],
    {
        self.cells.get(square)
    }

    #[verifier::rlimit(100)]
    /// Adds every slide from `sq` in direction `d` that begins with the carries
    /// of `prefix`, the prefix itself included.
    fn add_slides(&self, sq: Square, d: Direction, end: Square, prefix: StackMovement, moves: &mut Vec<Move>)
        requires
            self.wf(),
            self.model().legal_slide(S as int, sq.index(), d, prefix.carries()),
            end.index() == path(sq.index(), S as int, d, prefix.carries().len() as int),
        ensures
            final(moves)@.len() >= old(moves)@.len(),
            final(moves)@.subrange(0, old(moves)@.len() as int) == old(moves)@,
            forall|i: int| old(moves)@.len() <= i < final(moves)@.len() ==> self.model().is_legal(S as int, #[trigger] final(moves)@[i]),
            forall|c2: Seq<int>| #[trigger] self.model().legal_slide(S as int, sq.index(), d, c2) && c2.len() >= prefix.carries().len()
                && c2.take(prefix.carries().len() as int) == prefix.carries()
                ==> has_slide(final(moves)@, old(moves)@.len() as int, sq.index(), d, c2),
            forall|i: int| old(moves)@.len() <= i < final(moves)@.len()
                ==> slide_extends(#[trigger] final(moves)@[i], sq.index(), d, prefix.carries()),
            distinct_from(final(moves)@, old(moves)@.len() as int),
        decreases S - prefix.carries().len(),
    {
        let ghost m = self.model();
        let ghost s = S as int;
        let ghost c = prefix.carries();
        let ghost start = moves@;
        let n = prefix.len();
        let held = prefix.get(n - 1).pieces_to_take;
        proof {
            lemma_path(sq.index(), s, d, n as int);
        }
        let end_top = self.cells.get(end).top_stone();
        let passable = match end_top {
            Some(piece) => piece.role() == Role::Flat,
            None => true,
        };
        let origin_top = self.cells.get(sq).top_stone().unwrap();
        let next = end.go_direction::<S>(d);
        moves.push(Move::Move(sq, d, prefix.duplicate()));
        proof {
            assert(c.take(n as int) =~= c);
            assert(slide_extends(moves@[start.len() as int], sq.index(), d, c));
            assert(carries_of(moves@[start.len() as int]) == c);
            assert(slide_matches(moves@[start.len() as int], sq.index(), d, c));
            assert(has_slide(moves@, start.len() as int, sq.index(), d, c));
            assert forall|c2: Seq<int>| #[trigger] m.legal_slide(s, sq.index(), d, c2) && c2.len() > n
                && c2.take(n as int) == c implies held >= 2 && n + 1 < S && passable && next.is_some() by {
                assert(c2[n - 1] == c[n - 1]);
                assert(c2[n - 1] > c2[n as int]);
                assert(c2[n as int] >= 1);
                lemma_path(sq.index(), s, d, c2.len() as int);
                lemma_path_step(sq.index(), s, d, n as int, c2.len() as int);
                let t = m.cells[path(sq.index(), s, d, n as int)];
                if t.len() > 0 {
                    assert(t.last().role_of() != Role::Cap);
                }
            }
        }
        let ghost pushed = moves@;
        if held >= 2 && n + 1 < S && passable && next.is_some() {
            let next = next.unwrap();
            proof {
                lemma_path_extend(sq.index(), s, d, n as int);
            }
            let next_top = self.cells.get(next).top_stone();
            let mut carry: u8 = 1;
            while carry < held
                invariant
                    self.wf(),
                    m == self.model(),
                    s == S as int,
                    c == prefix.carries(),
                    m.legal_slide(s, sq.index(), d, c),
                    n == c.len(),
                    held == c.last(),
                    n + 1 < S,
                    1 <= carry <= held,
                    end.index() == path(sq.index(), s, d, n as int),
                    passable == (m.cells[end.index()].len() == 0 || m.cells[end.index()].last().role_of() == Role::Flat),
                    jump(sq.index(), s, d, n + 1) == Some(next.index()),
                    next.on_board(s),
                    next_top == (if m.cells[next.index()].len() > 0 { Some(m.cells[next.index()].last()) } else { None }),
                    origin_top == m.cells[sq.index()].last(),
                    passable,
                    moves@.len() >= start.len() + 1,
                    moves@.subrange(0, start.len() as int) == start,
                    forall|i: int| start.len() <= i < moves@.len() ==> m.is_legal(s, #[trigger] moves@[i]),
                    has_slide(moves@, start.len() as int, sq.index(), d, c),
                    forall|i: int| start.len() <= i < moves@.len() ==> slide_extends(#[trigger] moves@[i], sq.index(), d, c)
                        && (carries_of(moves@[i]).len() == n || carries_of(moves@[i])[n as int] < carry),
                    distinct_from(moves@, start.len() as int),
                    forall|c2: Seq<int>| #[trigger] m.legal_slide(s, sq.index(), d, c2) && c2.len() > n
                        && c2.take(n as int) == c && c2[n as int] < carry
                        ==> has_slide(moves@, start.len() as int, sq.index(), d, c2),
                decreases held - carry,
            {
                let allowed = match next_top {
                    None => true,
                    Some(piece) => match piece.role() {
                        Role::Flat => true,
                        Role::Wall => carry == 1 && origin_top.role() == Role::Cap,
                        Role::Cap => false,
                    },
                };
                if allowed {
                    let mut longer = prefix.duplicate();
                    longer.push::<S>(Movement { pieces_to_take: carry }, held);
                    proof {
                        assert(longer.carries() == c.push(carry as int));
                        assert(path(sq.index(), s, d, n + 1) == next.index()) by {
                            lemma_path(sq.index(), s, d, n + 1);
                        }
                        lemma_extend_slide(m, s, sq.index(), d, c, carry as int);
                    }
                    let ghost before = moves@;
                    self.add_slides(sq, d, next, longer, moves);
                    proof {
                        assert forall|i: int| start.len() <= i < moves@.len() implies slide_extends(#[trigger] moves@[i], sq.index(), d, c)
                            && (carries_of(moves@[i]).len() == n || carries_of(moves@[i])[n as int] < carry + 1) by {
                            if i < before.len() {
                                assert(moves@[i] == moves@.subrange(0, before.len() as int)[i]);
                            } else {
                                assert(slide_extends(moves@[i], sq.index(), d, c.push(carry as int)));
                                let c3 = carries_of(moves@[i]);
                                assert(c3.take(n + 1)[n as int] == carry);
                                assert(c3.take(n as int) =~= c3.take(n + 1).take(n as int));
                                assert(c.push(carry as int).take(n as int) =~= c);
                            }
                        }
                        assert forall|a: int, b: int| start.len() <= a < b < moves@.len() implies #[trigger] moves@[a] != #[trigger] moves@[b] by {
                            if b >= before.len() && a < before.len() {
                                assert(moves@[a] == moves@.subrange(0, before.len() as int)[a]);
                                assert(slide_extends(moves@[b], sq.index(), d, c.push(carry as int)));
                                let cb = carries_of(moves@[b]);
                                assert(cb.take(n + 1)[n as int] == carry);
                                assert(cb[n as int] == carry);
                                assert(carries_of(moves@[a]) != cb);
                            } else if b < before.len() {
                                assert(moves@[a] == moves@.subrange(0, before.len() as int)[a]);
                                assert(moves@[b] == moves@.subrange(0, before.len() as int)[b]);
                            }
                        }
                        lemma_has_slide_grow(before, moves@, start.len() as int, sq.index(), d, c);
                        assert forall|c2: Seq<int>| #[trigger] m.legal_slide(s, sq.index(), d, c2) && c2.len() > n
                            && c2.take(n as int) == c && c2[n as int] < carry + 1
                            implies has_slide(moves@, start.len() as int, sq.index(), d, c2) by {
                            if c2[n as int] < carry {
                                lemma_has_slide_grow(before, moves@, start.len() as int, sq.index(), d, c2);
                            } else {
                                assert(c2.take(n + 1) =~= c.push(carry as int));
                                assert(c2.take(n + 1) == longer.carries());
                                let i = choose|i: int| before.len() <= i < moves@.len() && #[trigger] slide_matches(moves@[i], sq.index(), d, c2);
                            }
                        }
                        assert forall|i: int| start.len() <= i < moves@.len() implies m.is_legal(s, #[trigger] moves@[i]) by {
                            if i < before.len() {
                                assert(moves@[i] == moves@.subrange(0, before.len() as int)[i]);
                            }
                        }
                        assert(moves@.subrange(0, start.len() as int) =~= start) by {
                            assert forall|i: int| 0 <= i < start.len() implies moves@[i] == start[i] by {
                                assert(moves@[i] == moves@.subrange(0, before.len() as int)[i]);
                            }
                        }
                    }
                } else {
                    proof {
                        assert(path(sq.index(), s, d, n + 1) == next.index()) by {
                            lemma_path(sq.index(), s, d, n + 1);
                        }
                        assert forall|c2: Seq<int>| #[trigger] m.legal_slide(s, sq.index(), d, c2) && c2.len() > n
                            && c2.take(n as int) == c && c2[n as int] < carry + 1
                            implies has_slide(moves@, start.len() as int, sq.index(), d, c2) by {
                            if c2[n as int] == carry {
                                lemma_path(sq.index(), s, d, c2.len() as int);
                                let t = m.cells[path(sq.index(), s, d, n + 1)];
                                assert(t.len() > 0);
                                if c2.len() > n + 1 {
                                    assert(c2[n as int] > c2[n + 1]);
                                    assert(c2[n + 1] >= 1);
                                }
                            }
                        }
                    }
                }
                carry = carry + 1;
            }
        }
        proof {
            assert(has_slide(moves@, start.len() as int, sq.index(), d, c));
            assert forall|c2: Seq<int>| #[trigger] m.legal_slide(s, sq.index(), d, c2) && c2.len() >= n
                && c2.take(n as int) == c implies has_slide(moves@, start.len() as int, sq.index(), d, c2) by {
                if c2.len() == n {
                    assert(c2 =~= c);
                } else {
                    assert(c2[n - 1] == c[n - 1]);
                    assert(c2[n - 1] > c2[n as int]);
                }
            }
        }
    }

    /// Adds every legal move to `moves`: placements on empty squares (only
    /// flat stones, of the opponent's color, on the first two plies) and all
    /// slides of the stacks that the side to move controls.
    pub fn generate_moves(&self, moves: &mut Vec<Move>)
        requires
            self.wf(),
        ensures
            final(moves)@.len() >= old(moves)@.len(),
            final(moves)@.subrange(0, old(moves)@.len() as int) == old(moves)@,
            forall|i: int| old(moves)@.len() <= i < final(moves)@.len() ==> self.model().is_legal(S as int, #[trigger] final(moves)@[i]),
            forall|sq: Square, role: Role| sq.on_board(S as int) && #[trigger] self.model().legal_place(S as int, role, sq.index())
                ==> exists|i: int| old(moves)@.len() <= i < final(moves)@.len() && final(moves)@[i] == Move::Place(role, sq),
            forall|q: int, d: Direction, c: Seq<int>| #[trigger] self.model().legal_slide(S as int, q, d, c)
                ==> has_slide(final(moves)@, old(moves)@.len() as int, q, d, c),
            distinct_from(final(moves)@, old(moves)@.len() as int),
    {
        let ghost m = self.model();
        let ghost s = S as int;
        let ghost start = moves@;
        let squares = crate::square::squares_iterator::<S>();
        let placing = if self.moves_played > 1 { self.to_move } else { self.to_move.flip() };
        let (stones, caps) = match placing {
            Color::White => (self.white_stones_left, self.white_capstones_left),
            Color::Black => (self.black_stones_left, self.black_capstones_left),
        };
        let mut i: usize = 0;
        while i < squares.len()
            invariant
                self.wf(),
                m == self.model(),
                s == S as int,
                squares@.len() == S * S,
                forall|j: int| 0 <= j < squares@.len() ==> squares@[j].index() == j,
                placing == m.placing_color(),
                stones == m.stones(placing),
                caps == m.caps(placing),
                i <= squares@.len(),
                moves@.len() >= start.len(),
                moves@.subrange(0, start.len() as int) == start,
                forall|k: int| start.len() <= k < moves@.len() ==> m.is_legal(s, #[trigger] moves@[k]),
                forall|sq: Square, role: Role| sq.index() < i && sq.on_board(s) && #[trigger] m.legal_place(s, role, sq.index())
                    ==> exists|k: int| start.len() <= k < moves@.len() && moves@[k] == Move::Place(role, sq),
                forall|k: int| start.len() <= k < moves@.len() ==> 0 <= #[trigger] placement_square(moves@[k]) < i,
                distinct_from(moves@, start.len() as int),
            decreases squares@.len() - i,
        {
            let sq = squares[i];
            let ghost before = moves@;
            if self.cells.get(sq).is_empty() {
                if stones > 0 {
                    moves.push(Move::Place(Role::Flat, sq));
                    if self.moves_played > 1 {
                        moves.push(Move::Place(Role::Wall, sq));
                    }
                }
                if caps > 0 && self.moves_played > 1 {
                    moves.push(Move::Place(Role::Cap, sq));
                }
            }
            proof {
                assert(moves@.subrange(0, before.len() as int) == before);
                assert forall|k: int| start.len() <= k < moves@.len() implies 0 <= #[trigger] placement_square(moves@[k]) < i + 1 by {
                    if k < before.len() {
                        assert(moves@[k] == before[k]);
                    }
                }
                assert forall|a: int, b: int| start.len() <= a < b < moves@.len() implies #[trigger] moves@[a] != #[trigger] moves@[b] by {
                    if b >= before.len() && a < before.len() {
                        assert(moves@[a] == before[a]);
                        assert(placement_square(moves@[a]) < i);
                        assert(placement_square(moves@[b]) == i);
                    } else if b < before.len() {
                        assert(moves@[a] == before[a]);
                        assert(moves@[b] == before[b]);
                    }
                }
                assert forall|k: int| start.len() <= k < moves@.len() implies m.is_legal(s, #[trigger] moves@[k]) by {
                    if k < before.len() {
                        assert(moves@[k] == before[k]);
                    }
                }
                assert(moves@.subrange(0, start.len() as int) =~= start) by {
                    assert forall|k: int| 0 <= k < start.len() implies moves@[k] == start[k] by {
                        assert(moves@[k] == before[k]);
                    }
                }
                assert forall|q: Square, role: Role| q.index() < i + 1 && q.on_board(s) && #[trigger] m.legal_place(s, role, q.index())
                    implies exists|k: int| start.len() <= k < moves@.len() && moves@[k] == Move::Place(role, q) by {
                    if q.index() < i {
                        let k = choose|k: int| start.len() <= k < before.len() && before[k] == Move::Place(role, q);
                        assert(moves@[k] == before[k]);
                    } else {
                        assert(q == sq);
                        let b = before.len() as int;
                        if role == Role::Flat {
                            assert(moves@[b] == Move::Place(role, q));
                        } else if role == Role::Wall {
                            assert(moves@[b + 1] == Move::Place(role, q));
                        } else if stones > 0 {
                            assert(moves@[b + 2] == Move::Place(role, q));
                        } else {
                            assert(moves@[b] == Move::Place(role, q));
                        }
                    }
                }
            }
            i = i + 1;
        }
        let ghost split = moves@.len();
        if self.moves_played > 1 {
            let mut j: usize = 0;
            while j < squares.len()
                invariant
                    self.wf(),
                    m == self.model(),
                    s == S as int,
                    m.moves_played >= 2,
                    squares@.len() == S * S,
                    forall|k: int| 0 <= k < squares@.len() ==> squares@[k].index() == k,
                    j <= squares@.len(),
                    moves@.len() >= start.len(),
                    moves@.subrange(0, start.len() as int) == start,
                    forall|k: int| start.len() <= k < moves@.len() ==> m.is_legal(s, #[trigger] moves@[k]),
                    forall|sq: Square, role: Role| sq.on_board(s) && #[trigger] m.legal_place(s, role, sq.index())
                        ==> exists|k: int| start.len() <= k < moves@.len() && moves@[k] == Move::Place(role, sq),
                    forall|q: int, d: Direction, c: Seq<int>| q < j && #[trigger] m.legal_slide(s, q, d, c)
                        ==> has_slide(moves@, start.len() as int, q, d, c),
                    start.len() <= split <= moves@.len(),
                    forall|k: int| start.len() <= k < split ==> #[trigger] placement_square(moves@[k]) >= 0,
                    forall|k: int| split <= k < moves@.len() ==> 0 <= #[trigger] slide_square(moves@[k]) < j,
                    distinct_from(moves@, start.len() as int),
                decreases squares@.len() - j,
            {
                let sq = squares[j];
                let ghost before = moves@;
                self.add_slides_of_square(sq, moves);
                proof {
                    assert forall|k: int| start.len() <= k < split implies #[trigger] placement_square(moves@[k]) >= 0 by {
                        assert(moves@[k] == moves@.subrange(0, before.len() as int)[k]);
                    }
                    assert forall|k: int| split <= k < moves@.len() implies 0 <= #[trigger] slide_square(moves@[k]) < j + 1 by {
                        if k < before.len() {
                            assert(moves@[k] == moves@.subrange(0, before.len() as int)[k]);
                        } else {
                            assert(is_slide_from(moves@[k], j as int));
                        }
                    }
                    assert forall|a: int, b: int| start.len() <= a < b < moves@.len() implies #[trigger] moves@[a] != #[trigger] moves@[b] by {
                        if b >= before.len() && a < before.len() {
                            assert(moves@[a] == moves@.subrange(0, before.len() as int)[a]);
                            assert(is_slide_from(moves@[b], j as int));
                            if a >= split {
                                assert(slide_square(moves@[a]) < j);
                            } else {
                                assert(placement_square(moves@[a]) >= 0);
                            }
                        } else if b < before.len() {
                            assert(moves@[a] == moves@.subrange(0, before.len() as int)[a]);
                            assert(moves@[b] == moves@.subrange(0, before.len() as int)[b]);
                        }
                    }
                    assert forall|q: int, d: Direction, c: Seq<int>| q < j + 1 && #[trigger] m.legal_slide(s, q, d, c)
                        implies has_slide(moves@, start.len() as int, q, d, c) by {
                        if q < j {
                            lemma_has_slide_grow(before, moves@, start.len() as int, q, d, c);
                        } else {
                            assert(sq.index() == q);
                            let i = choose|i: int| before.len() <= i < moves@.len() && #[trigger] slide_matches(moves@[i], q, d, c);
                        }
                    }
                    assert forall|sq2: Square, role: Role| sq2.on_board(s) && #[trigger] m.legal_place(s, role, sq2.index())
                        implies exists|k: int| start.len() <= k < moves@.len() && moves@[k] == Move::Place(role, sq2) by {
                        let k = choose|k: int| start.len() <= k < before.len() && before[k] == Move::Place(role, sq2);
                        assert(moves@[k] == moves@.subrange(0, before.len() as int)[k]);
                    }
                    assert forall|k: int| start.len() <= k < moves@.len() implies m.is_legal(s, #[trigger] moves@[k]) by {
                        if k < before.len() {
                            assert(moves@[k] == moves@.subrange(0, before.len() as int)[k]);
                        }
                    }
                    assert(moves@.subrange(0, start.len() as int) =~= start) by {
                        assert forall|k: int| 0 <= k < start.len() implies moves@[k] == start[k] by {
                            assert(moves@[k] == moves@.subrange(0, before.len() as int)[k]);
                        }
                    }
                }
                j = j + 1;
            }
        }
    }

    /// Adds every slide of the stack on `sq`, if the side to move controls it.
    fn add_slides_of_square(&self, sq: Square, moves: &mut Vec<Move>)
        requires
            self.wf(),
            sq.on_board(S as int),
            self.model().moves_played >= 2,
        ensures
            final(moves)@.len() >= old(moves)@.len(),
            final(moves)@.subrange(0, old(moves)@.len() as int) == old(moves)@,
            forall|i: int| old(moves)@.len() <= i < final(moves)@.len() ==> self.model().is_legal(S as int, #[trigger] final(moves)@[i]),
            forall|d: Direction, c: Seq<int>| #[trigger] self.model().legal_slide(S as int, sq.index(), d, c)
                ==> has_slide(final(moves)@, old(moves)@.len() as int, sq.index(), d, c),
            forall|i: int| old(moves)@.len() <= i < final(moves)@.len() ==> is_slide_from(#[trigger] final(moves)@[i], sq.index()),
            distinct_from(final(moves)@, old(moves)@.len() as int),
    {
        let ghost m = self.model();
        let ghost s = S as int;
        let ghost start = moves@;
        let stack = self.cells.get(sq);
        let top = match stack.top_stone() {
            Some(piece) => piece,
            None => return,
        };
        if top.color() != self.to_move {
            return;
        }
        proof {
            self.lemma_wf();
        }
        let height = stack.len();
        let max_carry: u8 = if (height as usize) < S { height } else { S as u8 };
        let directions = [Direction::North, Direction::West, Direction::East, Direction::South];
        let mut di: usize = 0;
        while di < 4
            invariant
                self.wf(),
                m == self.model(),
                s == S as int,
                m.moves_played >= 2,
                sq.on_board(s),
                m.cells[sq.index()].len() == height,
                height > 0,
                top == m.cells[sq.index()].last(),
                top.color_of() == m.to_move,
                1 <= max_carry <= height,
                max_carry <= S,
                directions@.len() == 4,
                moves@.len() >= start.len(),
                moves@.subrange(0, start.len() as int) == start,
                forall|k: int| start.len() <= k < moves@.len() ==> m.is_legal(s, #[trigger] moves@[k]),
                directions@ == seq![Direction::North, Direction::West, Direction::East, Direction::South],
                di <= 4,
                max_carry == (if height < S { height as int } else { S as int }),
                forall|k: int, c: Seq<int>| 0 <= k < di && #[trigger] m.legal_slide(s, sq.index(), directions@[k], c)
                    ==> has_slide(moves@, start.len() as int, sq.index(), directions@[k], c),
                forall|i: int| start.len() <= i < moves@.len() ==> is_slide_from(#[trigger] moves@[i], sq.index())
                    && direction_index(slide_direction(moves@[i])) < di,
                distinct_from(moves@, start.len() as int),
            decreases 4 - di,
        {
            let d = directions[di];
            if let Some(first) = sq.go_direction::<S>(d) {
                let first_top = self.cells.get(first).top_stone();
                let mut picked: u8 = 1;
                while picked <= max_carry
                    invariant
                        self.wf(),
                        m == self.model(),
                        s == S as int,
                        m.moves_played >= 2,
                        sq.on_board(s),
                        first.on_board(s),
                        step(sq.index(), s, d) == Some(first.index()),
                        first_top == (if m.cells[first.index()].len() > 0 { Some(m.cells[first.index()].last()) } else { None }),
                        m.cells[sq.index()].len() == height,
                        height > 0,
                        top == m.cells[sq.index()].last(),
                        top.color_of() == m.to_move,
                        1 <= picked,
                        1 <= max_carry <= height,
                        max_carry <= S,
                        moves@.len() >= start.len(),
                        moves@.subrange(0, start.len() as int) == start,
                        forall|k: int| start.len() <= k < moves@.len() ==> m.is_legal(s, #[trigger] moves@[k]),
                        picked <= max_carry + 1,
                        forall|c: Seq<int>| #[trigger] m.legal_slide(s, sq.index(), d, c) && c[0] < picked
                            ==> has_slide(moves@, start.len() as int, sq.index(), d, c),
                        forall|k: int, c: Seq<int>| 0 <= k < di && #[trigger] m.legal_slide(s, sq.index(), directions@[k], c)
                            ==> has_slide(moves@, start.len() as int, sq.index(), directions@[k], c),
                        directions@ == seq![Direction::North, Direction::West, Direction::East, Direction::South],
                        d == directions@[di as int],
                        di < 4,
                        direction_index(d) == di,
                        forall|i: int| start.len() <= i < moves@.len() ==> is_slide_from(#[trigger] moves@[i], sq.index())
                            && (direction_index(slide_direction(moves@[i])) < di
                            || (slide_direction(moves@[i]) == d && carries_of(moves@[i]).len() > 0 && carries_of(moves@[i])[0] < picked)),
                        distinct_from(moves@, start.len() as int),
                    decreases max_carry + 1 - picked,
                {
                    let allowed = match first_top {
                        None => true,
                        Some(piece) => match piece.role() {
                            Role::Flat => true,
                            Role::Wall => picked == 1 && top.role() == Role::Cap,
                            Role::Cap => false,
                        },
                    };
                    if allowed {
                        let mut prefix = StackMovement::new();
                        prefix.push::<S>(Movement { pieces_to_take: picked }, picked);
                        proof {
                            let c = prefix.carries();
                            assert(c == seq![picked as int]);
                            lemma_path(sq.index(), s, d, 1);
                            assert(path(sq.index(), s, d, 1) == first.index());
                            assert(slide_fits(m.cells, s, sq.index(), d, c));
                            assert(m.legal_slide(s, sq.index(), d, c));
                        }
                        let ghost before = moves@;
                        let ghost pc = prefix.carries();
                        self.add_slides(sq, d, first, prefix, moves);
                        proof {
                            assert forall|i: int| start.len() <= i < moves@.len() implies is_slide_from(#[trigger] moves@[i], sq.index())
                                && (direction_index(slide_direction(moves@[i])) < di
                                || (slide_direction(moves@[i]) == d && carries_of(moves@[i]).len() > 0 && carries_of(moves@[i])[0] < picked + 1)) by {
                                if i < before.len() {
                                    assert(moves@[i] == moves@.subrange(0, before.len() as int)[i]);
                                } else {
                                    assert(slide_extends(moves@[i], sq.index(), d, pc));
                                    assert(carries_of(moves@[i]).take(1)[0] == picked);
                                }
                            }
                            assert forall|a: int, b: int| start.len() <= a < b < moves@.len() implies #[trigger] moves@[a] != #[trigger] moves@[b] by {
                                if b >= before.len() && a < before.len() {
                                    assert(moves@[a] == moves@.subrange(0, before.len() as int)[a]);
                                    assert(slide_extends(moves@[b], sq.index(), d, pc));
                                    assert(carries_of(moves@[b]).take(1)[0] == picked);
                                    assert(carries_of(moves@[b])[0] == picked);
                                } else if b < before.len() {
                                    assert(moves@[a] == moves@.subrange(0, before.len() as int)[a]);
                                    assert(moves@[b] == moves@.subrange(0, before.len() as int)[b]);
                                }
                            }
                            assert forall|c: Seq<int>| #[trigger] m.legal_slide(s, sq.index(), d, c) && c[0] < picked + 1
                                implies has_slide(moves@, start.len() as int, sq.index(), d, c) by {
                                if c[0] < picked {
                                    lemma_has_slide_grow(before, moves@, start.len() as int, sq.index(), d, c);
                                } else {
                                    assert(c.take(1) =~= pc);
                                    let i = choose|i: int| before.len() <= i < moves@.len() && #[trigger] slide_matches(moves@[i], sq.index(), d, c);
                                }
                            }
                            assert forall|k: int, c: Seq<int>| 0 <= k < di && #[trigger] m.legal_slide(s, sq.index(), directions@[k], c)
                                implies has_slide(moves@, start.len() as int, sq.index(), directions@[k], c) by {
                                lemma_has_slide_grow(before, moves@, start.len() as int, sq.index(), directions@[k], c);
                            }
                            assert forall|k: int| start.len() <= k < moves@.len() implies m.is_legal(s, #[trigger] moves@[k]) by {
                                if k < before.len() {
                                    assert(moves@[k] == moves@.subrange(0, before.len() as int)[k]);
                                }
                            }
                            assert(moves@.subrange(0, start.len() as int) =~= start) by {
                                assert forall|k: int| 0 <= k < start.len() implies moves@[k] == start[k] by {
                                    assert(moves@[k] == moves@.subrange(0, before.len() as int)[k]);
                                }
                            }
                        }
                    } else {
                        proof {
                            lemma_path(sq.index(), s, d, 1);
                            assert(path(sq.index(), s, d, 1) == first.index());
                            assert forall|c: Seq<int>| #[trigger] m.legal_slide(s, sq.index(), d, c) && c[0] < picked + 1
                                implies has_slide(moves@, start.len() as int, sq.index(), d, c) by {
                                if c[0] == picked {
                                    let t = m.cells[path(sq.index(), s, d, 1)];
                                    assert(t.len() > 0);
                                    if c.len() > 1 {
                                        assert(c[0] > c[1]);
                                        assert(c[1] >= 1);
                                    }
                                }
                            }
                        }
                    }
                    picked = picked + 1;
                }
                proof {
                    assert forall|k: int, c: Seq<int>| 0 <= k < di + 1 && #[trigger] m.legal_slide(s, sq.index(), directions@[k], c)
                        implies has_slide(moves@, start.len() as int, sq.index(), directions@[k], c) by {
                        if k == di {
                            assert(c[0] >= 1);
                        }
                    }
                }
            } else {
                proof {
                    assert forall|k: int, c: Seq<int>| 0 <= k < di + 1 && #[trigger] m.legal_slide(s, sq.index(), directions@[k], c)
                        implies has_slide(moves@, start.len() as int, sq.index(), directions@[k], c) by {
                        if k == di {
                            lemma_path(sq.index(), s, d, c.len() as int);
                            lemma_path_step(sq.index(), s, d, 0, c.len() as int);
                        }
                    }
                }
            }
            di = di + 1;
        }
        proof {
            assert forall|d: Direction, c: Seq<int>| #[trigger] m.legal_slide(s, sq.index(), d, c)
                implies has_slide(moves@, start.len() as int, sq.index(), d, c) by {
                match d {
                    Direction::North => assert(directions@[0] == d),
                    Direction::West => assert(directions@[1] == d),
                    Direction::East => assert(directions@[2] == d),
                    Direction::South => assert(directions@[3] == d),
                }
            }
        }
    }
}

} // verus!
