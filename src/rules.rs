use vstd::prelude::*;

use crate::piece::{flat_of, Color, Piece, Role};
use crate::square::{jump, lemma_coords, lemma_jump, step, Direction};
use crate::stack::{flat_below_top, flatten_top};

verus! {

/// Flat stones (and walls) each player starts with, by board size.
pub open spec fn start_stones(s: int) -> int {
    if s == 3 {
        10
    } else if s == 4 {
        15
    } else if s == 5 {
        21
    } else if s == 6 {
        30
    } else if s == 7 {
        40
    } else {
        50
    }
}

/// Capstones each player starts with, by board size.
pub open spec fn start_caps(s: int) -> int {
    if s <= 4 {
        0
    } else if s <= 6 {
        1
    } else {
        2
    }
}

/// All the pieces that one player owns.
pub open spec fn total_pieces(s: int) -> int {
    start_stones(s) + start_caps(s)
}

/// The number of pieces of color `c` in a stack.
pub open spec fn color_count(s: Seq<Piece>, c: Color) -> nat
    decreases s.len(),
{
    if s.len() == 0 {
        0
    } else {
        color_count(s.drop_last(), c) + if s.last().color_of() == c { 1nat } else { 0nat }
    }
}

/// The number of pieces of color `c` on the board.
pub open spec fn board_count(cells: Seq<Seq<Piece>>, c: Color) -> nat
    decreases cells.len(),
{
    if cells.len() == 0 {
        0
    } else {
        board_count(cells.drop_last(), c) + color_count(cells.last(), c)
    }
}

/// Every stack keeps only its top piece's role.
pub open spec fn all_flat_below_top(cells: Seq<Seq<Piece>>) -> bool {
    forall|i: int| 0 <= i < cells.len() ==> flat_below_top(#[trigger] cells[i])
}

pub proof fn lemma_count_push(s: Seq<Piece>, p: Piece, c: Color)
    ensures
        color_count(s.push(p), c) == color_count(s, c) + if p.color_of() == c { 1nat } else { 0nat },
{
    assert(s.push(p).drop_last() =~= s);
}

pub proof fn lemma_count_concat(a: Seq<Piece>, b: Seq<Piece>, c: Color)
    ensures
        color_count(a + b, c) == color_count(a, c) + color_count(b, c),
    decreases b.len(),
{
    if b.len() == 0 {
        assert(a + b =~= a);
    } else {
        lemma_count_concat(a, b.drop_last(), c);
        assert((a + b).drop_last() =~= a + b.drop_last());
    }
}

pub proof fn lemma_count_split(s: Seq<Piece>, k: int, c: Color)
    requires
        0 <= k <= s.len(),
    ensures
        color_count(s, c) == color_count(s.take(k), c) + color_count(s.skip(k), c),
{
    lemma_count_concat(s.take(k), s.skip(k), c);
    assert(s.take(k) + s.skip(k) =~= s);
}

pub proof fn lemma_count_flatten(s: Seq<Piece>, c: Color)
    ensures
        color_count(flatten_top(s), c) == color_count(s, c),
{
    if s.len() > 0 {
        assert(flatten_top(s).drop_last() =~= s.drop_last());
    }
}

pub proof fn lemma_count_colors(s: Seq<Piece>)
    ensures
        color_count(s, Color::White) + color_count(s, Color::Black) == s.len(),
    decreases s.len(),
{
    if s.len() > 0 {
        lemma_count_colors(s.drop_last());
    }
}

pub proof fn lemma_board_count_update(cells: Seq<Seq<Piece>>, i: int, x: Seq<Piece>, c: Color)
    requires
        0 <= i < cells.len(),
    ensures
        board_count(cells.update(i, x), c) + color_count(cells[i], c) == board_count(cells, c) + color_count(x, c),
    decreases cells.len(),
{
    if i == cells.len() - 1 {
        assert(cells.update(i, x).drop_last() =~= cells.drop_last());
    } else {
        lemma_board_count_update(cells.drop_last(), i, x, c);
        assert(cells.update(i, x).drop_last() =~= cells.drop_last().update(i, x));
    }
}

/// Two distinct stacks together hold no more pieces of a color than the whole board.
pub proof fn lemma_board_count_two(cells: Seq<Seq<Piece>>, a: int, b: int, c: Color)
    requires
        0 <= a < cells.len(),
        0 <= b < cells.len(),
        a != b,
    ensures
        color_count(cells[a], c) + color_count(cells[b], c) <= board_count(cells, c),
{
    let e = Seq::<Piece>::empty();
    lemma_board_count_update(cells, a, e, c);
    lemma_board_count_update(cells.update(a, e), b, e, c);
    assert(color_count(e, c) == 0);
}

/// Moves the top `t` pieces of square `a` onto square `b`, keeping their order.
pub open spec fn transfer(cells: Seq<Seq<Piece>>, a: int, b: int, t: int) -> Seq<Seq<Piece>> {
    let sa = cells[a];
    let keep = sa.len() - t;
    cells.update(a, sa.take(keep)).update(b, flatten_top(cells[b]) + sa.skip(keep))
}

/// The `i`-th square of a slide from `sq` in direction `d` (square `sq` itself for `i == 0`).
pub open spec fn path(sq: int, s: int, d: Direction, i: int) -> int {
    jump(sq, s, d, i).unwrap()
}

/// The board after the first `i` steps of a slide from `sq` in direction `d` with carries `c`.
pub open spec fn slide_steps(cells: Seq<Seq<Piece>>, s: int, sq: int, d: Direction, c: Seq<int>, i: nat) -> Seq<Seq<Piece>>
    decreases i,
{
    if i == 0 {
        cells
    } else {
        let prev = slide_steps(cells, s, sq, d, c, (i - 1) as nat);
        transfer(prev, path(sq, s, d, i - 1), path(sq, s, d, i as int), c[i - 1])
    }
}

/// The board after a whole slide.
pub open spec fn slide(cells: Seq<Seq<Piece>>, s: int, sq: int, d: Direction, c: Seq<int>) -> Seq<Seq<Piece>> {
    slide_steps(cells, s, sq, d, c, c.len())
}

pub proof fn lemma_transfer_counts(cells: Seq<Seq<Piece>>, a: int, b: int, t: int, c: Color)
    requires
        0 <= a < cells.len(),
        0 <= b < cells.len(),
        a != b,
        0 <= t <= cells[a].len(),
    ensures
        board_count(transfer(cells, a, b, t), c) == board_count(cells, c),
{
    let sa = cells[a];
    let keep = sa.len() - t;
    let c1 = cells.update(a, sa.take(keep));
    lemma_board_count_update(cells, a, sa.take(keep), c);
    lemma_board_count_update(c1, b, flatten_top(cells[b]) + sa.skip(keep), c);
    lemma_count_split(sa, keep, c);
    lemma_count_concat(flatten_top(cells[b]), sa.skip(keep), c);
    lemma_count_flatten(cells[b], c);
}

pub proof fn lemma_flatten_top_flat(s: Seq<Piece>)
    requires
        flat_below_top(s),
    ensures
        flat_below_top(flatten_top(s)),
        forall|i: int| 0 <= i < flatten_top(s).len() ==> #[trigger] flatten_top(s)[i].role_of() == Role::Flat,
        flatten_top(s).len() == s.len(),
{
}

pub proof fn lemma_transfer_flat(cells: Seq<Seq<Piece>>, a: int, b: int, t: int)
    requires
        0 <= a < cells.len(),
        0 <= b < cells.len(),
        a != b,
        0 <= t <= cells[a].len(),
        all_flat_below_top(cells),
    ensures
        all_flat_below_top(transfer(cells, a, b, t)),
{
    let r = transfer(cells, a, b, t);
    lemma_flatten_top_flat(cells[b]);
    assert forall|i: int| 0 <= i < r.len() implies flat_below_top(#[trigger] r[i]) by {
        if i == b {
            let x = flatten_top(cells[b]) + cells[a].skip(cells[a].len() - t);
            assert forall|j: int| 0 <= j < x.len() - 1 implies #[trigger] x[j].role_of() == Role::Flat by {
                if j >= flatten_top(cells[b]).len() {
                    assert(x[j] == cells[a][cells[a].len() - t + j - flatten_top(cells[b]).len()]);
                }
            }
        }
    }
}

/// A flat stone stays the same when flattened.
pub proof fn lemma_flatten_flat(s: Seq<Piece>)
    requires
        s.len() == 0 || s.last().role_of() == Role::Flat,
    ensures
        flatten_top(s) == s,
{
    if s.len() > 0 {
        assert(flat_of(s.last().color_of()) == s.last());
        assert(flatten_top(s) =~= s);
    }
}

/// Moving pieces over and straight back restores the board, but for the
/// flattened top piece of the square they visited.
pub proof fn lemma_transfer_back(cells: Seq<Seq<Piece>>, a: int, b: int, t: int)
    requires
        0 <= a < cells.len(),
        0 <= b < cells.len(),
        a != b,
        1 <= t <= cells[a].len(),
        flat_below_top(cells[a]),
    ensures
        transfer(transfer(cells, a, b, t), b, a, t) == cells.update(b, flatten_top(cells[b])),
{
    let sa = cells[a];
    let keep = sa.len() - t;
    let fb = flatten_top(cells[b]);
    let y = transfer(cells, a, b, t);
    assert(y[b] == fb + sa.skip(keep));
    assert(y[a] == sa.take(keep));
    assert(fb.len() == cells[b].len());
    assert(y[b].take(y[b].len() - t) =~= fb);
    assert(y[b].skip(y[b].len() - t) =~= sa.skip(keep));
    if keep > 0 {
        assert(sa.take(keep).last() == sa[keep - 1]);
        assert(sa[keep - 1].role_of() == Role::Flat);
    }
    lemma_flatten_flat(sa.take(keep));
    assert(sa.take(keep) + sa.skip(keep) =~= sa);
    assert(transfer(y, b, a, t) =~= cells.update(b, fb));
}

/// The carries of a slide in the opposite order: those of the slide back.
pub open spec fn reversed(c: Seq<int>) -> Seq<int> {
    Seq::new(c.len(), |i: int| c[c.len() - 1 - i])
}

/// The squares of a slide lie on the board, are distinct, and the slide back
/// from the last one visits them in the opposite order.
pub proof fn lemma_path(sq: int, s: int, d: Direction, n: int)
    requires
        s > 0,
        0 <= sq < s * s,
        n >= 0,
        jump(sq, s, d, n).is_some(),
    ensures
        forall|i: int| 0 <= i <= n ==> #[trigger] jump(sq, s, d, i).is_some(),
        forall|i: int| 0 <= i <= n ==> 0 <= #[trigger] path(sq, s, d, i) < s * s,
        forall|i: int, j: int| 0 <= i <= n && 0 <= j <= n && i != j ==> path(sq, s, d, i) != path(sq, s, d, j),
        path(sq, s, d, 0) == sq,
        forall|j: int| 0 <= j <= n ==> #[trigger] jump(path(sq, s, d, n), s, d.opposite(), j) == Some(path(sq, s, d, n - j)),
{
    lemma_coords(sq, s);
    lemma_jump(sq, s, d, n);
    let e = path(sq, s, d, n);
    assert forall|i: int| 0 <= i <= n implies #[trigger] jump(sq, s, d, i).is_some() by {}
    assert forall|i: int| 0 <= i <= n implies 0 <= #[trigger] path(sq, s, d, i) < s * s by {
        lemma_jump(sq, s, d, i);
    }
    assert forall|i: int, j: int| 0 <= i <= n && 0 <= j <= n && i != j implies path(sq, s, d, i) != path(sq, s, d, j) by {
        if d == Direction::West || d == Direction::East {
            assert(i * s != j * s) by (nonlinear_arith)
                requires
                    i != j,
                    s > 0,
            ;
        }
    }
    assert(path(sq, s, d, 0) == sq);
    assert forall|j: int| 0 <= j <= n implies #[trigger] jump(e, s, d.opposite(), j) == Some(path(sq, s, d, n - j)) by {
        if d == Direction::West || d == Direction::East {
            assert((n - j) * s == n * s - j * s) by (nonlinear_arith);
        }
    }
}

/// A legal slide: a valid carry sequence whose squares all lie on the board,
/// starting from a stack that holds at least the first carry.
pub open spec fn slide_fits(cells: Seq<Seq<Piece>>, s: int, sq: int, d: Direction, c: Seq<int>) -> bool {
    &&& s > 0
    &&& cells.len() == s * s
    &&& 0 <= sq < s * s
    &&& 1 <= c.len()
    &&& forall|i: int| 0 <= i < c.len() - 1 ==> #[trigger] c[i] > c[i + 1]
    &&& forall|i: int| 0 <= i < c.len() ==> #[trigger] c[i] >= 1
    &&& c[0] <= cells[sq].len()
    &&& jump(sq, s, d, c.len() as int).is_some()
    &&& all_flat_below_top(cells)
}

/// What the first `i` steps of a slide have done: squares further on are
/// untouched, the square reached holds what it had plus the pieces carried,
/// and stacks keep only their top piece's role.
#[verifier::rlimit(100)]
pub proof fn lemma_slide_steps(cells: Seq<Seq<Piece>>, s: int, sq: int, d: Direction, c: Seq<int>, i: nat)
    requires
        slide_fits(cells, s, sq, d, c),
        i <= c.len(),
    ensures
        ({
            let f = slide_steps(cells, s, sq, d, c, i);
            &&& f.len() == cells.len()
            &&& all_flat_below_top(f)
            &&& forall|m: int| i < m <= c.len() ==> f[#[trigger] path(sq, s, d, m)] == cells[path(sq, s, d, m)]
            &&& i >= 1 ==> f[path(sq, s, d, i as int)].len() == cells[path(sq, s, d, i as int)].len() + c[i - 1]
            &&& i < c.len() ==> c[i as int] <= f[path(sq, s, d, i as int)].len()
            &&& forall|co: Color| board_count(f, co) == #[trigger] board_count(cells, co)
        }),
    decreases i,
{
    let n = c.len() as int;
    lemma_path(sq, s, d, n);
    if i > 0 {
        let k = (i - 1) as nat;
        lemma_slide_steps(cells, s, sq, d, c, k);
        let prev = slide_steps(cells, s, sq, d, c, k);
        let a = path(sq, s, d, k as int);
        let b = path(sq, s, d, i as int);
        lemma_transfer_flat(prev, a, b, c[k as int]);
        assert forall|co: Color| board_count(slide_steps(cells, s, sq, d, c, i), co) == #[trigger] board_count(cells, co) by {
            lemma_transfer_counts(prev, a, b, c[k as int], co);
        }
        let f = slide_steps(cells, s, sq, d, c, i);
        assert(f[b] == flatten_top(prev[b]) + prev[a].skip(prev[a].len() - c[k as int]));
        if i < n {
            assert(c[i as int] < c[k as int]);
        }
    }
}

/// A slide restricted to squares other than `k` commutes with replacing square `k`.
pub proof fn lemma_transfer_update(cells: Seq<Seq<Piece>>, a: int, b: int, t: int, k: int, x: Seq<Piece>)
    requires
        0 <= a < cells.len(),
        0 <= b < cells.len(),
        0 <= k < cells.len(),
        k != a,
        k != b,
    ensures
        transfer(cells.update(k, x), a, b, t) == transfer(cells, a, b, t).update(k, x),
{
    assert(transfer(cells.update(k, x), a, b, t) =~= transfer(cells, a, b, t).update(k, x));
}

/// Sliding back along the same squares with the carries reversed undoes a
/// legal slide, but for the flattened top of the square where it ended.
pub proof fn lemma_slide_back(cells: Seq<Seq<Piece>>, s: int, sq: int, d: Direction, c: Seq<int>)
    requires
        slide_fits(cells, s, sq, d, c),
        forall|m: int| 1 <= m < c.len() ==> {
            let t = #[trigger] cells[path(sq, s, d, m)];
            t.len() == 0 || t.last().role_of() == Role::Flat
        },
    ensures
        ({
            let n = c.len() as int;
            let e = path(sq, s, d, n);
            slide(slide(cells, s, sq, d, c), s, e, d.opposite(), reversed(c))
                == cells.update(e, flatten_top(cells[e]))
        }),
{
    let n = c.len() as int;
    let e = path(sq, s, d, n);
    let rc = reversed(c);
    let fx = slide(cells, s, sq, d, c);
    lemma_path(sq, s, d, n);
    let x = flatten_top(cells[e]);
    lemma_slide_back_steps(cells, s, sq, d, c, n as nat);
    assert(slide_steps(cells, s, sq, d, c, 0) == cells);
}

#[verifier::rlimit(100)]
pub proof fn lemma_slide_back_steps(cells: Seq<Seq<Piece>>, s: int, sq: int, d: Direction, c: Seq<int>, j: nat)
    requires
        slide_fits(cells, s, sq, d, c),
        forall|m: int| 1 <= m < c.len() ==> {
            let t = #[trigger] cells[path(sq, s, d, m)];
            t.len() == 0 || t.last().role_of() == Role::Flat
        },
        1 <= j <= c.len(),
    ensures
        ({
            let n = c.len() as int;
            let e = path(sq, s, d, n);
            slide_steps(slide(cells, s, sq, d, c), s, e, d.opposite(), reversed(c), j)
                == slide_steps(cells, s, sq, d, c, (n - j) as nat).update(e, flatten_top(cells[e]))
        }),
    decreases j,
{
    let n = c.len() as int;
    let e = path(sq, s, d, n);
    let rc = reversed(c);
    let fx = slide(cells, s, sq, d, c);
    let x = flatten_top(cells[e]);
    lemma_path(sq, s, d, n);
    let k = (n - j) as nat;
    // The step back from square k + 1 to square k undoes forward step k.
    let a = path(sq, s, d, k as int);
    let b = path(sq, s, d, k + 1 as int);
    assert(jump(e, s, d.opposite(), (j - 1) as int) == Some(b));
    assert(jump(e, s, d.opposite(), j as int) == Some(a));
    assert(rc[j - 1] == c[k as int]);
    lemma_slide_steps(cells, s, sq, d, c, k);
    let fk = slide_steps(cells, s, sq, d, c, k);
    assert(slide_steps(cells, s, sq, d, c, (k + 1) as nat) == transfer(fk, a, b, c[k as int]));
    lemma_transfer_back(fk, a, b, c[k as int]);
    if j == 1 {
        assert(slide_steps(fx, s, e, d.opposite(), rc, 0) == fx);
        assert(b == e);
        assert(fk[e] == cells[e]);
    } else {
        lemma_slide_back_steps(cells, s, sq, d, c, (j - 1) as nat);
        let f1 = slide_steps(cells, s, sq, d, c, (k + 1) as nat);
        lemma_transfer_update(f1, b, a, c[k as int], e, x);
        assert(fk[b] == cells[b]);
        lemma_flatten_flat(cells[b]);
        assert(fk.update(b, flatten_top(fk[b])) =~= fk);
    }
}

/// Steps of a slide touch only the squares already passed and the one reached.
pub proof fn lemma_untouched(cells: Seq<Seq<Piece>>, s: int, sq: int, d: Direction, c: Seq<int>, i: nat, m: int)
    requires
        s > 0,
        cells.len() == s * s,
        0 <= sq < s * s,
        jump(sq, s, d, c.len() as int).is_some(),
        i < m <= c.len(),
    ensures
        slide_steps(cells, s, sq, d, c, i)[path(sq, s, d, m)] == cells[path(sq, s, d, m)],
        slide_steps(cells, s, sq, d, c, i).len() == cells.len(),
    decreases i,
{
    lemma_path(sq, s, d, c.len() as int);
    if i > 0 {
        lemma_untouched(cells, s, sq, d, c, (i - 1) as nat, m);
    }
}

/// Each step of a slide moves to the adjacent square.
pub proof fn lemma_path_step(sq: int, s: int, d: Direction, i: int, n: int)
    requires
        s > 0,
        0 <= sq < s * s,
        0 <= i < n,
        jump(sq, s, d, n).is_some(),
    ensures
        step(path(sq, s, d, i), s, d) == Some(path(sq, s, d, i + 1)),
{
    lemma_path(sq, s, d, n);
    lemma_coords(sq, s);
    lemma_jump(sq, s, d, i);
    if d == Direction::West || d == Direction::East {
        assert((i + 1) * s == i * s + s) by (nonlinear_arith);
    }
}

/// Once a slide has left its first square, that square keeps only the pieces
/// not picked up.
pub proof fn lemma_passed(cells: Seq<Seq<Piece>>, s: int, sq: int, d: Direction, c: Seq<int>, i: nat)
    requires
        s > 0,
        cells.len() == s * s,
        0 <= sq < s * s,
        jump(sq, s, d, c.len() as int).is_some(),
        1 <= i <= c.len(),
        0 <= c[0] <= cells[sq].len(),
    ensures
        slide_steps(cells, s, sq, d, c, i)[sq] == cells[sq].take(cells[sq].len() - c[0]),
    decreases i,
{
    lemma_path(sq, s, d, c.len() as int);
    lemma_untouched(cells, s, sq, d, c, 0, 1);
    if i > 1 {
        lemma_passed(cells, s, sq, d, c, (i - 1) as nat);
        lemma_untouched(cells, s, sq, d, c, (i - 1) as nat, i as int);
    }
}

/// Changing the top piece to another of the same color keeps the counts.
pub proof fn lemma_count_replace_top(t: Seq<Piece>, q: Piece, c: Color)
    requires
        t.len() > 0,
        q.color_of() == t.last().color_of(),
    ensures
        color_count(t.update(t.len() - 1, q), c) == color_count(t, c),
{
    assert(t.update(t.len() - 1, q).drop_last() =~= t.drop_last());
}

/// One more step from the end of a slide's path reaches the next square of the path.
pub proof fn lemma_path_extend(sq: int, s: int, d: Direction, n: int)
    requires
        s > 0,
        0 <= sq < s * s,
        n >= 0,
        jump(sq, s, d, n).is_some(),
        step(path(sq, s, d, n), s, d).is_some(),
    ensures
        jump(sq, s, d, n + 1) == step(path(sq, s, d, n), s, d),
{
    lemma_coords(sq, s);
    lemma_jump(sq, s, d, n);
    if d == Direction::West || d == Direction::East {
        assert((n + 1) * s == n * s + s) by (nonlinear_arith);
    }
}

} // verus!
