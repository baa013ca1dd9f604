use vstd::prelude::*;

use crate::error::{parse_error, push_char};
use crate::movement::{Move, Movement, StackMovement, MAX_SLIDE_STEPS};
use crate::piece::Role;
use crate::square::{
    lemma_coords, lemma_glyph_round_trip, lemma_square_text_round_trip, parse_square_text, square_text, valid_size,
    Direction, Square,
};

verus! {

/// What the text of a move says: a placement, or a slide with its carries.
pub ghost enum MoveText {
    Place(Role, int),
    Slide(int, Direction, Seq<int>),
}

/// The mathematical content of a move.
pub open spec fn move_view(mv: Move) -> MoveText {
    match mv {
        Move::Place(role, sq) => MoveText::Place(role, sq.index()),
        Move::Move(sq, d, sm) => MoveText::Slide(sq.index(), d, sm.carries()),
    }
}

pub open spec fn digit(x: int) -> char {
    ((48 + x) as u8) as char
}

pub open spec fn is_digit(ch: char) -> bool {
    '0' <= ch <= '9'
}

pub open spec fn digit_value(ch: char) -> int {
    ch as int - 48
}

/// The drop counts of a slide with carries `c`: one for each step after the
/// first, and the pieces left at the last square.
pub open spec fn drops_text(c: Seq<int>) -> Seq<char> {
    Seq::new(c.len(), |i: int| if i < c.len() - 1 { digit(c[i] - c[i + 1]) } else { digit(c[i]) })
}

/// A slide whose carries can be written with one digit each: a strictly
/// decreasing sequence of counts from 1 to 9.
pub open spec fn writable_carries(c: Seq<int>) -> bool {
    &&& 1 <= c.len() <= MAX_SLIDE_STEPS
    &&& forall|i: int| 0 <= i < c.len() ==> 1 <= #[trigger] c[i] <= 9
    &&& forall|i: int| 0 <= i < c.len() - 1 ==> #[trigger] c[i] > c[i + 1]
}

/// The text of a move: `Sd3` or `Cd3` for a wall or capstone placement, `d3`
/// for a flat stone; for a slide the number of pieces picked up (left out
/// when it is 1), the square, the direction, and the drop counts (left out
/// when the slide takes one step).
pub open spec fn move_text(mv: MoveText, s: int) -> Seq<char> {
    match mv {
        MoveText::Place(role, sq) => {
            let prefix = match role {
                Role::Flat => Seq::<char>::empty(),
                Role::Wall => seq!['S'],
                Role::Cap => seq!['C'],
            };
            prefix + square_text(sq, s)
        },
        MoveText::Slide(sq, d, c) => {
            let count = if c[0] == 1 { Seq::<char>::empty() } else { seq![digit(c[0])] };
            let drops = if c.len() > 1 { drops_text(c) } else { Seq::<char>::empty() };
            count + square_text(sq, s) + seq![d.glyph()] + drops
        },
    }
}

/// The carries that drop counts leave, starting with `taken` pieces; `None`
/// where a count is not between 1 and the pieces still held, less one.
pub open spec fn carries_from_drops(taken: int, drops: Seq<int>) -> Option<Seq<int>>
    decreases drops.len(),
{
    if drops.len() == 0 {
        Some(seq![taken])
    } else {
        match carries_from_drops(taken, drops.drop_last()) {
            Some(c) => if 1 <= drops.last() < c.last() {
                Some(c.push(c.last() - drops.last()))
            } else {
                None
            },
            None => None,
        }
    }
}

/// The first character of a square's text on a board of side `s`.
pub open spec fn is_file_char(ch: char, s: int) -> bool {
    'a' <= ch && (ch as int) < 97 + s
}

/// Reads the text of a move; `None` for text that is not a move.
pub open spec fn parse_move_text(t: Seq<char>, s: int) -> Option<MoveText> {
    if t.len() < 2 {
        None
    } else if is_file_char(t[0], s) && t.len() == 2 {
        match parse_square_text(t, s) {
            Some(q) => Some(MoveText::Place(Role::Flat, q)),
            None => None,
        }
    } else if is_file_char(t[0], s) && t.len() == 3 {
        match (parse_square_text(t.take(2), s), Direction::from_glyph(t[2])) {
            (Some(q), Some(d)) => Some(MoveText::Slide(q, d, seq![1])),
            _ => None,
        }
    } else if (t[0] == 'C' || t[0] == 'S') && t.len() == 3 {
        match parse_square_text(t.skip(1), s) {
            Some(q) => Some(MoveText::Place(if t[0] == 'C' { Role::Cap } else { Role::Wall }, q)),
            None => None,
        }
    } else if '1' <= t[0] <= '9' && t.len() == 4 {
        match (parse_square_text(t.subrange(1, 3), s), Direction::from_glyph(t[3])) {
            (Some(q), Some(d)) => Some(MoveText::Slide(q, d, seq![digit_value(t[0])])),
            _ => None,
        }
    } else if '1' <= t[0] <= '9' && t.len() > 4 && t.len() <= 4 + MAX_SLIDE_STEPS {
        let drops = t.subrange(4, t.len() - 1);
        if !(forall|i: int| 0 <= i < t.len() ==> i >= 4 ==> is_digit(#[trigger] t[i])) {
            None
        } else {
            match (parse_square_text(t.subrange(1, 3), s), Direction::from_glyph(t[3]),
                carries_from_drops(digit_value(t[0]), drops.map_values(|ch: char| digit_value(ch)))) {
                (Some(q), Some(d), Some(c)) => if c.last() == digit_value(t.last()) {
                    Some(MoveText::Slide(q, d, c))
                } else {
                    None
                },
                _ => None,
            }
        }
    } else {
        None
    }
}

/// Once some drop count is out of range, the whole sequence is.
proof fn lemma_bad_drop_prefix(taken: int, drops: Seq<int>, k: int)
    requires
        0 <= k <= drops.len(),
        carries_from_drops(taken, drops.take(k)).is_none(),
    ensures
        carries_from_drops(taken, drops).is_none(),
    decreases drops.len() - k,
{
    if k < drops.len() {
        assert(drops.take(k + 1).drop_last() =~= drops.take(k));
        lemma_bad_drop_prefix(taken, drops, k + 1);
    } else {
        assert(drops.take(k) =~= drops);
    }
}

/// A move whose text can be written: on the board, and for a slide with
/// carries of one digit each.
pub open spec fn printable(mv: Move, s: int) -> bool {
    match mv {
        Move::Place(_, sq) => sq.on_board(s),
        Move::Move(sq, _, sm) => sq.on_board(s) && writable_carries(sm.carries()),
    }
}

/// Decides whether the text of `mv` can be written.
pub fn is_printable<const S: usize>(mv: &Move) -> (r: bool)
    requires
        valid_size(S as int),
    ensures
        r == printable(*mv, S as int),
{
    assert(S * S <= 64) by (nonlinear_arith)
        requires
            S <= 8,
    ;
    match mv {
        Move::Place(_, sq) => (sq.0 as usize) < S * S,
        Move::Move(sq, direction, sm) => {
            if (sq.0 as usize) >= S * S {
                return false;
            }
            let n = sm.len();
            if n < 1 || n > MAX_SLIDE_STEPS {
                return false;
            }
            let ghost c = sm.carries();
            let mut i: usize = 0;
            while i < n
                invariant
                    n == c.len(),
                    c == sm.carries(),
                    *mv == Move::Move(*sq, *direction, *sm),
                    1 <= n <= MAX_SLIDE_STEPS,
                    i <= n,
                    forall|j: int| 0 <= j < i ==> 1 <= #[trigger] c[j] <= 9,
                    forall|j: int| 0 <= j < i && j + 1 < n ==> #[trigger] c[j] > c[j + 1],
                decreases n - i,
            {
                let here = sm.get(i).pieces_to_take;
                if here < 1 || here > 9 {
                    assert(!(1 <= c[i as int] <= 9));
                    assert(!writable_carries(c));
                    return false;
                }
                if i + 1 < n && sm.get(i + 1).pieces_to_take >= here {
                    assert(!(c[i as int] > c[i + 1]));
                    assert(!writable_carries(c));
                    return false;
                }
                i = i + 1;
            }
            true
        },
    }
}

impl Move {
    /// The text of the move, such as `Sd3` or `3a1>12`.
    pub fn to_string<const S: usize>(&self) -> (r: String)
        requires
            valid_size(S as int),
            printable(*self, S as int),
        ensures
            r@ == move_text(move_view(*self), S as int),
    {
        let mut r = String::new();
        match self {
            Move::Place(role, square) => {
                match role {
                    Role::Cap => push_char(&mut r, 'C'),
                    Role::Wall => push_char(&mut r, 'S'),
                    Role::Flat => {},
                }
                let sq_text = square.to_string::<S>();
                push_char(&mut r, sq_text.get_char(0));
                push_char(&mut r, sq_text.get_char(1));
                assert(r@ =~= move_text(move_view(*self), S as int));
            },
            Move::Move(square, direction, sm) => {
                let ghost c = sm.carries();
                let first = sm.get(0).pieces_to_take;
                if first != 1 {
                    push_char(&mut r, (48 + first) as char);
                }
                let sq_text = square.to_string::<S>();
                push_char(&mut r, sq_text.get_char(0));
                push_char(&mut r, sq_text.get_char(1));
                push_char(&mut r, direction.to_glyph());
                let ghost head = r@;
                let n = sm.len();
                if n > 1 {
                    let mut i: usize = 0;
                    while i < n
                        invariant
                            n == c.len(),
                            c == sm.carries(),
                            writable_carries(c),
                            i <= n,
                            r@ == head + drops_text(c).take(i as int),
                        decreases n - i,
                    {
                        let here = sm.get(i).pieces_to_take;
                        let ch = if i + 1 < n {
                            let next = sm.get(i + 1).pieces_to_take;
                            (48 + (here - next)) as char
                        } else {
                            (48 + here) as char
                        };
                        push_char(&mut r, ch);
                        i = i + 1;
                        assert(r@ =~= head + drops_text(c).take(i as int));
                    }
                    assert(drops_text(c).take(n as int) =~= drops_text(c));
                } else {
                    assert(head + Seq::<char>::empty() =~= head);
                }
                assert(r@ =~= move_text(move_view(*self), S as int));
            },
        }
        r
    }
}

/// Reads the text of a move, such as `Sd3` or `3a1>12`.
pub fn move_from_san<const S: usize>(input: &str) -> (r: Result<Move, pgn_traits::Error>)
    requires
        valid_size(S as int),
    ensures
        r.is_ok() <==> parse_move_text(input@, S as int).is_some(),
        r.is_ok() ==> move_view(r.unwrap()) == parse_move_text(input@, S as int).unwrap(),
{
    let ghost t = input@;
    let ghost s = S as int;
    let len = input.unicode_len();
    if len < 2 {
        return Err(parse_error("Input move too short", input));
    }
    let first = input.get_char(0);
    let is_file = 'a' <= first && (first as u32) < 97 + S as u32;
    if is_file && len == 2 {
        return match Square::parse_square::<S>(input) {
            Ok(sq) => Ok(Move::Place(Role::Flat, sq)),
            Err(e) => Err(e),
        };
    }
    if is_file && len == 3 {
        let sq = Square::parse_square::<S>(input.substring_char(0, 2));
        let dir = Direction::parse(input.get_char(2));
        return match (sq, dir) {
            (Ok(sq), Some(d)) => {
                let mut sm = StackMovement::new();
                sm.push::<S>(Movement { pieces_to_take: 1 }, 1);
                Ok(Move::Move(sq, d, sm))
            },
            _ => Err(parse_error("Couldn't parse move", input)),
        };
    }
    if (first == 'C' || first == 'S') && len == 3 {
        return match Square::parse_square::<S>(input.substring_char(1, 3)) {
            Ok(sq) => Ok(Move::Place(if first == 'C' { Role::Cap } else { Role::Wall }, sq)),
            Err(e) => Err(e),
        };
    }
    if '1' <= first && first <= '9' && len == 4 {
        let sq = Square::parse_square::<S>(input.substring_char(1, 3));
        let dir = Direction::parse(input.get_char(3));
        return match (sq, dir) {
            (Ok(sq), Some(d)) => {
                let taken = (first as u32 - 48) as u8;
                let mut sm = StackMovement::new();
                sm.push::<S>(Movement { pieces_to_take: taken }, taken);
                Ok(Move::Move(sq, d, sm))
            },
            _ => Err(parse_error("Couldn't parse move", input)),
        };
    }
    if '1' <= first && first <= '9' && len > 4 && len <= 4 + MAX_SLIDE_STEPS {
        let mut k: usize = 4;
        while k < len
            invariant
                t == input@,
                len == t.len(),
                4 <= k <= len,
                forall|i: int| 4 <= i < k ==> is_digit(#[trigger] t[i]),
            decreases len - k,
        {
            let ch = input.get_char(k);
            if !('0' <= ch && ch <= '9') {
                return Err(parse_error("Couldn't parse move", input));
            }
            k = k + 1;
        }
        let sq = Square::parse_square::<S>(input.substring_char(1, 3));
        let dir = Direction::parse(input.get_char(3));
        let (sq, d) = match (sq, dir) {
            (Ok(sq), Some(d)) => (sq, d),
            _ => return Err(parse_error("Couldn't parse move", input)),
        };
        let taken = (first as u32 - 48) as u8;
        let mut sm = StackMovement::new();
        sm.push::<S>(Movement { pieces_to_take: taken }, taken);
        let mut held = taken;
        let ghost drops = t.subrange(4, t.len() - 1).map_values(|ch: char| digit_value(ch));
        let mut j: usize = 4;
        assert(drops.take(0) =~= Seq::<int>::empty());
        while j + 1 < len
            invariant
                t == input@,
                len == t.len(),
                4 < len <= 4 + MAX_SLIDE_STEPS,
                4 <= j < len,
                forall|i: int| 4 <= i < len ==> is_digit(#[trigger] t[i]),
                drops == t.subrange(4, t.len() - 1).map_values(|ch: char| digit_value(ch)),
                taken == digit_value(t[0]),
                carries_from_drops(taken as int, drops.take(j - 4)) == Some(sm.carries()),
                sm.carries().len() == j - 3,
                held == sm.carries().last(),
                1 <= held <= 9,
            decreases len - j,
        {
            let drop = (input.get_char(j) as u32 - 48) as u8;
            assert(drops[j - 4] == drop);
            assert(drops.take(j - 3).drop_last() =~= drops.take(j - 4));
            if drop < 1 || drop >= held {
                proof {
                    lemma_bad_drop_prefix(taken as int, drops, j - 3);
                }
                return Err(parse_error("Couldn't parse move", input));
            }
            sm.push::<S>(Movement { pieces_to_take: held - drop }, held);
            held = held - drop;
            j = j + 1;
        }
        assert(drops.take(len - 5) =~= drops);
        let last = (input.get_char(len - 1) as u32 - 48) as u8;
        if last != held {
            return Err(parse_error("Couldn't parse move", input));
        }
        return Ok(Move::Move(sq, d, sm));
    }
    Err(parse_error("Couldn't parse move", input))
}

/// The drop counts of a valid slide read back into its carries.
proof fn lemma_drops_read_back(c: Seq<int>, k: int)
    requires
        writable_carries(c),
        1 <= k <= c.len(),
    ensures
        carries_from_drops(c[0], drops_text(c).take(k - 1).map_values(|ch: char| digit_value(ch))) == Some(c.take(k)),
    decreases k,
{
    let f = |ch: char| digit_value(ch);
    if k == 1 {
        assert(drops_text(c).take(0).map_values(f) =~= Seq::<int>::empty());
        assert(c.take(1) =~= seq![c[0]]);
    } else {
        lemma_drops_read_back(c, k - 1);
        let drops = drops_text(c).take(k - 1).map_values(f);
        assert(drops.drop_last() =~= drops_text(c).take(k - 2).map_values(f));
        assert(drops.last() == c[k - 2] - c[k - 1]);
        assert(c.take(k - 1).last() == c[k - 2]);
        assert(c[k - 1] >= 1);
        assert(c.take(k - 1).push(c[k - 2] - (c[k - 2] - c[k - 1])) =~= c.take(k));
    }
}

/// Reading the text of a move gives the move back: the text form loses nothing.
pub proof fn lemma_move_text_round_trip(mv: MoveText, s: int)
    requires
        valid_size(s),
        match mv {
            MoveText::Place(_, sq) => 0 <= sq < s * s,
            MoveText::Slide(sq, _, c) => 0 <= sq < s * s && writable_carries(c),
        },
    ensures
        parse_move_text(move_text(mv, s), s) == Some(mv),
{
    match mv {
        MoveText::Place(role, sq) => {
            lemma_square_text_round_trip(sq, s);
            lemma_coords(sq, s);
            let q = square_text(sq, s);
            let t = move_text(mv, s);
            match role {
                Role::Flat => {
                    assert(t =~= q);
                },
                _ => {
                    assert(t.skip(1) =~= q);
                    assert(t[0] == 'C' || t[0] == 'S');
                },
            }
        },
        MoveText::Slide(sq, d, c) => {
            lemma_square_text_round_trip(sq, s);
            lemma_glyph_round_trip(d);
            lemma_coords(sq, s);
            let q = square_text(sq, s);
            let t = move_text(mv, s);
            if c[0] == 1 {
                if c.len() > 1 {
                    assert(c[0] > c[1]);
                    assert(c[1] >= 1);
                }
                assert(t =~= q + seq![d.glyph()]);
                assert(t.take(2) =~= q);
                assert(c =~= seq![1int]);
            } else if c.len() == 1 {
                assert(t =~= seq![digit(c[0])] + q + seq![d.glyph()]);
                assert(t.subrange(1, 3) =~= q);
                assert(c =~= seq![digit_value(t[0])]);
            } else {
                let n = c.len() as int;
                let dt = drops_text(c);
                assert(t =~= seq![digit(c[0])] + q + seq![d.glyph()] + dt);
                assert(t.subrange(1, 3) =~= q);
                assert(t.subrange(4, t.len() - 1) =~= dt.take(n - 1));
                assert forall|i: int| 0 <= i < t.len() && i >= 4 implies is_digit(#[trigger] t[i]) by {
                    let j = i - 4;
                    if j < n - 1 {
                        assert(c[j] > c[j + 1]);
                    }
                }
                lemma_drops_read_back(c, n);
                assert(c.take(n) =~= c);
                assert(t.last() == digit(c[n - 1]));
            }
        },
    }
}

} // verus!
