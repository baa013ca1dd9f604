use vstd::prelude::*;

use crate::error::{parse_error, push_char};
use crate::movement::{Move, Movement, StackMovement, MAX_SLIDE_STEPS};
use crate::notation::{digit, drops_text, move_view, writable_carries, MoveText};
use crate::piece::Role;
use crate::rules::path;
use crate::square::{file_of, jump, rank_of, square_text, valid_size, Direction, Square};

verus! {

/// A square's text with the file letter in upper case, such as `C3`.
pub open spec fn upper_square_text(sq: int, s: int) -> Seq<char> {
    let t = square_text(sq, s);
    seq![((t[0] as int) - 32) as u8 as char, t[1]]
}

/// The drop counts, each after a space.
pub open spec fn spaced(d: Seq<char>) -> Seq<char>
    decreases d.len(),
{
    if d.len() == 0 {
        Seq::empty()
    } else {
        spaced(d.drop_last()) + seq![' ', d.last()]
    }
}

/// The text of a move in the play protocol: `P C3`, `P C3 W`, `P C3 C` for
/// placements; `M A1 C1 1 2` for a slide from A1 to C1 dropping 1, then 2.
pub open spec fn playtak_text(mv: MoveText, s: int) -> Seq<char> {
    match mv {
        MoveText::Place(role, sq) => {
            let suffix = match role {
                Role::Flat => Seq::<char>::empty(),
                Role::Wall => seq![' ', 'W'],
                Role::Cap => seq![' ', 'C'],
            };
            seq!['P', ' '] + upper_square_text(sq, s) + suffix
        },
        MoveText::Slide(sq, d, c) => {
            let end = path(sq, s, d, c.len() as int);
            seq!['M', ' '] + upper_square_text(sq, s) + seq![' '] + upper_square_text(end, s) + spaced(drops_text(c))
        },
    }
}

/// A move that the play protocol can write: on the board, and for a slide
/// with carries of one digit each and an end square on the board.
pub open spec fn writable(mv: Move, s: int) -> bool {
    match mv {
        Move::Place(_, sq) => sq.on_board(s),
        Move::Move(sq, d, sm) => sq.on_board(s) && writable_carries(sm.carries())
            && jump(sq.index(), s, d, sm.carries().len() as int).is_some(),
    }
}

/// The drop count written for step `k` of a slide with carries `c`.
pub open spec fn drop_at(c: Seq<int>, k: int) -> int {
    if k < c.len() - 1 {
        c[k] - c[k + 1]
    } else {
        c[k]
    }
}

/// The pieces dropped from step `k` of a slide to its end.
pub open spec fn drops_from(v: Seq<int>, k: int) -> int
    decreases v.len() - k,
{
    if k >= v.len() || k < 0 {
        0
    } else {
        v[k] + drops_from(v, k + 1)
    }
}

proof fn lemma_spaced(d: Seq<char>)
    ensures
        spaced(d).len() == 2 * d.len(),
        forall|k: int| 0 <= k < d.len() ==> #[trigger] spaced(d)[2 * k + 1] == d[k],
    decreases d.len(),
{
    if d.len() > 0 {
        lemma_spaced(d.drop_last());
        let p = spaced(d.drop_last());
        assert forall|k: int| 0 <= k < d.len() implies #[trigger] spaced(d)[2 * k + 1] == d[k] by {
            if k < d.len() - 1 {
                assert(spaced(d)[2 * k + 1] == p[2 * k + 1]);
                assert(d.drop_last()[k] == d[k]);
            }
        }
    }
}

/// The drops from step `k` on add up to the carry of step `k`.
proof fn lemma_drops_from(c: Seq<int>, k: int)
    requires
        0 <= k < c.len(),
    ensures
        drops_from(Seq::new(c.len(), |i: int| drop_at(c, i)), k) == c[k],
    decreases c.len() - k,
{
    if k < c.len() - 1 {
        lemma_drops_from(c, k + 1);
    } else {
        let v = Seq::new(c.len(), |i: int| drop_at(c, i));
        assert(drops_from(v, k + 1) == 0);
    }
}

/// The characters of a move's protocol text at the places that a reader looks.
proof fn lemma_text_shape(mv: Move, s: int)
    requires
        valid_size(s),
        writable(mv, s),
    ensures
        ({
            let t = playtak_text(move_view(mv), s);
            match mv {
                Move::Place(role, sq) => {
                    &&& t.len() == if role == Role::Flat { 4int } else { 6int }
                    &&& t[0] == 'P'
                    &&& t[2] as int == 65 + file_of(sq.index(), s)
                    &&& t[3] as int == 48 + s - rank_of(sq.index(), s)
                    &&& role == Role::Wall ==> t[5] == 'W'
                    &&& role == Role::Cap ==> t[5] == 'C'
                },
                Move::Move(sq, d, sm) => {
                    let c = sm.carries();
                    let e = path(sq.index(), s, d, c.len() as int);
                    &&& t.len() == 7 + 2 * c.len()
                    &&& t[0] == 'M'
                    &&& t[2] as int == 65 + file_of(sq.index(), s)
                    &&& t[3] as int == 48 + s - rank_of(sq.index(), s)
                    &&& t[5] as int == 65 + file_of(e, s)
                    &&& t[6] as int == 48 + s - rank_of(e, s)
                    &&& forall|k: int| 0 <= k < c.len() ==> #[trigger] t[8 + 2 * k] as int == 48 + drop_at(c, k)
                    &&& forall|k: int| 0 <= k < c.len() ==> 1 <= #[trigger] drop_at(c, k) <= 9
                },
            }
        }),
{
    let t = playtak_text(move_view(mv), s);
    match mv {
        Move::Place(role, sq) => {
            crate::square::lemma_coords(sq.index(), s);
        },
        Move::Move(sq, d, sm) => {
            let c = sm.carries();
            let n = c.len() as int;
            crate::square::lemma_coords(sq.index(), s);
            crate::rules::lemma_path(sq.index(), s, d, n);
            let e = path(sq.index(), s, d, n);
            crate::square::lemma_coords(e, s);
            let dt = drops_text(c);
            lemma_spaced(dt);
            let head = seq!['M', ' '] + upper_square_text(sq.index(), s) + seq![' '] + upper_square_text(e, s);
            assert(t == head + spaced(dt));
            assert(head.len() == 7);
            assert forall|k: int| 0 <= k < c.len() implies 1 <= #[trigger] drop_at(c, k) <= 9 by {
                if k < n - 1 {
                    assert(c[k] > c[k + 1]);
                    assert(c[k + 1] >= 1);
                }
            }
            assert forall|k: int| 0 <= k < c.len() implies #[trigger] t[8 + 2 * k] as int == 48 + drop_at(c, k) by {
                assert(t[8 + 2 * k] == spaced(dt)[2 * k + 1]);
                assert(dt[k] == digit(drop_at(c, k)));
                assert(1 <= drop_at(c, k) <= 9);
            }
        },
    }
}

fn push_upper_square<const S: usize>(sink: &mut String, sq: Square)
    requires
        valid_size(S as int),
        sq.on_board(S as int),
    ensures
        final(sink)@ == old(sink)@ + upper_square_text(sq.index(), S as int),
{
    let t = sq.to_string::<S>();
    let c0 = t.get_char(0);
    proof {
        crate::square::lemma_coords(sq.index(), S as int);
    }
    push_char(sink, ((c0 as u8) - 32) as char);
    push_char(sink, t.get_char(1));
    assert(sink@ =~= old(sink)@ + upper_square_text(sq.index(), S as int));
}

/// Appends the play-protocol text of `mv` to `sink`.
pub fn write_move<const S: usize>(mv: &Move, sink: &mut String)
    requires
        valid_size(S as int),
        writable(*mv, S as int),
    ensures
        final(sink)@ == old(sink)@ + playtak_text(move_view(*mv), S as int),
{
    let ghost start = sink@;
    match mv {
        Move::Place(role, square) => {
            push_char(sink, 'P');
            push_char(sink, ' ');
            push_upper_square::<S>(sink, *square);
            match role {
                Role::Flat => {},
                Role::Wall => {
                    push_char(sink, ' ');
                    push_char(sink, 'W');
                },
                Role::Cap => {
                    push_char(sink, ' ');
                    push_char(sink, 'C');
                },
            }
            assert(sink@ =~= start + playtak_text(move_view(*mv), S as int));
        },
        Move::Move(square, direction, sm) => {
            let ghost c = sm.carries();
            let n = sm.len();
            let end = square.jump_direction::<S>(*direction, n as u8).unwrap();
            push_char(sink, 'M');
            push_char(sink, ' ');
            push_upper_square::<S>(sink, *square);
            push_char(sink, ' ');
            push_upper_square::<S>(sink, end);
            let ghost head = sink@;
            let mut i: usize = 0;
            while i < n
                invariant
                    n == c.len(),
                    c == sm.carries(),
                    writable_carries(c),
                    i <= n,
                    sink@ == head + spaced(drops_text(c).take(i as int)),
                decreases n - i,
            {
                let here = sm.get(i).pieces_to_take;
                let ch = if i + 1 < n {
                    let next = sm.get(i + 1).pieces_to_take;
                    (48 + (here - next)) as char
                } else {
                    (48 + here) as char
                };
                push_char(sink, ' ');
                push_char(sink, ch);
                proof {
                    let d = drops_text(c).take(i + 1);
                    assert(d.drop_last() =~= drops_text(c).take(i as int));
                    assert(d.last() == ch);
                }
                i = i + 1;
            }
            assert(drops_text(c).take(n as int) =~= drops_text(c));
            assert(sink@ =~= start + playtak_text(move_view(*mv), S as int));
        },
    }
}

/// Reads a move in the play protocol. Text that does not describe a move that
/// writes back to exactly the same text is rejected; the text of every move
/// that the protocol can write is read.
pub fn parse_move<const S: usize>(input: &str) -> (r: Result<Move, pgn_traits::Error>)
    requires
        valid_size(S as int),
    ensures
        r.is_ok() ==> writable(r.unwrap(), S as int) && playtak_text(move_view(r.unwrap()), S as int) == input@,
        (exists|mv: Move| writable(mv, S as int) && #[trigger] playtak_text(move_view(mv), S as int) == input@)
            ==> r.is_ok(),
{
    let candidate = match candidate_move::<S>(input) {
        Some(mv) => mv,
        None => return Err(parse_error("Couldn't parse move", input)),
    };
    if !is_writable::<S>(&candidate) {
        return Err(parse_error("Couldn't parse move", input));
    }
    let mut text = String::new();
    write_move::<S>(&candidate, &mut text);
    let expected = input.to_owned();
    if text == expected {
        Ok(candidate)
    } else {
        Err(parse_error("Couldn't parse move", input))
    }
}

/// The move that a protocol text describes, read at the places where a
/// move's text holds its parts; `None` where those places do not read.
fn candidate_move<const S: usize>(input: &str) -> (r: Option<Move>)
    requires
        valid_size(S as int),
    ensures
        (exists|mv: Move| writable(mv, S as int) && #[trigger] playtak_text(move_view(mv), S as int) == input@)
            ==> r.is_some() && writable(r.unwrap(), S as int) && playtak_text(move_view(r.unwrap()), S as int) == input@,
{
    let ghost s = S as int;
    let ghost t = input@;
    let ghost found = exists|mv: Move| writable(mv, s) && #[trigger] playtak_text(move_view(mv), s) == t;
    let ghost target = choose|mv: Move| writable(mv, s) && #[trigger] playtak_text(move_view(mv), s) == t;
    proof {
        if found {
            lemma_text_shape(target, s);
        }
    }
    let len = input.unicode_len();
    if len < 4 {
        return None;
    }
    let kind = input.get_char(0);
    proof {
        if found {
            let q = match target {
                Move::Place(_, q) => q,
                Move::Move(q, _, _) => q,
            };
            crate::square::lemma_coords(q.index(), s);
            assert('A' <= t[2] && (t[2] as int) < 65 + s && '1' <= t[3] && (t[3] as int) < 49 + s);
        }
    }
    let from = match square_from_upper::<S>(input.get_char(2), input.get_char(3)) {
        Some(sq) => sq,
        None => return None,
    };
    proof {
        if found {
            let q = match target {
                Move::Place(_, q) => q,
                Move::Move(q, _, _) => q,
            };
            crate::square::lemma_coords(q.index(), s);
            assert(from.index() == q.index());
        }
    }
    if kind == 'P' {
        let role = if len == 6 && input.get_char(5) == 'W' {
            Role::Wall
        } else if len == 6 && input.get_char(5) == 'C' {
            Role::Cap
        } else {
            Role::Flat
        };
        let r = Move::Place(role, from);
        proof {
            if found {
                assert(move_view(r) == move_view(target));
            }
        }
        return Some(r);
    }
    if kind == 'M' && len >= 9 && len <= 7 + 2 * MAX_SLIDE_STEPS {
        proof {
            if found {
                match target {
                    Move::Move(q, d, sm) => {
                        let e = path(q.index(), s, d, sm.carries().len() as int);
                        crate::rules::lemma_path(q.index(), s, d, sm.carries().len() as int);
                        crate::square::lemma_coords(e, s);
                        assert('A' <= t[5] && (t[5] as int) < 65 + s && '1' <= t[6] && (t[6] as int) < 49 + s);
                    },
                    _ => {},
                }
            }
        }
        let to = match square_from_upper::<S>(input.get_char(5), input.get_char(6)) {
            Some(sq) => sq,
            None => return None,
        };
        let direction = if from.file::<S>() == to.file::<S>() {
            if to.rank::<S>() < from.rank::<S>() {
                Direction::North
            } else {
                Direction::South
            }
        } else if to.file::<S>() > from.file::<S>() {
            Direction::East
        } else {
            Direction::West
        };
        let n: usize = (len - 7) / 2;
        let ghost vals = Seq::new(n as nat, |i: int| t[8 + 2 * i] as int - 48);
        proof {
            if found {
                match target {
                    Move::Move(q, d, sm) => {
                        let c = sm.carries();
                        let e = path(q.index(), s, d, c.len() as int);
                        crate::square::lemma_coords(q.index(), s);
                        crate::rules::lemma_path(q.index(), s, d, c.len() as int);
                        crate::square::lemma_coords(e, s);
                        crate::square::lemma_jump(q.index(), s, d, c.len() as int);
                        assert(to.index() == e);
                        assert(direction == d);
                        assert(n == c.len());
                        assert(vals =~= Seq::new(c.len(), |i: int| drop_at(c, i)));
                    },
                    _ => {},
                }
            }
        }
        // The carry of each step is the sum of the drops from that step on.
        let mut sums: Vec<u8> = Vec::new();
        let mut held: u8 = 0;
        let mut k: usize = n;
        while k > 0
            invariant
                t == input@,
                len == t.len(),
                9 <= len <= 7 + 2 * MAX_SLIDE_STEPS,
                n == (len - 7) / 2,
                k <= n,
                vals == Seq::new(n as nat, |i: int| t[8 + 2 * i] as int - 48),
                held == drops_from(vals, k as int),
                held <= 9 * (n - k),
                sums@.len() == n - k,
                forall|j: int| 0 <= j < n - k ==> #[trigger] sums@[j] == drops_from(vals, n - 1 - j),
                forall|i: int| 0 <= i < vals.len() ==> 1 <= #[trigger] vals[i] <= 9 || !found,
                found == exists|mv: Move| writable(mv, S as int) && #[trigger] playtak_text(move_view(mv), S as int) == input@,
            decreases k,
        {
            k = k - 1;
            let ch = input.get_char(8 + 2 * k);
            if !('1' <= ch && ch <= '9') {
                proof {
                    assert(vals[k as int] == ch as int - 48);
                    if found {
                        assert(1 <= vals[k as int] <= 9);
                        assert('1' <= ch && ch <= '9');
                    }
                }
                return None;
            }
            held = held + (ch as u32 - 48) as u8;
            sums.push(held);
        }
        let mut movements: Vec<Movement> = Vec::new();
        let mut j: usize = 0;
        while j < n
            invariant
                n == vals.len(),
                sums@.len() == n,
                forall|i: int| 0 <= i < n ==> #[trigger] sums@[i] == drops_from(vals, n - 1 - i),
                j <= n,
                movements@.len() == j,
                forall|i: int| 0 <= i < j ==> #[trigger] movements@[i].pieces_to_take == drops_from(vals, i),
            decreases n - j,
        {
            movements.push(Movement { pieces_to_take: sums[n - 1 - j] });
            j = j + 1;
        }
        let sm = StackMovement::from_movements::<S>(movements);
        let r = Move::Move(from, direction, sm);
        proof {
            if found {
                match target {
                    Move::Move(q, d, tsm) => {
                        let c = tsm.carries();
                        assert forall|i: int| 0 <= i < c.len() implies #[trigger] sm.carries()[i] == c[i] by {
                            lemma_drops_from(c, i);
                        }
                        assert(sm.carries() =~= c);
                        assert(move_view(r) == move_view(target));
                    },
                    _ => {},
                }
            }
        }
        return Some(r);
    }
    None
}

/// Reads a square written with an upper-case file letter, such as `C3`.
fn square_from_upper<const S: usize>(file: char, rank: char) -> (r: Option<Square>)
    requires
        valid_size(S as int),
    ensures
        r.is_some() ==> r.unwrap().on_board(S as int),
        r.is_some() <==> ('A' <= file && (file as int) < 65 + S && '1' <= rank && (rank as int) < 49 + S),
        r.is_some() ==> r.unwrap().index() == (file as int - 65) * S + (S - (rank as int - 48)),
{
    if 'A' <= file && (file as u32) < 65 + S as u32 && '1' <= rank && (rank as u32) < 49 + S as u32 {
        let f = (file as u32 - 65) as u8;
        let rk = (S as u32 - (rank as u32 - 48)) as u8;
        Some(Square::from_rank_file::<S>(rk, f))
    } else {
        None
    }
}

/// Decides whether the play protocol can write `mv`.
fn is_writable<const S: usize>(mv: &Move) -> (r: bool)
    requires
        valid_size(S as int),
    ensures
        r == writable(*mv, S as int),
{
    if !crate::notation::is_printable::<S>(mv) {
        return false;
    }
    match mv {
        Move::Place(_, _) => true,
        Move::Move(sq, d, sm) => sq.jump_direction::<S>(*d, sm.len() as u8).is_some(),
    }
}

} // verus!
