use tak_core::notation::move_from_san;
use tak_core::playtak::parse_move;
use tak_core::{
    num_policy_features, num_value_features, squares_iterator, Board, Color, Direction, GameResult, Komi, Move,
    Movement, Piece, Role, Square, Stack, StackMovement,
};

fn play<const S: usize>(board: &mut Board<S>, text: &str) {
    let mv = board.move_from_san(text).unwrap();
    let mut legal = vec![];
    board.generate_moves(&mut legal);
    assert!(legal.contains(&mv), "{} is not legal", text);
    board.do_move(mv);
}

fn snapshot<const S: usize>(board: &Board<S>) -> (String, (u8, u8, u8, u8), Color, u16, usize) {
    (
        board.to_fen(),
        board.pieces_in_hand(),
        board.side_to_move(),
        board.half_moves_played(),
        board.moves().len(),
    )
}

/// The flat placements, in playing order, that fill a 5x5 board with White on
/// the squares whose rank and file add up to an even number and Black on the others.
fn alternating_fill_moves() -> Vec<String> {
    let mut white = vec![];
    let mut black = vec![];
    for square in squares_iterator::<5>() {
        let rank = square.rank::<5>();
        let file = square.file::<5>();
        if (rank + file) % 2 == 0 {
            white.push(square.to_string::<5>());
        } else {
            black.push(square.to_string::<5>());
        }
    }
    let mut order = vec![black[0].clone(), white[0].clone()];
    for i in 1..12 {
        order.push(white[i].clone());
        order.push(black[i].clone());
    }
    order.push(white[12].clone());
    order
}

#[test]
fn opening_places_opponent_flats_only() {
    let board = Board::<5>::start_board();
    let mut moves = vec![];
    board.generate_moves(&mut moves);
    assert_eq!(moves.len(), 25);
    for mv in moves.iter() {
        assert!(matches!(mv, Move::Place(Role::Flat, _)));
    }
    let mut board = board;
    let a1 = Square::parse_square::<5>("a1").unwrap();
    board.do_move(Move::Place(Role::Flat, a1));
    assert_eq!(board.stack_at(a1).top_stone(), Some(Piece::BlackFlat));
    let mut moves = vec![];
    board.generate_moves(&mut moves);
    assert_eq!(moves.len(), 24);
    assert!(moves.iter().all(|mv| matches!(mv, Move::Place(Role::Flat, _))));
}

#[test]
fn every_move_reverses_exactly() {
    let mut board = Board::<5>::start_board();
    for text in ["a1", "e5", "b1", "Sc3", "b1<", "Cd4", "2a1+", "c4"].iter() {
        let mut moves = vec![];
        board.generate_moves(&mut moves);
        for mv in moves {
            let before = snapshot(&board);
            let rev = board.do_move(mv.clone());
            let (stones_w, caps_w, stones_b, caps_b) = board.pieces_in_hand();
            assert_eq!(
                board.count_all_pieces() as u32 + stones_w as u32 + caps_w as u32 + stones_b as u32 + caps_b as u32,
                44
            );
            board.reverse_move(rev);
            assert_eq!(snapshot(&board), before);
        }
        play(&mut board, text);
    }
}

#[test]
fn capstone_flattens_wall_and_reversal_restores_it() {
    let mut board = Board::<5>::start_board();
    for text in ["a1", "e5", "Cc3", "Sc4"].iter() {
        play(&mut board, text);
    }
    let c4 = Square::parse_square::<5>("c4").unwrap();
    assert_eq!(board.stack_at(c4).top_stone(), Some(Piece::BlackWall));
    let before = snapshot(&board);
    let mv = board.move_from_san("c3+").unwrap();
    let rev = board.do_move(mv);
    assert_eq!(board.stack_at(c4).len(), 2);
    assert_eq!(board.stack_at(c4).get(0), Some(Piece::BlackFlat));
    assert_eq!(board.stack_at(c4).top_stone(), Some(Piece::WhiteCap));
    board.reverse_move(rev);
    assert_eq!(board.stack_at(c4).top_stone(), Some(Piece::BlackWall));
    assert_eq!(snapshot(&board), before);
}

#[test]
fn slides_never_carry_more_than_board_size() {
    let mut board = Board::<3>::start_board();
    for text in ["c3", "a1", "b1", "c2", "b1<", "c1", "b1", "b3", "b1<", "a3", "b1", "b2", "b1<"].iter() {
        play(&mut board, text);
    }
    let a1 = Square::parse_square::<3>("a1").unwrap();
    assert_eq!(board.stack_at(a1).len(), 4);
    board.null_move();
    let mut moves = vec![];
    board.generate_moves(&mut moves);
    let mut carries_from_a1 = vec![];
    for mv in moves.iter() {
        if let Move::Move(square, _, sm) = mv {
            assert!(sm.get_first::<3>().pieces_to_take <= 3);
            if *square == a1 {
                carries_from_a1.push(sm.get_first::<3>().pieces_to_take);
            }
        }
    }
    assert!(carries_from_a1.contains(&3));
    assert!(!carries_from_a1.contains(&4));
}

#[test]
fn slides_never_move_onto_a_capstone() {
    let mut board = Board::<5>::start_board();
    for text in ["e5", "a1", "b1", "Ca2"].iter() {
        play(&mut board, text);
    }
    let mut moves = vec![];
    board.generate_moves(&mut moves);
    let a1 = Square::parse_square::<5>("a1").unwrap();
    let b1 = Square::parse_square::<5>("b1").unwrap();
    for mv in moves.iter() {
        if let Move::Move(square, direction, _) = mv {
            assert!(!(*square == a1 && *direction == Direction::North));
            assert!(*square == a1 || *square == b1);
        }
    }
    assert!(moves.contains(&board.move_from_san("a1>").unwrap()));
    assert!(!moves.contains(&board.move_from_san("a1+").unwrap()));
}

#[test]
fn road_along_first_rank_wins_for_white() {
    let mut board = Board::<5>::start_board();
    for text in ["a5", "a1", "b1", "b5", "c1", "c5", "d1", "d5"].iter() {
        play(&mut board, text);
        assert_eq!(board.game_result(), None);
    }
    play(&mut board, "e1");
    assert_eq!(board.game_result(), Some(GameResult::WhiteWin));
}

#[test]
fn road_completed_for_both_goes_to_the_mover() {
    let mut board = Board::<3>::start_board();
    for text in ["a3", "a1", "b1", "b3", "a2", "b2"].iter() {
        play(&mut board, text);
    }
    assert_eq!(board.game_result(), None);
    play(&mut board, "c1");
    assert_eq!(board.game_result(), Some(GameResult::WhiteWin));
}

#[test]
fn flat_win_with_komi() {
    let order = alternating_fill_moves();
    let results = [(0, GameResult::WhiteWin), (2, GameResult::Draw), (4, GameResult::BlackWin)];
    for (half_komi, expected) in results.iter() {
        let mut board = Board::<5>::start_board_with_komi(Komi::from_half_komi(*half_komi).unwrap());
        for (i, text) in order.iter().enumerate() {
            assert_eq!(board.game_result(), None, "game over before ply {}", i);
            play(&mut board, text);
        }
        assert_eq!(board.game_result(), Some(*expected));
    }
}

#[test]
fn flat_count_formula() {
    let komi = Komi::from_half_komi(0).unwrap();
    assert_eq!(komi.game_result_with_flatcounts(13, 12), GameResult::WhiteWin);
    assert_eq!(komi.game_result_with_flatcounts(12, 12), GameResult::Draw);
    let komi = Komi::from_half_komi(4).unwrap();
    assert_eq!(komi.half_komi(), 4);
    assert_eq!(komi.game_result_with_flatcounts(13, 12), GameResult::BlackWin);
    assert_eq!(komi.game_result_with_flatcounts(14, 12), GameResult::Draw);
    assert_eq!(komi.game_result_with_flatcounts(15, 12), GameResult::WhiteWin);
    assert!(Komi::from_half_komi(11).is_none());
    assert!(Komi::from_half_komi(-11).is_none());
    assert!(Komi::from_half_komi(-10).is_some());
}

#[test]
fn neighbours_are_symmetric() {
    for a in squares_iterator::<5>() {
        let ns = a.neighbours::<5>();
        let corner = (a.rank::<5>() == 0 || a.rank::<5>() == 4) && (a.file::<5>() == 0 || a.file::<5>() == 4);
        let edge = a.rank::<5>() == 0 || a.rank::<5>() == 4 || a.file::<5>() == 0 || a.file::<5>() == 4;
        assert_eq!(ns.len(), if corner { 2 } else if edge { 3 } else { 4 });
        assert_eq!(a.directions::<5>().len(), ns.len());
        for b in squares_iterator::<5>() {
            assert_eq!(ns.contains(&b), b.neighbours::<5>().contains(&a));
        }
    }
    let table = tak_core::generate_neighbor_table::<5>();
    let c3 = Square::parse_square::<5>("c3").unwrap();
    let bits = tak_core::lookup_neighbor_table::<5>(c3);
    assert_eq!(table.get(c3), bits);
    for n in c3.neighbours::<5>() {
        assert!(bits.get(n.0));
    }
    assert!(!bits.get(c3.0));
}

#[test]
fn directions_step_off_the_board_at_edges() {
    let a1 = Square::parse_square::<5>("a1").unwrap();
    assert_eq!(a1.go_direction::<5>(Direction::South), None);
    assert_eq!(a1.go_direction::<5>(Direction::West), None);
    assert_eq!(a1.go_direction::<5>(Direction::North).unwrap().to_string::<5>(), "a2");
    assert_eq!(a1.go_direction::<5>(Direction::East).unwrap().to_string::<5>(), "b1");
    assert_eq!(a1.jump_direction::<5>(Direction::East, 4).unwrap().to_string::<5>(), "e1");
    assert_eq!(a1.jump_direction::<5>(Direction::East, 5), None);
    assert_eq!(Square::from_rank_file::<5>(4, 0), a1);
    assert_eq!(Direction::North.reverse(), Direction::South);
    assert_eq!(Direction::parse('<'), Some(Direction::West));
    assert_eq!(Direction::parse('x'), None);
    assert_eq!(Direction::East.orthogonal_directions(), [Direction::North, Direction::South]);
}

#[test]
fn groups_follow_connectivity() {
    let mut board = Board::<5>::start_board();
    for text in ["e5", "a1", "b1", "e4", "d1", "e3"].iter() {
        play(&mut board, text);
    }
    let data = board.group_data();
    let sq = |t: &str| Square::parse_square::<5>(t).unwrap();
    assert_ne!(data.group_of(sq("a1")), 0);
    assert_eq!(data.group_of(sq("a1")), data.group_of(sq("b1")));
    assert_ne!(data.group_of(sq("a1")), data.group_of(sq("d1")));
    assert_eq!(data.group_of(sq("e5")), data.group_of(sq("e3")));
    assert_ne!(data.group_of(sq("e5")), data.group_of(sq("a1")));
    assert_eq!(data.group_of(sq("c3")), 0);
    let (size, edges) = data.group_info(data.group_of(sq("a1")));
    assert_eq!(size, 2);
    assert!(edges.is_connected_west());
    assert!(!edges.is_connected_east());
    assert!(data.is_critical_square(sq("c1"), Color::White) == false);
    assert!(data.white_road_pieces().get(sq("b1").0));
    assert!(!data.black_road_pieces().get(sq("b1").0));
    assert!(data.all_pieces().get(sq("e4").0));
}

#[test]
fn critical_square_completes_a_road() {
    let mut board = Board::<5>::start_board();
    for text in ["e5", "a1", "b1", "e4", "c1", "d5", "d1", "b5"].iter() {
        play(&mut board, text);
    }
    let data = board.group_data();
    let e1 = Square::parse_square::<5>("e1").unwrap();
    assert!(data.is_critical_square(e1, Color::White));
    assert_eq!(data.critical_squares(Color::White), vec![e1]);
    let c5 = Square::parse_square::<5>("c5").unwrap();
    assert!(data.is_critical_square(c5, Color::Black) == false || data.critical_squares(Color::Black).contains(&c5));
}

#[test]
fn move_text_round_trips() {
    for text in ["a1", "Sd3", "Ce5", "a1+", "3a1>12", "5c3-221", "2b2<"].iter() {
        let mv = move_from_san::<5>(text).unwrap();
        assert_eq!(mv.to_string::<5>(), *text);
    }
    let mv = move_from_san::<5>("3a1>12").unwrap();
    if let Move::Move(square, direction, sm) = mv {
        assert_eq!(square.to_string::<5>(), "a1");
        assert_eq!(direction, Direction::East);
        assert_eq!(sm.len(), 2);
        assert_eq!(sm.get(0).pieces_to_take, 3);
        assert_eq!(sm.get(1).pieces_to_take, 2);
    } else {
        panic!("not a slide");
    }
}

#[test]
fn malformed_text_is_rejected() {
    for text in ["", "a", "f1", "a6", "a0", "Xa1", "a1?", "3a1>22", "3a1>13", "3a1>102", "0a1>", "Sa", "é1"].iter() {
        assert!(move_from_san::<5>(text).is_err(), "{} was accepted", text);
    }
    assert!(Square::parse_square::<5>("f3").is_err());
    assert!(Square::parse_square::<5>("c33").is_err());
    assert!(Square::parse_square::<8>("h8").is_ok());
    for text in ["", "P", "P Z1", "M A1 C1 1", "M A1 C1 0 2", "M A1 A1 1", "Q A1", "M A1 B2 1"].iter() {
        assert!(parse_move::<5>(text).is_err(), "{} was accepted", text);
    }
}

#[test]
fn stack_keeps_colors_below_the_top() {
    let mut stack = Stack::new();
    assert!(stack.is_empty());
    stack.push(Piece::WhiteWall);
    stack.push(Piece::BlackCap);
    stack.push(Piece::WhiteFlat);
    assert_eq!(stack.len(), 3);
    assert_eq!(stack.get(0), Some(Piece::WhiteFlat));
    assert_eq!(stack.get(1), Some(Piece::BlackFlat));
    assert_eq!(stack.get(3), None);
    assert_eq!(stack.remove(0), Piece::WhiteFlat);
    assert_eq!(stack.get(0), Some(Piece::BlackFlat));
    assert_eq!(stack.replace_top(Piece::BlackWall), Some(Piece::WhiteFlat));
    assert_eq!(stack.pop(), Some(Piece::BlackWall));
    assert_eq!(stack.top_stone(), Some(Piece::BlackFlat));
    let mut it = stack.into_iter();
    assert_eq!(it.next(), Some(Piece::BlackFlat));
    assert_eq!(it.next(), None);
    let mut tall = Stack::new();
    for i in 0..104 {
        tall.push(if i % 3 == 0 { Piece::WhiteFlat } else { Piece::BlackFlat });
    }
    assert_eq!(tall.get(99), Some(Piece::WhiteFlat));
    assert_eq!(tall.get(100), Some(Piece::BlackFlat));
    assert_eq!(tall.remove(50), Piece::BlackFlat);
    assert_eq!(tall.get(98), Some(Piece::WhiteFlat));
}

#[test]
fn pieces_and_colors() {
    assert_eq!(Piece::from_role_color(Role::Cap, Color::Black), Piece::BlackCap);
    assert_eq!(Piece::BlackCap.flip_color(), Piece::WhiteCap);
    assert!(Piece::WhiteCap.is_road_piece());
    assert!(!Piece::BlackWall.is_road_piece());
    assert_eq!(Piece::BlackWall.role(), Role::Wall);
    assert_eq!(Piece::BlackWall.color(), Color::Black);
    assert_eq!(Role::Cap.disc(), 2);
    assert_eq!(Color::White.flip(), Color::Black);
}

#[test]
fn stack_movement_steps() {
    let mut sm = StackMovement::new();
    assert!(sm.is_empty());
    sm.push::<5>(Movement { pieces_to_take: 4 }, 5);
    sm.push::<5>(Movement { pieces_to_take: 2 }, 4);
    assert_eq!(sm.len(), 2);
    assert_eq!(sm.get_first::<5>().pieces_to_take, 4);
    let mut it = sm.duplicate().into_iter::<5>();
    assert_eq!(it.next(), Some(Movement { pieces_to_take: 4 }));
    assert_eq!(it.next(), Some(Movement { pieces_to_take: 2 }));
    assert_eq!(it.next(), None);
    let again = StackMovement::from_movements::<5>(vec![Movement { pieces_to_take: 4 }, Movement { pieces_to_take: 2 }]);
    assert_eq!(again, sm);
}

#[test]
fn position_text_and_colors_swap() {
    let mut board = Board::<3>::start_board();
    for text in ["a1", "c3", "Sb2"].iter() {
        play(&mut board, text);
    }
    assert_eq!(board.to_fen(), "--b-W-w--");
    let flipped = board.flip_colors();
    assert_eq!(flipped.to_fen(), "--w-B-b--");
    assert_eq!(flipped.side_to_move(), Color::White);
    assert_eq!(board.pieces_in_hand(), (8, 0, 9, 0));
    assert_eq!(flipped.pieces_in_hand(), (9, 0, 8, 0));
    assert_eq!(board.count_all_pieces(), 3);
    let b2 = Square::parse_square::<3>("b2").unwrap();
    let sm = StackMovement::from_movements::<3>(vec![Movement { pieces_to_take: 1 }]);
    assert_eq!(board.top_stones_left_behind_by_move(b2, &sm), vec![None, Some(Piece::WhiteWall)]);
}

#[test]
fn feature_counts() {
    assert_eq!(num_value_features::<4>(), 51);
    assert_eq!(num_policy_features::<5>(), 93);
    assert_eq!(num_value_features::<6>(), 72);
}

#[test]
fn mirrors_and_rotations() {
    let mut board = Board::<3>::start_board();
    for text in ["a1", "c3", "Sb3"].iter() {
        play(&mut board, text);
    }
    assert_eq!(board.to_fen(), "--bW--w--");
    assert_eq!(board.flip_board_x().to_fen(), "w--W----b");
    assert_eq!(board.flip_board_y().to_fen(), "b----W--w");
    let once = board.rotate_board();
    assert_ne!(once.to_fen(), board.to_fen());
    let four = once.rotate_board().rotate_board().rotate_board();
    assert_eq!(four.to_fen(), board.to_fen());
    assert_eq!(board.symmetries().len(), 8);
    let all = board.symmetries_with_swapped_colors();
    assert_eq!(all.len(), 16);
    assert_eq!(all[1].to_fen(), "--wB--b--");
    assert_eq!(board.mirror(tak_core::Mirror::Diagonal).to_fen(), board.to_fen().chars().enumerate().map(|(i, _)| {
        let rank = i % 3;
        let file = i / 3;
        board.to_fen().chars().nth(rank * 3 + file).unwrap()
    }).collect::<String>());
}

#[test]
fn generated_moves_are_distinct_and_read_back() {
    let mut board = Board::<5>::start_board();
    for text in ["a1", "e5", "b1", "Sc3", "b1<", "Cd4", "2a1+", "c4"].iter() {
        play(&mut board, text);
        let mut moves = vec![];
        board.generate_moves(&mut moves);
        for i in 0..moves.len() {
            for j in i + 1..moves.len() {
                assert_ne!(moves[i], moves[j]);
            }
            let mut sink = String::new();
            tak_core::playtak::write_move::<5>(&moves[i], &mut sink);
            assert_eq!(parse_move::<5>(&sink).unwrap(), moves[i]);
            assert_eq!(move_from_san::<5>(&moves[i].to_string::<5>()).unwrap(), moves[i]);
        }
    }
}

#[test]
fn abstract_board_construction() {
    let filled = tak_core::AbstractBoard::<u8, 3>::new_from_fn(|| 7);
    let same = tak_core::AbstractBoard::<u8, 3>::new_with_value(7);
    assert_eq!(filled, same);
    assert_eq!(filled.get(Square(8)), 7);
}
