use abalone_mcts::game::{Game, Move, Player, Space};

fn board_with(white: &[(usize, usize)], black: &[(usize, usize)]) -> Game {
    let mut game = Game::new_game();
    for &(x, y) in white {
        game.board[x][y] = Space::Occupied(Player::White);
    }
    for &(x, y) in black {
        game.board[x][y] = Space::Occupied(Player::Black);
    }
    game.white_pieces = white.len() as i16;
    game.black_pieces = black.len() as i16;
    assert!(game.validate_state());
    game
}

fn holds(moves: &[Move], wanted: &Move) -> bool {
    moves.iter().any(|m| m.same(wanted))
}

fn is_white(s: Space) -> bool {
    matches!(s, Space::Occupied(Player::White))
}

fn is_black(s: Space) -> bool {
    matches!(s, Space::Occupied(Player::Black))
}

fn is_empty(s: Space) -> bool {
    matches!(s, Space::Empty)
}

fn successors_differ(game: &Game) {
    let moves = game.get_legal_moves();
    let boards: Vec<String> = moves.iter().map(|m| game.make_move(m).render()).collect();
    for i in 0..boards.len() {
        for j in 0..i {
            assert_ne!(boards[i], boards[j], "{:?} and {:?}", moves[i], moves[j]);
        }
    }
}

fn side_steps_of(moves: &[Move]) -> Vec<Move> {
    moves.iter().filter(|m| matches!(m, Move::Broadside { .. })).copied().collect()
}

#[test]
fn two_pieces_in_line_generate_their_moves_in_order() {
    let game = board_with(&[(3, 4), (4, 4)], &[]);
    let moves = game.get_legal_moves();
    let expected = [
        Move::Broadside { start: (3, 4), mid: None, stop: (4, 4), dir: (1, 1) },
        Move::Broadside { start: (3, 4), mid: None, stop: (4, 4), dir: (0, 1) },
        Move::Broadside { start: (3, 4), mid: None, stop: (4, 4), dir: (0, -1) },
        Move::Broadside { start: (3, 4), mid: None, stop: (4, 4), dir: (-1, -1) },
        Move::Inline { start: (3, 4), dir: (1, 0) },
        Move::Inline { start: (3, 4), dir: (1, 1) },
        Move::Inline { start: (3, 4), dir: (0, 1) },
        Move::Inline { start: (3, 4), dir: (0, -1) },
        Move::Inline { start: (3, 4), dir: (-1, -1) },
        Move::Inline { start: (3, 4), dir: (-1, 0) },
        Move::Inline { start: (4, 4), dir: (1, 0) },
        Move::Inline { start: (4, 4), dir: (1, 1) },
        Move::Inline { start: (4, 4), dir: (0, 1) },
        Move::Inline { start: (4, 4), dir: (0, -1) },
        Move::Inline { start: (4, 4), dir: (-1, -1) },
        Move::Inline { start: (4, 4), dir: (-1, 0) },
    ];
    assert_eq!(moves.len(), expected.len());
    for (got, want) in moves.iter().zip(expected.iter()) {
        assert!(got.same(want), "{:?} is not {:?}", got, want);
    }
    successors_differ(&game);
}

#[test]
fn a_free_pair_has_its_four_side_steps_once_each() {
    let game = board_with(&[(4, 4), (5, 4)], &[]);
    let moves = game.get_legal_moves();
    let sides = side_steps_of(&moves);
    assert_eq!(sides.len(), 4);
    for dir in [(1, 1), (0, 1), (0, -1), (-1, -1)] {
        let from_below = Move::Broadside { start: (4, 4), mid: None, stop: (5, 4), dir };
        let from_above = Move::Broadside { start: (5, 4), mid: None, stop: (4, 4), dir };
        assert!(holds(&moves, &from_below));
        assert!(game.allows(&from_below));
        assert!(!holds(&moves, &from_above));
        assert!(!game.allows(&from_above));
        let next = game.make_move(&from_below);
        assert!(is_empty(next.board[4][4]));
        assert!(is_empty(next.board[5][4]));
        assert!(is_white(next.board[(4 + dir.0) as usize][(4 + dir.1) as usize]));
        assert!(is_white(next.board[(5 + dir.0) as usize][(4 + dir.1) as usize]));
        assert!(next.validate_state());
    }
    for dir in [(1, 0), (-1, 0)] {
        assert!(!game.allows(&Move::Broadside { start: (4, 4), mid: None, stop: (5, 4), dir }));
    }
    assert_eq!(moves.len(), 16);
    successors_differ(&game);
}

#[test]
fn pairs_along_the_other_lines_have_their_four_side_steps() {
    let upright = board_with(&[(4, 4), (4, 5)], &[]);
    let moves = upright.get_legal_moves();
    assert_eq!(side_steps_of(&moves).len(), 4);
    for dir in [(1, 0), (1, 1), (-1, -1), (-1, 0)] {
        assert!(holds(&moves, &Move::Broadside { start: (4, 4), mid: None, stop: (4, 5), dir }));
    }
    assert!(!upright.allows(&Move::Broadside {
        start: (4, 4),
        mid: None,
        stop: (4, 5),
        dir: (0, -1)
    }));
    successors_differ(&upright);

    let slanted = board_with(&[(4, 4), (5, 5)], &[]);
    let moves = slanted.get_legal_moves();
    assert_eq!(side_steps_of(&moves).len(), 4);
    for dir in [(1, 0), (0, 1), (0, -1), (-1, 0)] {
        assert!(holds(&moves, &Move::Broadside { start: (4, 4), mid: None, stop: (5, 5), dir }));
    }
    successors_differ(&slanted);
}

#[test]
fn three_in_line_have_the_side_steps_of_the_three_and_of_both_pairs() {
    let game = board_with(&[(3, 4), (4, 4), (5, 4)], &[]);
    let moves = game.get_legal_moves();
    let sides = side_steps_of(&moves);
    assert_eq!(sides.len(), 12);
    for dir in [(1, 1), (0, 1), (0, -1), (-1, -1)] {
        assert!(holds(&sides, &Move::Broadside { start: (3, 4), mid: None, stop: (4, 4), dir }));
        assert!(holds(&sides, &Move::Broadside { start: (4, 4), mid: None, stop: (5, 4), dir }));
        assert!(holds(
            &sides,
            &Move::Broadside { start: (3, 4), mid: Some((4, 4)), stop: (5, 4), dir }
        ));
    }
    successors_differ(&game);
}

#[test]
fn no_two_moves_of_the_openings_lead_to_the_same_board() {
    successors_differ(&Game::new_basic());
    successors_differ(&Game::new_german_daisy());
    successors_differ(&Game::new_belgian_daisy());
}

#[test]
fn three_pieces_in_line_side_step_with_a_middle() {
    let game = board_with(&[(2, 4), (3, 4), (4, 4)], &[]);
    let moves = game.get_legal_moves();
    let three = Move::Broadside { start: (2, 4), mid: Some((3, 4)), stop: (4, 4), dir: (1, 1) };
    let two = Move::Broadside { start: (2, 4), mid: None, stop: (3, 4), dir: (1, 1) };
    assert!(holds(&moves, &three));
    assert!(holds(&moves, &two));
    assert!(game.allows(&three));
    let next = game.make_move(&three);
    for x in 2..5 {
        assert!(is_empty(next.board[x][4]));
        assert!(is_white(next.board[x + 1][5]));
    }
    assert_eq!(next.white_pieces, 3);
    assert_eq!(next.black_pieces, 0);
    assert!(next.validate_state());
}

#[test]
fn side_step_needs_every_cell_beside_the_line_empty() {
    let game = board_with(&[(2, 4), (3, 4), (4, 4)], &[(4, 5)]);
    let moves = game.get_legal_moves();
    let three = Move::Broadside { start: (2, 4), mid: Some((3, 4)), stop: (4, 4), dir: (1, 1) };
    let two = Move::Broadside { start: (2, 4), mid: None, stop: (3, 4), dir: (1, 1) };
    let other_way = Move::Broadside { start: (2, 4), mid: Some((3, 4)), stop: (4, 4), dir: (0, 1) };
    assert!(!holds(&moves, &three));
    assert!(!holds(&moves, &two));
    assert!(!holds(&moves, &other_way));
    assert!(!game.allows(&three));
}

#[test]
fn no_move_is_generated_twice() {
    let game = Game::new_basic();
    let moves = game.get_legal_moves();
    for i in 0..moves.len() {
        for j in 0..i {
            assert!(!moves[i].same(&moves[j]));
        }
    }
}

#[test]
fn basic_opening_moves_are_generated_in_a_fixed_order() {
    let game = Game::new_basic();
    let first = game.get_legal_moves();
    let second = game.get_legal_moves();
    assert!(first.len() > 0);
    assert_eq!(first.len(), second.len());
    for (a, b) in first.iter().zip(second.iter()) {
        assert!(a.same(b));
    }
    for m in &first {
        assert!(game.allows(m));
        let start = match m {
            Move::Inline { start, .. } => *start,
            Move::Broadside { start, .. } => *start,
        };
        assert!(is_white(game.board[start.0][start.1]));
    }
}

#[test]
fn basic_opening_every_piece_steps_into_each_empty_neighbour() {
    let game = Game::new_basic();
    let moves = game.get_legal_moves();
    let dirs: [(i8, i8); 6] = [(1, 0), (1, 1), (0, 1), (0, -1), (-1, -1), (-1, 0)];
    let mut single_steps = 0;
    for x in 0..9usize {
        for y in 0..9usize {
            if !is_white(game.board[x][y]) {
                continue;
            }
            for dir in dirs {
                let nx = x as i8 + dir.0;
                let ny = y as i8 + dir.1;
                let step = Move::Inline { start: (x, y), dir };
                let onto_empty = nx >= 0
                    && nx <= 8
                    && ny >= 0
                    && ny <= 8
                    && is_empty(game.board[nx as usize][ny as usize]);
                if onto_empty {
                    assert!(holds(&moves, &step));
                    single_steps += 1;
                }
            }
        }
    }
    assert!(single_steps > 0);
    assert_eq!(moves.len(), 44);
}

#[test]
fn one_piece_does_not_push_one() {
    let game = board_with(&[(3, 4)], &[(4, 4)]);
    assert!(!game.allows(&Move::Inline { start: (3, 4), dir: (1, 0) }));
    assert!(game.allows(&Move::Inline { start: (3, 4), dir: (-1, 0) }));
}

#[test]
fn two_pieces_push_one_and_not_two() {
    let push = Move::Inline { start: (2, 4), dir: (1, 0) };
    let game = board_with(&[(2, 4), (3, 4)], &[(4, 4)]);
    assert!(game.allows(&push));
    let next = game.make_move(&push);
    assert!(is_empty(next.board[2][4]));
    assert!(is_white(next.board[3][4]));
    assert!(is_white(next.board[4][4]));
    assert!(is_black(next.board[5][4]));
    assert_eq!(next.black_pieces, 1);
    let blocked = board_with(&[(2, 4), (3, 4)], &[(4, 4), (5, 4)]);
    assert!(!blocked.allows(&push));
}

#[test]
fn three_pieces_do_not_push_three() {
    let game = board_with(&[(0, 4), (1, 4), (2, 4)], &[(3, 4), (4, 4), (5, 4)]);
    assert!(!game.allows(&Move::Inline { start: (0, 4), dir: (1, 0) }));
}

#[test]
fn four_pieces_in_line_do_not_move_along_it() {
    let game = board_with(&[(1, 4), (2, 4), (3, 4), (4, 4)], &[]);
    assert!(!game.allows(&Move::Inline { start: (1, 4), dir: (1, 0) }));
    assert!(game.allows(&Move::Inline { start: (2, 4), dir: (1, 0) }));
    assert!(game.allows(&Move::Inline { start: (4, 4), dir: (1, 0) }));
}

#[test]
fn an_own_piece_behind_the_pushed_line_blocks_the_push() {
    let game = board_with(&[(1, 4), (2, 4), (4, 4)], &[(3, 4)]);
    assert!(!game.allows(&Move::Inline { start: (1, 4), dir: (1, 0) }));
}

#[test]
fn a_piece_at_the_edge_does_not_step_off_the_board() {
    let game = board_with(&[(8, 4), (4, 0), (0, 0)], &[]);
    assert!(!game.allows(&Move::Inline { start: (8, 4), dir: (1, 0) }));
    assert!(!game.allows(&Move::Inline { start: (8, 4), dir: (0, -1) }));
    assert!(!game.allows(&Move::Inline { start: (4, 0), dir: (1, 0) }));
    assert!(!game.allows(&Move::Inline { start: (0, 0), dir: (-1, -1) }));
    assert!(game.allows(&Move::Inline { start: (0, 0), dir: (1, 1) }));
    let two = board_with(&[(7, 4), (8, 4)], &[]);
    assert!(!two.allows(&Move::Inline { start: (7, 4), dir: (1, 0) }));
}

#[test]
fn a_move_that_is_no_move_of_the_side_is_not_allowed() {
    let game = board_with(&[(3, 4)], &[(5, 5)]);
    assert!(!game.allows(&Move::Inline { start: (5, 5), dir: (1, 0) }));
    assert!(!game.allows(&Move::Inline { start: (4, 4), dir: (1, 0) }));
    assert!(!game.allows(&Move::Inline { start: (3, 4), dir: (1, -1) }));
    assert!(!game.allows(&Move::Inline { start: (3, 4), dir: (0, 0) }));
    assert!(!game.allows(&Move::Inline { start: (3, 4), dir: (2, 0) }));
    assert!(!game.allows(&Move::Inline { start: (9, 4), dir: (-1, 0) }));
    assert!(!game.allows(&Move::Broadside {
        start: (3, 4),
        mid: None,
        stop: (4, 4),
        dir: (1, 1)
    }));
}

#[test]
fn three_push_two_into_the_empty_cell_beyond() {
    let game = board_with(&[(0, 4), (1, 4), (2, 4)], &[(3, 4), (4, 4)]);
    let push = Move::Inline { start: (0, 4), dir: (1, 0) };
    assert!(holds(&game.get_legal_moves(), &push));
    let next = game.make_move(&push);
    assert!(is_empty(next.board[0][4]));
    assert!(is_white(next.board[1][4]));
    assert!(is_white(next.board[2][4]));
    assert!(is_white(next.board[3][4]));
    assert!(is_black(next.board[4][4]));
    assert!(is_black(next.board[5][4]));
    assert!(is_empty(next.board[6][4]));
    assert_eq!(next.white_pieces, 3);
    assert_eq!(next.black_pieces, 2);
    assert!(next.validate_state());
}

#[test]
fn three_push_two_and_the_last_leaves_the_board() {
    let game = board_with(&[(4, 4), (5, 4), (6, 4)], &[(7, 4), (8, 4)]);
    let push = Move::Inline { start: (4, 4), dir: (1, 0) };
    assert!(holds(&game.get_legal_moves(), &push));
    let next = game.make_move(&push);
    assert!(is_empty(next.board[4][4]));
    assert!(is_white(next.board[5][4]));
    assert!(is_white(next.board[6][4]));
    assert!(is_white(next.board[7][4]));
    assert!(is_black(next.board[8][4]));
    assert_eq!(next.white_pieces, 3);
    assert_eq!(next.black_pieces, 1);
    assert!(next.validate_state());
    assert!(!next.game_over);
}

#[test]
fn a_piece_is_pushed_off_over_the_rim_of_the_hexagon() {
    let game = board_with(&[(2, 0), (3, 0)], &[(4, 0)]);
    assert!(matches!(game.board[5][0], Space::OutOfBounds));
    let push = Move::Inline { start: (2, 0), dir: (1, 0) };
    assert!(game.allows(&push));
    let next = game.make_move(&push);
    assert!(is_empty(next.board[2][0]));
    assert!(is_white(next.board[3][0]));
    assert!(is_white(next.board[4][0]));
    assert!(matches!(next.board[5][0], Space::OutOfBounds));
    assert_eq!(next.black_pieces, 0);
    assert_eq!(next.white_pieces, 2);
    assert!(next.validate_state());
}

#[test]
fn every_move_passes_the_turn_and_counts_one_move() {
    let game = Game::new_basic();
    for m in game.get_legal_moves() {
        let next = game.make_move(&m);
        assert!(matches!(next.player, Player::Black));
        assert_eq!(next.move_number, 1);
        assert!(next.validate_state());
        assert_eq!(next.white_pieces, 14);
        assert_eq!(next.black_pieces, 14);
        assert!(!next.game_over);
        for back in next.get_legal_moves() {
            let again = next.make_move(&back);
            assert!(matches!(again.player, Player::White));
            assert_eq!(again.move_number, 2);
            assert!(again.validate_state());
        }
    }
}

#[test]
fn a_push_keeps_the_rim() {
    let game = Game::new_belgian_daisy();
    for m in game.get_legal_moves() {
        let next = game.make_move(&m);
        for x in 0..9 {
            for y in 0..9 {
                assert_eq!(
                    matches!(next.board[x][y], Space::OutOfBounds),
                    matches!(game.board[x][y], Space::OutOfBounds)
                );
            }
        }
    }
}

#[test]
fn a_side_step_takes_no_piece_and_keeps_the_rim() {
    let game = Game::new_german_daisy();
    let mut seen = 0;
    for m in game.get_legal_moves() {
        if let Move::Broadside { .. } = m {
            seen += 1;
            let next = game.make_move(&m);
            assert_eq!(next.white_pieces, game.white_pieces);
            assert_eq!(next.black_pieces, game.black_pieces);
            assert!(next.validate_state());
            for x in 0..9 {
                for y in 0..9 {
                    assert_eq!(
                        matches!(next.board[x][y], Space::OutOfBounds),
                        matches!(game.board[x][y], Space::OutOfBounds)
                    );
                }
            }
        }
    }
    assert!(seen > 0);
}

#[test]
fn black_down_to_eight_pieces_has_lost() {
    let black = [(7, 4), (8, 4), (0, 0), (1, 0), (2, 0), (3, 0), (4, 0), (0, 1), (1, 1)];
    let game = board_with(&[(4, 4), (5, 4), (6, 4)], &black);
    assert_eq!(game.black_pieces, 9);
    let next = game.make_move(&Move::Inline { start: (4, 4), dir: (1, 0) });
    assert_eq!(next.black_pieces, 8);
    assert_eq!(next.white_pieces, 3);
    assert!(next.game_over);
    assert!(matches!(next.winner, Some(Player::White)));
    assert!(next.is_well_formed());
}

#[test]
fn white_down_to_eight_pieces_has_lost() {
    let white = [(7, 4), (8, 4), (0, 0), (1, 0), (2, 0), (3, 0), (4, 0), (0, 1), (1, 1)];
    let mut game = board_with(&white, &[(4, 4), (5, 4), (6, 4)]);
    game.player = Player::Black;
    let next = game.make_move(&Move::Inline { start: (4, 4), dir: (1, 0) });
    assert_eq!(next.white_pieces, 8);
    assert_eq!(next.black_pieces, 3);
    assert!(next.game_over);
    assert!(matches!(next.winner, Some(Player::Black)));
    assert!(matches!(next.player, Player::White));
}

#[test]
fn past_the_move_cap_the_game_is_over_without_a_winner() {
    let mut game = Game::new_basic();
    game.move_number = 999;
    let m = game.get_legal_moves()[0];
    let next = game.make_move(&m);
    assert_eq!(next.move_number, 1000);
    assert!(!next.game_over);
    let last = next.make_move(&next.get_legal_moves()[0]);
    assert_eq!(last.move_number, 1001);
    assert!(last.game_over);
    assert!(last.winner.is_none());
}

#[test]
fn the_move_cap_overrides_a_win_by_pieces() {
    let black = [(7, 4), (8, 4), (0, 0), (1, 0), (2, 0), (3, 0), (4, 0), (0, 1), (1, 1)];
    let mut game = board_with(&[(4, 4), (5, 4), (6, 4)], &black);
    game.move_number = 1000;
    let next = game.make_move(&Move::Inline { start: (4, 4), dir: (1, 0) });
    assert_eq!(next.black_pieces, 8);
    assert!(next.game_over);
    assert!(next.winner.is_none());
}

#[test]
fn a_finished_game_stays_finished_when_moves_go_on() {
    let black = [(7, 4), (8, 4), (0, 0), (1, 0), (2, 0), (3, 0), (4, 0), (0, 1), (1, 1)];
    let game = board_with(&[(4, 4), (5, 4), (6, 4)], &black);
    let over = game.make_move(&Move::Inline { start: (4, 4), dir: (1, 0) });
    assert!(over.game_over);
    let on = over.make_move(&over.get_legal_moves()[0]);
    assert!(on.game_over);
    assert!(matches!(on.winner, Some(Player::White)));
}

#[test]
fn same_tells_moves_apart() {
    let a = Move::Inline { start: (1, 2), dir: (1, 0) };
    let b = Move::Inline { start: (1, 2), dir: (0, 1) };
    let c = Move::Broadside { start: (1, 2), mid: None, stop: (2, 2), dir: (0, 1) };
    let d = Move::Broadside { start: (1, 2), mid: Some((2, 2)), stop: (3, 2), dir: (0, 1) };
    let e = Move::Broadside { start: (1, 2), mid: Some((2, 2)), stop: (3, 2), dir: (0, 1) };
    assert!(a.same(&a));
    assert!(!a.same(&b));
    assert!(!a.same(&c));
    assert!(!c.same(&d));
    assert!(d.same(&e));
}
