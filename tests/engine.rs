use eden_chess::board::{board_setup, empty_board, insert_piece, move_piece, move_piece_simulating, Board};
use eden_chess::game::{get_all_moves, Game, Model, ModelMsg, UiMsg};
use eden_chess::piece::{Piece, PieceType, Side};
use eden_chess::position::{char_add, char_sub, push_if_exists, CBPosition, Direction};

fn pos(s: &str) -> CBPosition {
    let mut chars = s.chars();
    let col = chars.next().unwrap();
    let row = chars.next().unwrap().to_digit(10).unwrap() as usize;
    CBPosition { col, row }
}

fn place(board: &mut Board, square: &str, side: Side, piece_type: PieceType) {
    let p = pos(square);
    insert_piece(board, p.row, p.col, side, piece_type);
}

fn all_squares() -> Vec<CBPosition> {
    let mut v = Vec::new();
    for col in 'a'..='h' {
        for row in 1..=8 {
            v.push(CBPosition { col, row });
        }
    }
    v
}

fn sorted(mut v: Vec<CBPosition>) -> Vec<CBPosition> {
    v.sort_by_key(|p| (p.col, p.row));
    v
}

fn squares(names: &[&str]) -> Vec<CBPosition> {
    sorted(names.iter().map(|n| pos(n)).collect())
}

fn snapshot(model: &mut Model) -> Board {
    match model.handle_message(UiMsg::GetBoardState) {
        Some(ModelMsg::BoardState(b)) => b,
        other => panic!("expected a board snapshot, got {:?}", other),
    }
}

fn anastasias_board() -> Board {
    let mut b = empty_board();
    place(&mut b, "g1", Side::White, PieceType::King);
    place(&mut b, "e3", Side::White, PieceType::Rook);
    place(&mut b, "e7", Side::White, PieceType::Knight);
    place(&mut b, "g7", Side::Black, PieceType::Pawn);
    place(&mut b, "h8", Side::Black, PieceType::King);
    b
}

fn anderssens_board() -> Board {
    let mut b = empty_board();
    place(&mut b, "g8", Side::Black, PieceType::King);
    place(&mut b, "f6", Side::White, PieceType::King);
    place(&mut b, "g7", Side::White, PieceType::Pawn);
    place(&mut b, "h2", Side::White, PieceType::Rook);
    b
}

fn arabian_board() -> Board {
    let mut b = empty_board();
    place(&mut b, "b7", Side::White, PieceType::Rook);
    place(&mut b, "f6", Side::White, PieceType::Knight);
    place(&mut b, "g1", Side::White, PieceType::King);
    place(&mut b, "h8", Side::Black, PieceType::King);
    b
}

fn balestra_board() -> Board {
    let mut b = empty_board();
    place(&mut b, "g1", Side::White, PieceType::King);
    place(&mut b, "f3", Side::White, PieceType::Bishop);
    place(&mut b, "f6", Side::White, PieceType::Queen);
    place(&mut b, "e8", Side::Black, PieceType::King);
    b
}

fn play(board: Board, from: &str, to: &str) -> Option<ModelMsg> {
    let mut model = Model::from_board_state(board, Side::White);
    model.handle_message(UiMsg::MakeMove((pos(from), pos(to))))
}

#[test]
fn checkmate() {
    let mates = vec![
        ("Anastasia's Mate", anastasias_board(), ("e3", "h3")),
        ("Anderssen's Mate", anderssens_board(), ("h2", "h8")),
        ("Arabian Mate", arabian_board(), ("b7", "h7")),
        ("Balestra Mate", balestra_board(), ("f3", "c6")),
    ];
    let mut fails: Vec<&'static str> = Vec::new();
    for (name, board, (from, to)) in mates {
        if play(board, from, to) != Some(ModelMsg::Checkmate(Side::White)) {
            fails.push(name);
        }
    }
    if !fails.is_empty() {
        let mut panic_str = String::from("Checkmates Failed:\n");
        for fail in fails {
            panic_str.push_str(&format!("     {fail}\n"));
        }
        panic!("{panic_str}")
    }
}

#[test]
fn anastasias_mate() {
    assert_eq!(play(anastasias_board(), "e3", "h3"), Some(ModelMsg::Checkmate(Side::White)));
}

#[test]
fn anderssens_mate() {
    assert_eq!(play(anderssens_board(), "h2", "h8"), Some(ModelMsg::Checkmate(Side::White)));
}

#[test]
fn arabian_mate() {
    assert_eq!(play(arabian_board(), "b7", "h7"), Some(ModelMsg::Checkmate(Side::White)));
}

#[test]
fn balestra_mate() {
    assert_eq!(play(balestra_board(), "f3", "c6"), Some(ModelMsg::Checkmate(Side::White)));
}

#[test]
fn check_that_can_be_escaped_is_no_mate() {
    // Without the knight on e7 the king escapes to g8.
    let mut b = empty_board();
    place(&mut b, "g1", Side::White, PieceType::King);
    place(&mut b, "e3", Side::White, PieceType::Rook);
    place(&mut b, "g7", Side::Black, PieceType::Pawn);
    place(&mut b, "h8", Side::Black, PieceType::King);
    assert_eq!(play(b, "e3", "h3"), None);
}

#[test]
fn check_that_can_be_blocked_is_no_mate() {
    // A black rook on a4 can interpose on h4.
    let mut b = anastasias_board();
    place(&mut b, "a4", Side::Black, PieceType::Rook);
    assert_eq!(play(b, "e3", "h3"), None);
}

#[test]
fn move_outside_valid_set_is_rejected() {
    let mut model = Model::new();
    let before = snapshot(&mut model);
    let valid = match model.handle_message(UiMsg::GetValidMoves(pos("e2"))) {
        Some(ModelMsg::Moves(ms)) => sorted(ms),
        other => panic!("expected moves, got {:?}", other),
    };
    assert_eq!(valid, squares(&["e3", "e4"]));
    assert!(!valid.contains(&pos("e5")));
    assert_eq!(
        model.handle_message(UiMsg::MakeMove((pos("e2"), pos("e5")))),
        Some(ModelMsg::MoveIsInvalid)
    );
    assert_eq!(snapshot(&mut model), before);
    // White is still to move.
    assert_eq!(model.handle_message(UiMsg::MakeMove((pos("e2"), pos("e4")))), None);
    assert_ne!(snapshot(&mut model), before);
}

#[test]
fn move_from_empty_or_off_board_square_is_rejected() {
    let mut model = Model::new();
    let before = snapshot(&mut model);
    assert_eq!(
        model.handle_message(UiMsg::MakeMove((pos("e4"), pos("e5")))),
        Some(ModelMsg::MoveIsInvalid)
    );
    let off = CBPosition { col: 'z', row: 2 };
    assert_eq!(
        model.handle_message(UiMsg::MakeMove((off, pos("e3")))),
        Some(ModelMsg::MoveIsInvalid)
    );
    assert_eq!(
        model.handle_message(UiMsg::MakeMove((pos("e2"), CBPosition { col: 'e', row: 9 }))),
        Some(ModelMsg::MoveIsInvalid)
    );
    assert_eq!(model.handle_message(UiMsg::GetValidMoves(off)), Some(ModelMsg::Moves(Vec::new())));
    assert_eq!(snapshot(&mut model), before);
}

#[test]
fn turns_alternate_on_accepted_moves() {
    let mut model = Model::new();
    assert_eq!(model.handle_message(UiMsg::MakeMove((pos("e2"), pos("e4")))), None);
    assert_eq!(model.game.which_turn, Side::Black);
    assert_eq!(model.handle_message(UiMsg::MakeMove((pos("e7"), pos("e5")))), None);
    assert_eq!(model.game.which_turn, Side::White);
    // A rejected move leaves the turn as it was.
    assert_eq!(
        model.handle_message(UiMsg::MakeMove((pos("d2"), pos("d6")))),
        Some(ModelMsg::MoveIsInvalid)
    );
    assert_eq!(model.game.which_turn, Side::White);
    // The pawn that moved has lost its double step.
    let board = snapshot(&mut model);
    let pawn = board.get(pos("e4")).unwrap();
    assert!(pawn.has_moved);
    assert_eq!(pawn.current_pos, pos("e4"));
    assert_eq!(sorted(pawn.get_valid_moves(&board)), Vec::<CBPosition>::new());
}

#[test]
fn move_of_side_not_to_move_is_rejected() {
    // White is to move: a legal Black move that keeps Black's king safe is refused.
    let mut b = empty_board();
    place(&mut b, "e1", Side::White, PieceType::King);
    place(&mut b, "e8", Side::Black, PieceType::King);
    place(&mut b, "a8", Side::Black, PieceType::Rook);
    let mut model = Model::from_board_state(b.clone(), Side::White);
    assert_eq!(
        model.handle_message(UiMsg::MakeMove((pos("a8"), pos("a5")))),
        Some(ModelMsg::MoveIsInvalid)
    );
    assert_eq!(model.game.which_turn, Side::White);
    assert_eq!(snapshot(&mut model), b);
    // Once White has moved, the same move is played and the turn comes back to White.
    assert_eq!(model.handle_message(UiMsg::MakeMove((pos("e1"), pos("d1")))), None);
    assert_eq!(model.game.which_turn, Side::Black);
    assert_eq!(model.handle_message(UiMsg::MakeMove((pos("a8"), pos("a5")))), None);
    assert_eq!(model.game.which_turn, Side::White);
    assert_eq!(model.game.board.get(pos("a5")).unwrap().piece_type, PieceType::Rook);
}

#[test]
fn self_check_is_rejected() {
    // The bishop on e2 is pinned against the king by the rook on e8.
    let mut b = empty_board();
    place(&mut b, "e1", Side::White, PieceType::King);
    place(&mut b, "e2", Side::White, PieceType::Bishop);
    place(&mut b, "e8", Side::Black, PieceType::Rook);
    place(&mut b, "a8", Side::Black, PieceType::King);
    let mut model = Model::from_board_state(b.clone(), Side::White);
    assert_eq!(
        model.handle_message(UiMsg::CheckValidMove((pos("e2"), pos("d3")))),
        Some(ModelMsg::MoveIsInvalid)
    );
    assert_eq!(
        model.handle_message(UiMsg::MakeMove((pos("e2"), pos("d3")))),
        Some(ModelMsg::MoveIsInvalid)
    );
    assert_eq!(snapshot(&mut model), b);
    assert_eq!(
        model.handle_message(UiMsg::CheckValidMove((pos("e1"), pos("d1")))),
        Some(ModelMsg::MoveIsValid(pos("e1"), pos("d1")))
    );
    assert_eq!(snapshot(&mut model), b);
}

#[test]
fn king_is_never_captured() {
    let mut b = empty_board();
    place(&mut b, "a1", Side::White, PieceType::King);
    place(&mut b, "h1", Side::White, PieceType::Rook);
    place(&mut b, "h8", Side::Black, PieceType::King);
    let mut model = Model::from_board_state(b.clone(), Side::White);
    // The rook gives check along the file, yet taking the king is refused.
    let rook = b.get(pos("h1")).unwrap();
    assert!(rook.can_move_to(pos("h8"), &b));
    assert_eq!(
        model.handle_message(UiMsg::MakeMove((pos("h1"), pos("h8")))),
        Some(ModelMsg::MoveIsInvalid)
    );
    assert_eq!(snapshot(&mut model), b);
}

#[test]
fn stalemate_when_defender_has_no_moves() {
    // Black's king on a1 is walled in by its own pawns, none of which can move.
    let mut b = empty_board();
    place(&mut b, "h8", Side::White, PieceType::King);
    place(&mut b, "h7", Side::White, PieceType::Rook);
    place(&mut b, "a1", Side::Black, PieceType::King);
    place(&mut b, "a2", Side::Black, PieceType::Pawn);
    place(&mut b, "b1", Side::Black, PieceType::Pawn);
    place(&mut b, "b2", Side::Black, PieceType::Pawn);
    assert_eq!(play(b, "h7", "g7"), Some(ModelMsg::Stalemate));
}

#[test]
fn stalemate_when_defender_has_no_pieces() {
    let mut b = empty_board();
    place(&mut b, "e1", Side::White, PieceType::King);
    place(&mut b, "a1", Side::White, PieceType::Rook);
    assert_eq!(play(b, "a1", "a2"), Some(ModelMsg::Stalemate));
}

#[test]
fn no_mate_without_check() {
    // Black's king has no safe square but is not attacked.
    let mut b = empty_board();
    place(&mut b, "a8", Side::Black, PieceType::King);
    place(&mut b, "b6", Side::White, PieceType::Queen);
    place(&mut b, "c1", Side::White, PieceType::King);
    let moves = get_all_moves(&b);
    assert!(!Model::check_for_checkmate(&b, &moves, Side::Black));
    assert!(!Model::can_king_move(&b, &moves, Side::Black));
}

#[test]
fn quiet_requests_get_no_answer() {
    let mut model = Model::new();
    let before = snapshot(&mut model);
    assert_eq!(model.handle_message(UiMsg::Debug("hello")), None);
    assert_eq!(model.handle_message(UiMsg::Quit), None);
    assert_eq!(snapshot(&mut model), before);
}

#[test]
fn geometry_stays_on_board() {
    for p in all_squares() {
        let mut produced = Vec::new();
        produced.extend(p.get_vertical());
        produced.extend(p.get_horizontal());
        produced.extend(p.get_diagonals());
        produced.extend(p.get_adjacents());
        produced.extend(p.get_knight_moves());
        for d in [
            Direction::North,
            Direction::NorthEast,
            Direction::East,
            Direction::SouthEast,
            Direction::South,
            Direction::SouthWest,
            Direction::West,
            Direction::NorthWest,
        ] {
            produced.extend(p.beyond(d));
        }
        for dr in -3isize..=3 {
            for df in -3isize..=3 {
                if let Some(q) = p.get_offset(dr, df) {
                    produced.push(q);
                }
            }
        }
        for q in produced {
            assert!(q.is_valid(), "{:?} produced {:?}", p, q);
        }
    }
}

#[test]
fn lines_through_a_square() {
    let e4 = pos("e4");
    assert_eq!(sorted(e4.get_vertical()), squares(&["e1", "e2", "e3", "e5", "e6", "e7", "e8"]));
    assert_eq!(sorted(e4.get_horizontal()), squares(&["a4", "b4", "c4", "d4", "f4", "g4", "h4"]));
    assert_eq!(
        sorted(pos("a1").get_diagonals()),
        squares(&["b2", "c3", "d4", "e5", "f6", "g7", "h8"])
    );
    assert_eq!(e4.get_diagonals().len(), 13);
}

#[test]
fn rays_run_nearest_first() {
    let e4 = pos("e4");
    assert_eq!(e4.beyond(Direction::North), vec![pos("e5"), pos("e6"), pos("e7"), pos("e8")]);
    assert_eq!(CBPosition::north_of(&e4), vec![pos("e5"), pos("e6"), pos("e7"), pos("e8")]);
    assert_eq!(CBPosition::south_of(&e4), vec![pos("e3"), pos("e2"), pos("e1")]);
    assert_eq!(CBPosition::east_of(&e4), vec![pos("f4"), pos("g4"), pos("h4")]);
    assert_eq!(CBPosition::west_of(&e4), vec![pos("d4"), pos("c4"), pos("b4"), pos("a4")]);
    assert_eq!(CBPosition::northeast_of(&e4), vec![pos("f5"), pos("g6"), pos("h7")]);
    assert_eq!(CBPosition::northwest_of(&e4), vec![pos("d5"), pos("c6"), pos("b7"), pos("a8")]);
    assert_eq!(CBPosition::southeast_of(&e4), vec![pos("f3"), pos("g2"), pos("h1")]);
    assert_eq!(CBPosition::southwest_of(&e4), vec![pos("d3"), pos("c2"), pos("b1")]);
    assert_eq!(pos("h8").beyond(Direction::NorthEast), Vec::<CBPosition>::new());
}

#[test]
fn offsets_from_a_square() {
    let e4 = pos("e4");
    assert_eq!(e4.get_offset(2, -1), Some(pos("d6")));
    assert_eq!(e4.get_offset(-3, 3), Some(pos("h1")));
    assert_eq!(e4.get_offset(5, 0), None);
    assert_eq!(e4.get_offset(0, -5), None);
    assert_eq!(e4.get_offset(isize::MIN, isize::MAX), None);
    assert_eq!(
        pos("a1").get_offsets(vec![(1, 0), (-1, 0), (0, 1), (1, 1)]),
        vec![pos("a2"), pos("b1"), pos("b2")]
    );
    assert_eq!(sorted(pos("a1").get_adjacents()), squares(&["a2", "b1", "b2"]));
    assert_eq!(e4.get_adjacents().len(), 8);
    assert_eq!(sorted(pos("a1").get_knight_moves()), squares(&["b3", "c2"]));
    assert_eq!(
        sorted(e4.get_knight_moves()),
        squares(&["c3", "c5", "d2", "d6", "f2", "f6", "g3", "g5"])
    );
}

#[test]
fn direction_and_distance() {
    assert_eq!(Direction::relative_direction(pos("e4"), pos("e7")), Direction::North);
    assert_eq!(Direction::relative_direction(pos("e4"), pos("g6")), Direction::NorthEast);
    assert_eq!(Direction::relative_direction(pos("e4"), pos("h4")), Direction::East);
    assert_eq!(Direction::relative_direction(pos("e4"), pos("f1")), Direction::SouthEast);
    assert_eq!(Direction::relative_direction(pos("e4"), pos("e1")), Direction::South);
    assert_eq!(Direction::relative_direction(pos("e4"), pos("a1")), Direction::SouthWest);
    assert_eq!(Direction::relative_direction(pos("e4"), pos("a4")), Direction::West);
    assert_eq!(Direction::relative_direction(pos("e4"), pos("b8")), Direction::NorthWest);
    assert_eq!(pos("a1").positional_difference(&pos("h8")), 14);
    assert_eq!(pos("e4").positional_difference(&pos("c5")), 3);
    assert_eq!(pos("e4").positional_difference(&pos("e4")), 0);
}

#[test]
fn cursor_stays_on_board() {
    let mut c = pos("h8");
    c.move_cursor_right();
    c.move_cursor_up();
    assert_eq!(c, pos("h8"));
    c.move_cursor_left();
    c.move_cursor_down();
    assert_eq!(c, pos("g7"));
    let mut a = pos("a1");
    a.move_cursor_left();
    a.move_cursor_down();
    assert_eq!(a, pos("a1"));
    a.move_cursor_right();
    a.move_cursor_up();
    assert_eq!(a, pos("b2"));
}

#[test]
fn char_arithmetic() {
    assert_eq!(char_add('a', 1), 'b');
    assert_eq!(char_add('a', 7), 'h');
    assert_eq!(char_sub('h', 7), 'a');
    assert_eq!(char_sub('b', 1), 'a');
}

#[test]
fn push_helpers() {
    let mut v: Vec<u8> = vec![1];
    push_if_exists(&mut v, Some(2));
    push_if_exists(&mut v, None);
    assert_eq!(v, vec![1, 2]);
    let board = board_setup();
    let mut squares_seen = Vec::new();
    CBPosition::push_if_occupied(&mut squares_seen, pos("e2"), &board);
    CBPosition::push_if_occupied(&mut squares_seen, pos("e4"), &board);
    assert_eq!(squares_seen, vec![pos("e2")]);
}

#[test]
fn sides_flip() {
    let mut s = Side::White;
    s.flip();
    assert_eq!(s, Side::Black);
    assert_eq!(s.flipped(), Side::White);
    assert_eq!(s, Side::Black);
}

#[test]
fn starting_position() {
    let game = Game::new();
    let b = &game.board;
    assert_eq!(game.which_turn, Side::White);
    let king = b.get(pos("e1")).unwrap();
    assert_eq!(king, Piece::new(Side::White, PieceType::King, pos("e1")));
    assert_eq!(b.get(pos("d8")).unwrap().piece_type, PieceType::Queen);
    assert_eq!(b.get(pos("b8")).unwrap().piece_type, PieceType::Knight);
    assert_eq!(b.get(pos("c1")).unwrap().piece_type, PieceType::Bishop);
    assert_eq!(b.get(pos("h8")).unwrap().piece_type, PieceType::Rook);
    assert_eq!(b.get(pos("g7")).unwrap(), Piece::new(Side::Black, PieceType::Pawn, pos("g7")));
    assert_eq!(b.get(pos("e4")), None);
    let all = get_all_moves(b);
    assert_eq!(all.iter().filter(|(p, _)| p.side == Side::White).count(), 20);
    assert_eq!(all.iter().filter(|(p, _)| p.side == Side::Black).count(), 20);
    assert_eq!(sorted(game.get_valid_moves(pos("g1"))), squares(&["f3", "h3"]));
    assert_eq!(game.get_valid_moves(pos("a1")), Vec::<CBPosition>::new());
    assert_eq!(game.get_valid_moves(pos("e4")), Vec::<CBPosition>::new());
}

#[test]
fn legal_moves_never_hit_own_side() {
    let mut b = board_setup();
    move_piece(&mut b, pos("e2"), pos("e4"));
    move_piece(&mut b, pos("d7"), pos("d5"));
    move_piece(&mut b, pos("d1"), pos("f3"));
    for (piece, to) in get_all_moves(&b) {
        if let Some(other) = b.get(to) {
            assert_ne!(other.side, piece.side, "{:?} -> {:?}", piece, to);
        }
    }
}

#[test]
fn sliding_pieces_stop_at_the_first_piece() {
    let mut b = empty_board();
    place(&mut b, "d4", Side::White, PieceType::Queen);
    place(&mut b, "d6", Side::Black, PieceType::Pawn);
    place(&mut b, "f4", Side::White, PieceType::Pawn);
    place(&mut b, "b2", Side::Black, PieceType::Knight);
    let queen = b.get(pos("d4")).unwrap();
    assert_eq!(
        sorted(queen.get_valid_moves(&b)),
        squares(&[
            "d5", "d6", "d3", "d2", "d1", "e4", "c4", "b4", "a4", "e5", "f6", "g7", "h8", "c5",
            "b6", "a7", "e3", "f2", "g1", "c3", "b2",
        ])
    );
    place(&mut b, "d4", Side::White, PieceType::Rook);
    let rook = b.get(pos("d4")).unwrap();
    assert_eq!(
        sorted(rook.get_valid_moves(&b)),
        squares(&["d5", "d6", "d3", "d2", "d1", "e4", "c4", "b4", "a4"])
    );
    place(&mut b, "d4", Side::White, PieceType::Bishop);
    let bishop = b.get(pos("d4")).unwrap();
    assert_eq!(
        sorted(bishop.get_valid_moves(&b)),
        squares(&["e5", "f6", "g7", "h8", "c5", "b6", "a7", "e3", "f2", "g1", "c3", "b2"])
    );
}

#[test]
fn pawn_rules() {
    let mut b = empty_board();
    place(&mut b, "e2", Side::White, PieceType::Pawn);
    place(&mut b, "d3", Side::Black, PieceType::Knight);
    place(&mut b, "f3", Side::White, PieceType::Knight);
    let pawn = b.get(pos("e2")).unwrap();
    // Diagonals only when a piece stands there; captures only of the other side.
    assert_eq!(sorted(pawn.get_pawn_moves(&b)), squares(&["e3", "e4", "d3", "f3"]));
    assert_eq!(sorted(pawn.get_valid_moves(&b)), squares(&["e3", "e4", "d3"]));
    // Only the destination of a step has to be empty.
    place(&mut b, "e3", Side::Black, PieceType::Rook);
    assert_eq!(sorted(pawn.get_valid_moves(&b)), squares(&["d3", "e4"]));
    place(&mut b, "e4", Side::Black, PieceType::Rook);
    assert_eq!(sorted(pawn.get_valid_moves(&b)), squares(&["d3"]));
    let mut b2 = empty_board();
    place(&mut b2, "c7", Side::Black, PieceType::Pawn);
    place(&mut b2, "b6", Side::White, PieceType::Pawn);
    let black_pawn = b2.get(pos("c7")).unwrap();
    assert_eq!(sorted(black_pawn.get_valid_moves(&b2)), squares(&["c6", "c5", "b6"]));
    assert_eq!(black_pawn.get_available_castle_moves(&b2), Vec::<CBPosition>::new());
}

#[test]
fn simulate_then_undo_restores_board() {
    let original = board_setup();
    let mut b = original.clone();
    let captured = move_piece_simulating(&mut b, pos("e2"), pos("e4"), None);
    assert_eq!(captured, None);
    assert_ne!(b, original);
    assert_eq!(b.get(pos("e4")).unwrap().current_pos, pos("e4"));
    move_piece_simulating(&mut b, pos("e4"), pos("e2"), captured);
    assert_eq!(b, original);

    // A capture: the taken piece comes back.
    let mut c = original.clone();
    let taken = move_piece_simulating(&mut c, pos("a1"), pos("a7"), None);
    assert_eq!(taken, Some(Piece::new(Side::Black, PieceType::Pawn, pos("a7"))));
    assert_eq!(c.get(pos("a1")), None);
    move_piece_simulating(&mut c, pos("a7"), pos("a1"), taken);
    assert_eq!(c, original);
}

#[test]
fn committed_move_marks_piece_as_moved() {
    let mut b = board_setup();
    move_piece(&mut b, pos("g1"), pos("f3"));
    assert_eq!(b.get(pos("g1")), None);
    let knight = b.get(pos("f3")).unwrap();
    assert!(knight.has_moved);
    assert_eq!(knight.current_pos, pos("f3"));
    let before = b.clone();
    move_piece(&mut b, pos("e5"), pos("e6"));
    assert_eq!(b, before);
}

#[test]
fn kings_and_attacks() {
    let b = anastasias_board();
    let king = Model::get_king(&b, Side::Black).unwrap();
    assert_eq!(king.current_pos, pos("h8"));
    assert_eq!(Model::get_king(&empty_board(), Side::White), None);
    let moves = get_all_moves(&b);
    assert!(!Model::piece_under_attack(&king, &moves));
    assert!(Model::check_move_is_valid(&king, &moves));
    assert!(Model::can_king_move(&b, &moves, Side::Black));
    assert!(!Model::check_for_checkmate(&b, &moves, Side::Black));
    let mut after = b.clone();
    move_piece(&mut after, pos("e3"), pos("h3"));
    let after_moves = get_all_moves(&after);
    let king = Model::get_king(&after, Side::Black).unwrap();
    assert!(Model::piece_under_attack(&king, &after_moves));
    assert!(!Model::can_king_move(&after, &after_moves, Side::Black));
    assert!(Model::check_for_checkmate(&after, &after_moves, Side::Black));
}

#[test]
fn simulate_move_plays_on_a_copy() {
    let model = Model::new();
    let before = model.game.board.clone();
    let after = model.simulate_move(pos("b1"), pos("c3"));
    assert_eq!(model.game.board, before);
    let knight = after.get(pos("c3")).unwrap();
    assert!(!knight.has_moved);
    assert_eq!(knight.current_pos, pos("c3"));
    assert_eq!(after.get(pos("b1")), None);
    // Nothing is checked: an impossible knight move is simulated all the same.
    let odd = model.simulate_move(pos("b1"), pos("b3"));
    assert_eq!(odd.get(pos("b3")).unwrap().piece_type, PieceType::Knight);
}

#[test]
fn try_move_checks_and_commits_on_a_copy() {
    let model = Model::new();
    let before = model.game.board.clone();
    let after = model.try_move(pos("b1"), pos("c3")).unwrap();
    assert!(model.try_move(pos("b8"), pos("c6")).is_none());
    assert_eq!(model.game.board, before);
    assert!(after.get(pos("c3")).unwrap().has_moved);
    assert_eq!(after.get(pos("b1")), None);
    assert!(model.try_move(pos("b1"), pos("b3")).is_none());
    assert!(model.try_move(pos("e4"), pos("e5")).is_none());
}

#[test]
fn move_lists_run_in_square_order() {
    let mut model = Model::new();
    assert_eq!(
        model.handle_message(UiMsg::GetValidMoves(pos("e2"))),
        Some(ModelMsg::Moves(vec![pos("e3"), pos("e4")]))
    );
    assert_eq!(
        model.handle_message(UiMsg::GetValidMoves(pos("g8"))),
        Some(ModelMsg::Moves(vec![pos("f6"), pos("h6")]))
    );
    let b = board_setup();
    let knight = b.get(pos("g1")).unwrap();
    assert_eq!(knight.get_valid_moves(&b), vec![pos("f3"), pos("h3")]);
    assert_eq!(
        pos("d4").get_horizontal(),
        vec![pos("a4"), pos("b4"), pos("c4"), pos("e4"), pos("f4"), pos("g4"), pos("h4")]
    );
    assert_eq!(
        pos("d4").get_vertical(),
        vec![pos("d1"), pos("d2"), pos("d3"), pos("d5"), pos("d6"), pos("d7"), pos("d8")]
    );
    let all = get_all_moves(&b);
    for i in 0..all.len() {
        for j in (i + 1)..all.len() {
            assert_ne!(all[i], all[j]);
        }
    }
    let order = vec![pos("e8"), pos("e4"), pos("a1"), pos("z9")];
    let found = Game::get_all_pieces_in(&b, &order);
    assert_eq!(
        found,
        vec![
            Piece::new(Side::Black, PieceType::King, pos("e8")),
            Piece::new(Side::White, PieceType::Rook, pos("a1")),
        ]
    );
}

#[test]
fn make_move_commits() {
    let mut model = Model::from_board_state(board_setup(), Side::White);
    assert_eq!(model.make_move(pos("g1"), pos("f3")), None);
    assert_eq!(model.game.board.get(pos("f3")).unwrap().piece_type, PieceType::Knight);
    assert_eq!(model.make_move(pos("f3"), pos("d5")), Some(ModelMsg::MoveIsInvalid));
    assert_eq!(model.make_move(pos("e7"), pos("e5")), None);
    assert_eq!(model.game.which_turn, Side::White);
    let blank = empty_board();
    for p in all_squares() {
        assert_eq!(blank.get(p), None);
    }
}
