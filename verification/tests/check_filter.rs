use chess_engine::board::ArrayBoard;
use chess_engine::check::{
    commit_move, find_king, generate_moves_under_check, in_check_valid_tiles, is_checkmate,
};
use chess_engine::moves::generate_moves;
use chess_engine::pieces::{ErrorKind, Piece, PieceColour, PieceType, Square};

fn open_board() -> ArrayBoard {
    let mut board: Vec<Vec<Option<Piece>>> = Vec::new();
    for _ in 0..8 {
        let mut file: Vec<Option<Piece>> = Vec::new();
        for _ in 0..8 {
            file.push(None);
        }
        board.push(file);
    }
    ArrayBoard { turn: PieceColour::White, in_check: None, board }
}

fn set(b: &mut ArrayBoard, x: usize, y: usize, colour: PieceColour, kind: PieceType) {
    b.board[x][y] = Some(Piece::new(colour, kind));
}

fn sq(x: usize, y: usize) -> Square {
    Square::new(x, y)
}

/// White king on (4,0) checked by a Black rook on (4,7), open file.
fn rook_check_position() -> ArrayBoard {
    let mut b = open_board();
    set(&mut b, 4, 0, PieceColour::White, PieceType::King);
    set(&mut b, 4, 7, PieceColour::Black, PieceType::Rook);
    b.in_check = Some(PieceColour::White);
    b
}

#[test]
fn find_king_locates_the_king() {
    let b = ArrayBoard::new();
    assert_eq!(find_king(&b, PieceColour::White), Some(sq(4, 0)));
    assert_eq!(find_king(&b, PieceColour::Black), Some(sq(4, 7)));
}

#[test]
fn find_king_reports_absence() {
    let b = open_board();
    assert_eq!(find_king(&b, PieceColour::White), None);
    assert_eq!(find_king(&b, PieceColour::Black), None);
}

#[test]
fn checked_king_must_leave_the_ray() {
    let b = rook_check_position();
    let moves = generate_moves_under_check(&b, sq(4, 0)).unwrap();
    // every square off the attacked file survives, the one on it does not
    assert_eq!(moves, vec![sq(5, 0), sq(3, 0), sq(5, 1), sq(3, 1)]);
}

#[test]
fn unrelated_piece_cannot_help() {
    // a knight in the corner can neither interpose on the (4,*) ray nor
    // capture the rook: the filter leaves it nothing
    let mut b = rook_check_position();
    set(&mut b, 0, 0, PieceColour::White, PieceType::Knight);
    let moves = generate_moves_under_check(&b, sq(0, 0)).unwrap();
    assert_eq!(moves, Vec::<Square>::new());
}

#[test]
fn far_pawn_cannot_help() {
    let mut b = rook_check_position();
    set(&mut b, 0, 1, PieceColour::White, PieceType::Pawn);
    let moves = generate_moves_under_check(&b, sq(0, 1)).unwrap();
    assert_eq!(moves, Vec::<Square>::new());
}

#[test]
fn interposing_move_survives_the_filter() {
    // a rook on (0,3) has exactly one helpful move: onto the attack ray
    let mut b = rook_check_position();
    set(&mut b, 0, 3, PieceColour::White, PieceType::Rook);
    let moves = generate_moves_under_check(&b, sq(0, 3)).unwrap();
    assert_eq!(moves, vec![sq(4, 3)]);
}

#[test]
fn capturing_the_attacker_survives_the_filter() {
    // a rook on (7,7) can take the checking rook and nothing else helps
    let mut b = rook_check_position();
    set(&mut b, 7, 7, PieceColour::White, PieceType::Rook);
    let moves = generate_moves_under_check(&b, sq(7, 7)).unwrap();
    assert_eq!(moves, vec![sq(4, 7)]);
}

#[test]
fn in_check_valid_tiles_matches_api() {
    let mut b = rook_check_position();
    set(&mut b, 0, 3, PieceColour::White, PieceType::Rook);
    let piece = b.board[0][3].unwrap();
    let direct = in_check_valid_tiles(0, 3, &piece, &b);
    let through_api = generate_moves_under_check(&b, sq(0, 3)).unwrap();
    assert_eq!(direct, through_api);
}

#[test]
fn committed_evasion_leaves_king_unattacked() {
    let mut b = rook_check_position();
    let r = commit_move(&mut b, sq(4, 0), sq(3, 0));
    assert_eq!(r, Ok(()));
    // the rook no longer reaches the king's new square
    let rook_moves = generate_moves(&b, sq(4, 7)).unwrap();
    assert!(!rook_moves.contains(&sq(3, 0)));
}

#[test]
fn under_check_errors() {
    let b = rook_check_position();
    assert_eq!(generate_moves_under_check(&b, sq(9, 0)), Err(ErrorKind::OutOfBounds));
    assert_eq!(generate_moves_under_check(&b, sq(2, 2)), Err(ErrorKind::EmptySource));
}

#[test]
fn missing_king_is_reported() {
    // the checked side has pieces but no king on the board
    let mut b = open_board();
    set(&mut b, 0, 1, PieceColour::White, PieceType::Pawn);
    set(&mut b, 4, 7, PieceColour::Black, PieceType::Rook);
    b.in_check = Some(PieceColour::White);
    assert_eq!(generate_moves_under_check(&b, sq(0, 1)), Err(ErrorKind::KingNotFound));
}

#[test]
fn commit_move_flips_turn_each_call() {
    let mut b = ArrayBoard::new();
    assert_eq!(b.turn, PieceColour::White);
    assert_eq!(commit_move(&mut b, sq(4, 1), sq(4, 3)), Ok(()));
    assert_eq!(b.turn, PieceColour::Black);
    assert_eq!(commit_move(&mut b, sq(4, 6), sq(4, 4)), Ok(()));
    // flipping twice is not idempotent: two calls, two flips
    assert_eq!(b.turn, PieceColour::White);
}

#[test]
fn commit_move_performs_the_move() {
    let mut b = ArrayBoard::new();
    assert_eq!(commit_move(&mut b, sq(4, 1), sq(4, 3)), Ok(()));
    assert!(b.board[4][1].is_none());
    assert_eq!(b.board[4][3], Some(Piece::new(PieceColour::White, PieceType::Pawn)));
}

#[test]
fn commit_move_sets_check_flag() {
    // moving the rook onto the open file gives check to Black
    let mut b = open_board();
    set(&mut b, 1, 1, PieceColour::White, PieceType::Rook);
    set(&mut b, 0, 7, PieceColour::Black, PieceType::King);
    set(&mut b, 7, 0, PieceColour::White, PieceType::King);
    assert_eq!(commit_move(&mut b, sq(1, 1), sq(0, 1)), Ok(()));
    assert_eq!(b.turn, PieceColour::Black);
    assert_eq!(b.in_check, Some(PieceColour::Black));
}

#[test]
fn commit_move_clears_stale_check_flag() {
    let mut b = open_board();
    set(&mut b, 1, 1, PieceColour::White, PieceType::Rook);
    set(&mut b, 0, 7, PieceColour::Black, PieceType::King);
    set(&mut b, 7, 0, PieceColour::White, PieceType::King);
    b.in_check = Some(PieceColour::Black);
    // a quiet rook move that attacks nothing recomputes the flag fresh
    assert_eq!(commit_move(&mut b, sq(1, 1), sq(1, 5)), Ok(()));
    assert_eq!(b.in_check, None);
}

#[test]
fn commit_move_rejects_bad_input() {
    let mut b = ArrayBoard::new();
    assert_eq!(commit_move(&mut b, sq(0, 8), sq(0, 0)), Err(ErrorKind::OutOfBounds));
    assert_eq!(commit_move(&mut b, sq(3, 3), sq(3, 4)), Err(ErrorKind::EmptySource));
    // nothing changed
    assert_eq!(b.turn, PieceColour::White);
    assert_eq!(b.board[3][4], None);
}

#[test]
fn back_rank_mate_is_detected() {
    // the cornered king is checked along rank 0 and rank 1 is covered:
    // no piece of White has any surviving move
    let mut b = open_board();
    set(&mut b, 0, 0, PieceColour::White, PieceType::King);
    set(&mut b, 7, 0, PieceColour::Black, PieceType::Rook);
    set(&mut b, 7, 1, PieceColour::Black, PieceType::Rook);
    b.in_check = Some(PieceColour::White);
    assert_eq!(is_checkmate(&b), Ok(true));
}

#[test]
fn escapable_check_is_no_checkmate() {
    let b = rook_check_position();
    assert_eq!(is_checkmate(&b), Ok(false));
}

#[test]
fn checkmate_query_needs_a_king() {
    let mut b = open_board();
    set(&mut b, 0, 1, PieceColour::White, PieceType::Pawn);
    set(&mut b, 4, 7, PieceColour::Black, PieceType::Rook);
    b.in_check = Some(PieceColour::White);
    assert_eq!(is_checkmate(&b), Err(ErrorKind::KingNotFound));
}

#[test]
fn filtered_moves_never_leave_king_attacked() {
    // for every White piece in the check position, every destination the
    // filter returns leads to a board where no Black piece reaches the
    // White king
    let mut b = rook_check_position();
    set(&mut b, 0, 3, PieceColour::White, PieceType::Rook);
    set(&mut b, 7, 7, PieceColour::White, PieceType::Rook);
    set(&mut b, 0, 0, PieceColour::White, PieceType::Knight);
    for x in 0..8 {
        for y in 0..8 {
            let piece = match b.board[x][y] {
                Some(p) => p,
                None => continue,
            };
            if piece.colour != PieceColour::White {
                continue;
            }
            let escapes = generate_moves_under_check(&b, sq(x, y)).unwrap();
            for dest in &escapes {
                let mut after = b.clone();
                assert_eq!(commit_move(&mut after, sq(x, y), *dest), Ok(()));
                let king = find_king(&after, PieceColour::White).unwrap();
                for ax in 0..8 {
                    for ay in 0..8 {
                        let attacker = match after.board[ax][ay] {
                            Some(p) => p,
                            None => continue,
                        };
                        if attacker.colour != PieceColour::Black {
                            continue;
                        }
                        let reach = generate_moves(&after, sq(ax, ay)).unwrap();
                        assert!(!reach.contains(&king));
                    }
                }
            }
        }
    }
}

#[test]
fn black_side_filter_is_symmetric() {
    // Black king on (4,7) checked by a White rook on (4,0): the king
    // must step off the file
    let mut b = open_board();
    set(&mut b, 4, 7, PieceColour::Black, PieceType::King);
    set(&mut b, 4, 0, PieceColour::White, PieceType::Rook);
    b.in_check = Some(PieceColour::Black);
    let moves = generate_moves_under_check(&b, sq(4, 7)).unwrap();
    assert_eq!(moves, vec![sq(5, 7), sq(3, 7), sq(5, 6), sq(3, 6)]);
}

#[test]
fn king_may_capture_an_adjacent_attacker() {
    // the attacking rook stands next to the king and is unprotected:
    // capturing it is among the surviving moves
    let mut b = open_board();
    set(&mut b, 4, 0, PieceColour::White, PieceType::King);
    set(&mut b, 4, 1, PieceColour::Black, PieceType::Rook);
    b.in_check = Some(PieceColour::White);
    let moves = generate_moves_under_check(&b, sq(4, 0)).unwrap();
    assert!(moves.contains(&sq(4, 1)));
    // squares the rook still covers are excluded
    assert!(!moves.contains(&sq(3, 1)));
    assert!(!moves.contains(&sq(5, 1)));
    assert!(moves.contains(&sq(3, 0)));
    assert!(moves.contains(&sq(5, 0)));
}

