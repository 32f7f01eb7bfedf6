use chess_engine::board::ArrayBoard;
use chess_engine::moves::{generate_moves, valid_tiles};
use chess_engine::pieces::{ErrorKind, Piece, PieceColour, PieceType, Square};

fn blank() -> ArrayBoard {
    let mut board: Vec<Vec<Option<Piece>>> = Vec::new();
    for _ in 0..8 {
        let mut file: Vec<Option<Piece>> = Vec::new();
        for _ in 0..8 {
            file.push(None);
        }
        board.push(file);
    }
    ArrayBoard { turn: PieceColour::White, in_check: None, board }
}

fn put(b: &mut ArrayBoard, x: usize, y: usize, colour: PieceColour, kind: PieceType) {
    b.board[x][y] = Some(Piece::new(colour, kind));
}

fn sq(x: usize, y: usize) -> Square {
    Square::new(x, y)
}

#[test]
fn start_pawn_single_and_double() {
    // standard starting position, White pawn on (4,1): exactly the
    // single and the double advance
    let b = ArrayBoard::new();
    let moves = generate_moves(&b, sq(4, 1)).unwrap();
    assert_eq!(moves, vec![sq(4, 2), sq(4, 3)]);
}

#[test]
fn rook_blocked_by_own_pawn() {
    // White rook on (0,0) behind a White pawn on (0,1): nothing along
    // the (0,+1) ray
    let mut b = blank();
    put(&mut b, 0, 0, PieceColour::White, PieceType::Rook);
    put(&mut b, 0, 1, PieceColour::White, PieceType::Pawn);
    let moves = generate_moves(&b, sq(0, 0)).unwrap();
    assert!(moves.iter().all(|m| m.x != 0));
    // the (1,0) ray is free all the way
    assert_eq!(moves, vec![sq(1, 0), sq(2, 0), sq(3, 0), sq(4, 0), sq(5, 0), sq(6, 0), sq(7, 0)]);
}

#[test]
fn rook_capture_ends_ray() {
    // White rook on (0,0), Black pawn on (0,3): the file yields the two
    // empty squares plus the capture, nothing beyond it
    let mut b = blank();
    put(&mut b, 0, 0, PieceColour::White, PieceType::Rook);
    put(&mut b, 0, 3, PieceColour::Black, PieceType::Pawn);
    let moves = generate_moves(&b, sq(0, 0)).unwrap();
    let file_moves: Vec<Square> = moves.iter().copied().filter(|m| m.x == 0).collect();
    assert_eq!(file_moves, vec![sq(0, 1), sq(0, 2), sq(0, 3)]);
    assert!(!moves.contains(&sq(0, 4)));
}

#[test]
fn bishop_rays() {
    let mut b = blank();
    put(&mut b, 4, 4, PieceColour::Black, PieceType::Bishop);
    put(&mut b, 6, 6, PieceColour::Black, PieceType::Pawn);
    put(&mut b, 2, 6, PieceColour::White, PieceType::Pawn);
    let moves = generate_moves(&b, sq(4, 4)).unwrap();
    // (1,1) ray stops before the own pawn on (6,6)
    assert!(moves.contains(&sq(5, 5)));
    assert!(!moves.contains(&sq(6, 6)));
    // (-1,1) ray ends on the capture of (2,6)
    assert!(moves.contains(&sq(3, 5)));
    assert!(moves.contains(&sq(2, 6)));
    assert!(!moves.contains(&sq(1, 7)));
    // no orthogonal square at all
    assert!(moves.iter().all(|m| m.x != 4 && m.y != 4));
}

#[test]
fn queen_spans_both_ray_sets() {
    let mut b = blank();
    put(&mut b, 0, 0, PieceColour::White, PieceType::Queen);
    let moves = generate_moves(&b, sq(0, 0)).unwrap();
    // 7 squares east, 7 north, 7 along the diagonal
    assert_eq!(moves.len(), 21);
    assert!(moves.contains(&sq(7, 0)));
    assert!(moves.contains(&sq(0, 7)));
    assert!(moves.contains(&sq(7, 7)));
}

#[test]
fn king_single_step() {
    let mut b = blank();
    put(&mut b, 4, 4, PieceColour::White, PieceType::King);
    let moves = generate_moves(&b, sq(4, 4)).unwrap();
    assert_eq!(moves.len(), 8);
    assert!(moves.contains(&sq(5, 4)));
    assert!(moves.contains(&sq(3, 3)));
    assert!(!moves.contains(&sq(6, 4)));
}

#[test]
fn king_corner_and_blockers() {
    let mut b = blank();
    put(&mut b, 0, 0, PieceColour::Black, PieceType::King);
    put(&mut b, 0, 1, PieceColour::Black, PieceType::Pawn);
    put(&mut b, 1, 1, PieceColour::White, PieceType::Pawn);
    let moves = generate_moves(&b, sq(0, 0)).unwrap();
    // own pawn excluded, enemy pawn captured, board edge respected
    assert_eq!(moves, vec![sq(1, 0), sq(1, 1)]);
}

#[test]
fn knight_jumps_ignore_occupancy() {
    // a knight ringed by pieces on every adjacent square still reaches
    // all 8 jump targets
    let mut b = blank();
    put(&mut b, 3, 3, PieceColour::White, PieceType::Knight);
    for dx in 0..3 {
        for dy in 0..3 {
            if dx == 1 && dy == 1 {
                continue;
            }
            put(&mut b, 2 + dx, 2 + dy, PieceColour::White, PieceType::Pawn);
        }
    }
    let moves = generate_moves(&b, sq(3, 3)).unwrap();
    assert_eq!(moves.len(), 8);
    for m in [sq(5, 4), sq(5, 2), sq(4, 5), sq(4, 1), sq(1, 4), sq(1, 2), sq(2, 5), sq(2, 1)] {
        assert!(moves.contains(&m));
    }
}

#[test]
fn knight_respects_bounds_and_own_pieces() {
    let mut b = blank();
    put(&mut b, 0, 0, PieceColour::White, PieceType::Knight);
    put(&mut b, 2, 1, PieceColour::White, PieceType::Pawn);
    put(&mut b, 1, 2, PieceColour::Black, PieceType::Pawn);
    let moves = generate_moves(&b, sq(0, 0)).unwrap();
    // (2,1) is a same-side block, (1,2) a capture, the rest off board
    assert_eq!(moves, vec![sq(1, 2)]);
}

#[test]
fn pawn_single_step_blocked() {
    let mut b = blank();
    put(&mut b, 4, 1, PieceColour::White, PieceType::Pawn);
    put(&mut b, 4, 2, PieceColour::Black, PieceType::Rook);
    let moves = generate_moves(&b, sq(4, 1)).unwrap();
    // the blocker also rules out the double advance
    assert_eq!(moves, Vec::<Square>::new());
}

#[test]
fn pawn_diagonals_are_capture_only() {
    let mut b = blank();
    put(&mut b, 4, 1, PieceColour::White, PieceType::Pawn);
    put(&mut b, 5, 2, PieceColour::Black, PieceType::Knight);
    put(&mut b, 3, 2, PieceColour::White, PieceType::Knight);
    let moves = generate_moves(&b, sq(4, 1)).unwrap();
    // forward, the enemy diagonal, the double advance; never the
    // same-side diagonal
    assert_eq!(moves, vec![sq(4, 2), sq(5, 2), sq(4, 3)]);
}

#[test]
fn pawn_double_needs_both_squares_empty() {
    let mut b = blank();
    put(&mut b, 4, 1, PieceColour::White, PieceType::Pawn);
    put(&mut b, 4, 3, PieceColour::Black, PieceType::Rook);
    let moves = generate_moves(&b, sq(4, 1)).unwrap();
    assert_eq!(moves, vec![sq(4, 2)]);
}

#[test]
fn pawn_double_only_from_start_rank() {
    let mut b = blank();
    put(&mut b, 4, 2, PieceColour::White, PieceType::Pawn);
    let moves = generate_moves(&b, sq(4, 2)).unwrap();
    assert_eq!(moves, vec![sq(4, 3)]);
}

#[test]
fn black_pawn_advances_toward_lower_ranks() {
    let mut b = blank();
    put(&mut b, 2, 6, PieceColour::Black, PieceType::Pawn);
    put(&mut b, 1, 5, PieceColour::White, PieceType::Bishop);
    let moves = generate_moves(&b, sq(2, 6)).unwrap();
    assert_eq!(moves, vec![sq(2, 5), sq(1, 5), sq(2, 4)]);
}

#[test]
fn black_pawn_at_edge_of_board() {
    let mut b = blank();
    put(&mut b, 0, 0, PieceColour::Black, PieceType::Pawn);
    let moves = generate_moves(&b, sq(0, 0)).unwrap();
    assert_eq!(moves, Vec::<Square>::new());
}

#[test]
fn valid_tiles_matches_generate_moves() {
    let b = ArrayBoard::new();
    let piece = b.board[1][0].unwrap();
    let direct = valid_tiles(1, 0, &piece, &b);
    let through_api = generate_moves(&b, sq(1, 0)).unwrap();
    assert_eq!(direct, through_api);
    // a knight out of the starting position
    assert_eq!(direct, vec![sq(2, 2), sq(0, 2)]);
}

#[test]
fn generate_moves_rejects_out_of_bounds() {
    let b = ArrayBoard::new();
    assert_eq!(generate_moves(&b, sq(8, 0)), Err(ErrorKind::OutOfBounds));
    assert_eq!(generate_moves(&b, sq(0, 11)), Err(ErrorKind::OutOfBounds));
}

#[test]
fn generate_moves_rejects_empty_square() {
    let b = ArrayBoard::new();
    assert_eq!(generate_moves(&b, sq(4, 4)), Err(ErrorKind::EmptySource));
}

#[test]
fn moves_stay_on_board_and_off_own_pieces() {
    // sweep the whole starting position: no generated destination is
    // off the board or on a same-side piece
    let b = ArrayBoard::new();
    for x in 0..8 {
        for y in 0..8 {
            let piece = match b.board[x][y] {
                Some(p) => p,
                None => continue,
            };
            let moves = generate_moves(&b, sq(x, y)).unwrap();
            for m in &moves {
                assert!(m.x < 8 && m.y < 8);
                if let Some(q) = b.board[m.x][m.y] {
                    assert!(q.colour != piece.colour);
                }
            }
        }
    }
}

