use chess_engine::board::{ArrayBoard, setup_board};
use chess_engine::pieces::{ErrorKind, Piece, PieceColour, PieceType, Square};

fn empty_grid() -> Vec<Vec<Option<Piece>>> {
    let mut board: Vec<Vec<Option<Piece>>> = Vec::new();
    for _ in 0..8 {
        let mut file: Vec<Option<Piece>> = Vec::new();
        for _ in 0..8 {
            file.push(None);
        }
        board.push(file);
    }
    board
}

fn bare_board() -> ArrayBoard {
    ArrayBoard { turn: PieceColour::White, in_check: None, board: empty_grid() }
}

#[test]
fn piece_colour_is_white() {
    assert!(PieceColour::White.is_white());
    assert!(!PieceColour::Black.is_white());
}

#[test]
fn piece_colour_opposite() {
    assert_eq!(PieceColour::White.opposite(), PieceColour::Black);
    assert_eq!(PieceColour::Black.opposite(), PieceColour::White);
    assert_eq!(PieceColour::White.opposite().opposite(), PieceColour::White);
}

#[test]
fn piece_colour_is_different() {
    assert!(PieceColour::White.is_different(&PieceColour::Black));
    assert!(PieceColour::Black.is_different(&PieceColour::White));
    assert!(!PieceColour::White.is_different(&PieceColour::White));
    assert!(!PieceColour::Black.is_different(&PieceColour::Black));
}

#[test]
fn piece_type_is_king() {
    assert!(PieceType::King.is_king());
    assert!(!PieceType::Queen.is_king());
    assert!(!PieceType::Pawn.is_king());
}

#[test]
fn piece_new_holds_fields() {
    let p = Piece::new(PieceColour::Black, PieceType::Bishop);
    assert_eq!(p.colour, PieceColour::Black);
    assert_eq!(p.piece_type, PieceType::Bishop);
}

#[test]
fn starting_layout() {
    let b = setup_board();
    assert_eq!(b.turn, PieceColour::White);
    assert!(b.in_check.is_none());
    // back ranks
    let back = [
        PieceType::Rook,
        PieceType::Knight,
        PieceType::Bishop,
        PieceType::Queen,
        PieceType::King,
        PieceType::Bishop,
        PieceType::Knight,
        PieceType::Rook,
    ];
    for x in 0..8 {
        assert_eq!(b.board[x][0], Some(Piece::new(PieceColour::White, back[x])));
        assert_eq!(b.board[x][1], Some(Piece::new(PieceColour::White, PieceType::Pawn)));
        assert_eq!(b.board[x][6], Some(Piece::new(PieceColour::Black, PieceType::Pawn)));
        assert_eq!(b.board[x][7], Some(Piece::new(PieceColour::Black, back[x])));
        for y in 2..6 {
            assert!(b.board[x][y].is_none());
        }
    }
}

#[test]
fn new_and_default_agree() {
    let a = ArrayBoard::new();
    let d = ArrayBoard::default();
    assert_eq!(a.turn, d.turn);
    assert_eq!(a.in_check, d.in_check);
    for x in 0..8 {
        for y in 0..8 {
            assert_eq!(a.board[x][y], d.board[x][y]);
        }
    }
}

#[test]
fn swap_turn_alternates() {
    let mut b = ArrayBoard::new();
    assert_eq!(b.turn, PieceColour::White);
    b.swap_turn();
    assert_eq!(b.turn, PieceColour::Black);
    b.swap_turn();
    assert_eq!(b.turn, PieceColour::White);
}

#[test]
fn move_piece_moves_and_captures() {
    let mut b = bare_board();
    b.board[3][3] = Some(Piece::new(PieceColour::White, PieceType::Queen));
    b.board[3][6] = Some(Piece::new(PieceColour::Black, PieceType::Pawn));
    let r = b.move_piece(Square::new(3, 3), Square::new(3, 6));
    assert_eq!(r, Ok(()));
    assert!(b.board[3][3].is_none());
    assert_eq!(b.board[3][6], Some(Piece::new(PieceColour::White, PieceType::Queen)));
}

#[test]
fn move_piece_empty_source_is_reported() {
    let mut b = bare_board();
    let r = b.move_piece(Square::new(2, 2), Square::new(3, 3));
    assert_eq!(r, Err(ErrorKind::EmptySource));
    for x in 0..8 {
        for y in 0..8 {
            assert!(b.board[x][y].is_none());
        }
    }
}

#[test]
fn move_piece_out_of_bounds_is_reported() {
    let mut b = ArrayBoard::new();
    assert_eq!(b.move_piece(Square::new(8, 0), Square::new(0, 0)), Err(ErrorKind::OutOfBounds));
    assert_eq!(b.move_piece(Square::new(0, 0), Square::new(0, 9)), Err(ErrorKind::OutOfBounds));
    // the board is untouched
    assert_eq!(b.board[0][0], Some(Piece::new(PieceColour::White, PieceType::Rook)));
}

#[test]
fn clone_is_independent() {
    let original = ArrayBoard::new();
    let mut copy = original.clone();
    assert_eq!(copy.turn, original.turn);
    assert_eq!(copy.board[4][1], original.board[4][1]);
    let r = copy.move_piece(Square::new(4, 1), Square::new(4, 3));
    assert_eq!(r, Ok(()));
    // the speculative move shows only on the copy
    assert!(copy.board[4][1].is_none());
    assert_eq!(original.board[4][1], Some(Piece::new(PieceColour::White, PieceType::Pawn)));
    assert!(original.board[4][3].is_none());
}
