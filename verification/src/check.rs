//! Check detection and the check filter: king location, attack scans,
//! the one-ply lookahead that keeps a king out of capture, and move
//! commitment with turn alternation and check recomputation.

use vstd::prelude::*;
use crate::pieces::{Piece, PieceColour, PieceType, Square, ErrorKind, in_bounds};
use crate::board::{ArrayBoard, Grid, occ, moved_grid};
use crate::moves::{pseudo_dest, valid_tiles};

verus! {

/// A king of colour `c` stands on `(x, y)`.
pub open spec fn is_king_at(g: Grid, c: PieceColour, x: int, y: int) -> bool {
    occ(g, x, y) == Some(Piece { colour: c, piece_type: PieceType::King })
}

/// The board holds at least one king of colour `c`.
pub open spec fn has_king(g: Grid, c: PieceColour) -> bool {
    exists|x: int, y: int| #[trigger] is_king_at(g, c, x, y)
}

/// The board holds at most one king of colour `c`.  The engine assumes
/// one king per side; check logic is meaningful only then.
pub open spec fn at_most_one_king(g: Grid, c: PieceColour) -> bool {
    forall|x1: int, y1: int, x2: int, y2: int|
        #[trigger] is_king_at(g, c, x1, y1) && #[trigger] is_king_at(g, c, x2, y2) ==> x1 == x2
            && y1 == y2
}

/// The square the (unique) king of colour `c` stands on.
pub open spec fn king_square(g: Grid, c: PieceColour) -> (int, int) {
    choose|xy: (int, int)| is_king_at(g, c, xy.0, xy.1)
}

/// The piece on `(ax, ay)` belongs to `c` and pseudo-legally reaches
/// `(tx, ty)`.
pub open spec fn attacker_at(g: Grid, c: PieceColour, ax: int, ay: int, tx: int, ty: int) -> bool {
    match occ(g, ax, ay) {
        Some(p) => p.colour == c && pseudo_dest(g, p, ax, ay, tx, ty),
        None => false,
    }
}

/// Some piece of colour `c` pseudo-legally reaches `(tx, ty)`.
pub open spec fn square_attacked_by(g: Grid, c: PieceColour, tx: int, ty: int) -> bool {
    exists|ax: int, ay: int| #[trigger] attacker_at(g, c, ax, ay, tx, ty)
}

/// The file of the mover's king once the move lands: the destination
/// file when the moved piece is itself the king, else the king's
/// pre-move file.
pub open spec fn king_after_x(piece: Piece, kx: int, tx: int) -> int {
    if piece.piece_type == PieceType::King {
        tx
    } else {
        kx
    }
}

/// The rank of the mover's king once the move lands.
pub open spec fn king_after_y(piece: Piece, ky: int, ty: int) -> int {
    if piece.piece_type == PieceType::King {
        ty
    } else {
        ky
    }
}

/// `(tx, ty)` is a destination for `piece` (standing on `(sx, sy)`,
/// with its king on `(kx, ky)`) that survives the check filter: it is
/// pseudo-legal, and on the board that results from playing it, the
/// mover's king — on the destination itself if the moved piece is the
/// king — is not reachable by any opposing piece.
pub open spec fn safe_dest(
    g: Grid,
    piece: Piece,
    sx: int,
    sy: int,
    kx: int,
    ky: int,
    tx: int,
    ty: int,
) -> bool {
    let m = moved_grid(g, sx, sy, tx, ty);
    pseudo_dest(g, piece, sx, sy, tx, ty) && !square_attacked_by(
        m,
        piece.colour.opposite_spec(),
        king_after_x(piece, kx, tx),
        king_after_y(piece, ky, ty),
    )
}

/// Whether the destination list holds the given square.
fn contains_square(v: &Vec<Square>, t: Square) -> (r: bool)
    ensures
        r == v@.contains(t),
{
    let mut i: usize = 0;
    while i < v.len()
        invariant
            i <= v@.len(),
            forall|j: int| 0 <= j < i ==> v@[j] != t,
        decreases v@.len() - i,
    {
        if v[i].x == t.x && v[i].y == t.y {
            return true;
        }
        i += 1;
    }
    false
}

/// The first square in file-major scan order holding a king of
/// `colour`, or `None` when the board has no such king.
pub fn find_king(array_board: &ArrayBoard, colour: PieceColour) -> (r: Option<Square>)
    requires
        array_board.wf(),
    ensures
        r matches Some(t) ==> t.x < 8 && t.y < 8 && is_king_at(
            array_board.grid(),
            colour,
            t.x as int,
            t.y as int,
        ) && forall|ax: int, ay: int|
            0 <= ax < 8 && 0 <= ay < 8 && (ax < t.x as int || (ax == t.x as int && ay < t.y as int))
                ==> !is_king_at(array_board.grid(), colour, ax, ay),
        r is None ==> !has_king(array_board.grid(), colour),
{
    let ghost g = array_board.grid();
    let mut x: usize = 0;
    while x < 8
        invariant
            array_board.wf(),
            g == array_board.grid(),
            x <= 8,
            forall|ax: int, ay: int| 0 <= ax < x && 0 <= ay < 8 ==> !is_king_at(g, colour, ax, ay),
        decreases 8 - x,
    {
        let mut y: usize = 0;
        while y < 8
            invariant
                array_board.wf(),
                g == array_board.grid(),
                x < 8,
                y <= 8,
                forall|ax: int, ay: int|
                    0 <= ax < x && 0 <= ay < 8 ==> !is_king_at(g, colour, ax, ay),
                forall|ay: int| 0 <= ay < y ==> !is_king_at(g, colour, x as int, ay),
            decreases 8 - y,
        {
            match array_board.cell(x, y) {
                Some(p) => {
                    if !p.colour.is_different(&colour) && p.piece_type.is_king() {
                        return Some(Square { x, y });
                    }
                },
                None => {},
            }
            y += 1;
        }
        x += 1;
    }
    proof {
        assert forall|ax: int, ay: int| !is_king_at(g, colour, ax, ay) by {
            if in_bounds(ax, ay) {
            }
        }
    }
    None
}

/// Whether any piece of colour `c` pseudo-legally reaches `target`,
/// by scanning the whole board and generating each candidate's moves.
fn any_piece_attacks(array_board: &ArrayBoard, c: PieceColour, target: Square) -> (r: bool)
    requires
        array_board.wf(),
        target.x < 8,
        target.y < 8,
    ensures
        r == square_attacked_by(array_board.grid(), c, target.x as int, target.y as int),
{
    let ghost g = array_board.grid();
    let ghost tx = target.x as int;
    let ghost ty = target.y as int;
    let mut x: usize = 0;
    while x < 8
        invariant
            array_board.wf(),
            g == array_board.grid(),
            target.x < 8,
            target.y < 8,
            tx == target.x as int,
            ty == target.y as int,
            x <= 8,
            forall|ax: int, ay: int|
                0 <= ax < x && 0 <= ay < 8 ==> !#[trigger] attacker_at(g, c, ax, ay, tx, ty),
        decreases 8 - x,
    {
        let mut y: usize = 0;
        while y < 8
            invariant
                array_board.wf(),
                g == array_board.grid(),
                target.x < 8,
                target.y < 8,
                tx == target.x as int,
                ty == target.y as int,
                x < 8,
                y <= 8,
                forall|ax: int, ay: int|
                    0 <= ax < x && 0 <= ay < 8 ==> !#[trigger] attacker_at(g, c, ax, ay, tx, ty),
                forall|ay: int| 0 <= ay < y ==> !#[trigger] attacker_at(g, c, x as int, ay, tx, ty),
            decreases 8 - y,
        {
            match array_board.cell(x, y) {
                Some(p) => {
                    if !p.colour.is_different(&c) {
                        let reachable = valid_tiles(x, y, &p, array_board);
                        if contains_square(&reachable, target) {
                            proof {
                                assert(attacker_at(g, c, x as int, y as int, tx, ty));
                            }
                            return true;
                        }
                    }
                },
                None => {},
            }
            y += 1;
        }
        x += 1;
    }
    proof {
        assert forall|ax: int, ay: int| !attacker_at(g, c, ax, ay, tx, ty) by {
            if in_bounds(ax, ay) {
            }
        }
    }
    false
}


/// Restricts the pseudo-legal destinations of the piece on
/// `(x_curr, y_curr)` — whose side the board flags as in check — to
/// those after which its king cannot be captured: each candidate is
/// played on a cloned board and every opposing piece's moves are
/// generated against the clone; a candidate survives only if none of
/// them reaches the king's square.
pub fn in_check_valid_tiles(
    x_curr: usize,
    y_curr: usize,
    piece: &Piece,
    array_board: &ArrayBoard,
) -> (r: Vec<Square>)
    requires
        array_board.wf(),
        x_curr < 8,
        y_curr < 8,
        occ(array_board.grid(), x_curr as int, y_curr as int) == Some(*piece),
        array_board.in_check == Some(piece.colour),
        has_king(array_board.grid(), piece.colour),
        at_most_one_king(array_board.grid(), piece.colour),
    ensures
        r@.no_duplicates(),
        forall|t: Square|
            #[trigger] r@.contains(t) <==> safe_dest(
                array_board.grid(),
                *piece,
                x_curr as int,
                y_curr as int,
                king_square(array_board.grid(), piece.colour).0,
                king_square(array_board.grid(), piece.colour).1,
                t.x as int,
                t.y as int,
            ),
{
    let ghost g = array_board.grid();
    let ghost sx = x_curr as int;
    let ghost sy = y_curr as int;
    let ghost c = piece.colour;
    let king_tile = find_king(array_board, piece.colour).unwrap();
    proof {
        let w = (king_tile.x as int, king_tile.y as int);
        assert(is_king_at(g, c, w.0, w.1));
        assert(is_king_at(g, c, king_square(g, c).0, king_square(g, c).1));
        assert(king_square(g, c) == w);
    }
    let ghost kx = king_square(g, c).0;
    let ghost ky = king_square(g, c).1;
    let candidates = valid_tiles(x_curr, y_curr, piece, array_board);
    let mut to_return: Vec<Square> = Vec::new();
    let mut idx: usize = 0;
    while idx < candidates.len()
        invariant
            array_board.wf(),
            x_curr < 8,
            y_curr < 8,
            g == array_board.grid(),
            sx == x_curr as int,
            sy == y_curr as int,
            c == piece.colour,
            occ(g, sx, sy) == Some(*piece),
            kx == king_square(g, c).0,
            ky == king_square(g, c).1,
            king_tile.x as int == kx,
            king_tile.y as int == ky,
            king_tile.x < 8,
            king_tile.y < 8,
            idx <= candidates@.len(),
            candidates@.no_duplicates(),
            to_return@.no_duplicates(),
            forall|t: Square|
                #[trigger] candidates@.contains(t) <==> pseudo_dest(
                    g,
                    *piece,
                    sx,
                    sy,
                    t.x as int,
                    t.y as int,
                ),
            forall|t2: Square|
                #[trigger] to_return@.contains(t2) <==> candidates@.take(idx as int).contains(t2)
                    && safe_dest(g, *piece, sx, sy, kx, ky, t2.x as int, t2.y as int),
        decreases candidates@.len() - idx,
    {
        let t = candidates[idx];
        proof {
            assert(candidates@.contains(t));
            crate::moves::lemma_pseudo_dest_sound(g, *piece, sx, sy, t.x as int, t.y as int);
        }
        let mut temp_board = array_board.clone();
        let _ = temp_board.move_piece(Square { x: x_curr, y: y_curr }, t);
        let king_new = if piece.piece_type.is_king() {
            t
        } else {
            king_tile
        };
        let can_take_king = any_piece_attacks(&temp_board, piece.colour.opposite(), king_new);
        let ghost pre = to_return@;
        if !can_take_king {
            proof {
                // the candidate list is duplicate-free, so this entry is
                // not yet in the filtered prefix
                assert(!pre.contains(t)) by {
                    if pre.contains(t) {
                        assert(candidates@.take(idx as int).contains(t));
                        let j = choose|j: int|
                            0 <= j < candidates@.take(idx as int).len()
                                && candidates@.take(idx as int)[j] == t;
                        assert(candidates@[j] == candidates@[idx as int]);
                    }
                }
            }
            to_return.push(t);
            proof {
                crate::moves::lemma_push_no_dup(pre, t);
            }
        }
        proof {
            assert(candidates@.take(idx as int + 1) =~= candidates@.take(idx as int).push(t));
            assert forall|t2: Square|
                #[trigger] to_return@.contains(t2) <==> candidates@.take(idx as int + 1).contains(
                    t2,
                ) && safe_dest(g, *piece, sx, sy, kx, ky, t2.x as int, t2.y as int) by {
                vstd::seq_lib::lemma_seq_contains_after_push(
                    candidates@.take(idx as int),
                    t,
                    t2,
                );
                if to_return@ != pre {
                    vstd::seq_lib::lemma_seq_contains_after_push(pre, t, t2);
                }
            }
        }
        idx += 1;
    }
    proof {
        assert(candidates@.take(candidates@.len() as int) =~= candidates@);
        assert forall|t: Square|
            #[trigger] to_return@.contains(t) <==> safe_dest(
                g,
                *piece,
                sx,
                sy,
                kx,
                ky,
                t.x as int,
                t.y as int,
            ) by {
            if safe_dest(g, *piece, sx, sy, kx, ky, t.x as int, t.y as int) {
                assert(candidates@.contains(t));
            }
        }
    }
    to_return
}

/// The check-filtered destination set for the piece on `source`, used
/// in place of plain move generation whenever the board flags that
/// piece's side as in check.  An off-board source is rejected as
/// `OutOfBounds`, an empty one as `EmptySource`, and a board with no
/// king of the checked side as `KingNotFound`.
pub fn generate_moves_under_check(array_board: &ArrayBoard, source: Square) -> (r: Result<
    Vec<Square>,
    ErrorKind,
>)
    requires
        array_board.wf(),
        array_board.in_check is Some,
        at_most_one_king(array_board.grid(), array_board.in_check.unwrap()),
        in_bounds(source.x as int, source.y as int) && occ(
            array_board.grid(),
            source.x as int,
            source.y as int,
        ) is Some ==> occ(
            array_board.grid(),
            source.x as int,
            source.y as int,
        ).unwrap().colour == array_board.in_check.unwrap(),
    ensures
        !in_bounds(source.x as int, source.y as int) <==> r == Err::<Vec<Square>, ErrorKind>(
            ErrorKind::OutOfBounds,
        ),
        in_bounds(source.x as int, source.y as int) && occ(
            array_board.grid(),
            source.x as int,
            source.y as int,
        ) is None <==> r == Err::<Vec<Square>, ErrorKind>(ErrorKind::EmptySource),
        in_bounds(source.x as int, source.y as int) && occ(
            array_board.grid(),
            source.x as int,
            source.y as int,
        ) is Some && !has_king(array_board.grid(), array_board.in_check.unwrap()) <==> r == Err::<
            Vec<Square>,
            ErrorKind,
        >(ErrorKind::KingNotFound),
        in_bounds(source.x as int, source.y as int) && occ(
            array_board.grid(),
            source.x as int,
            source.y as int,
        ) is Some && has_king(array_board.grid(), array_board.in_check.unwrap()) ==> r is Ok
            && r->Ok_0@.no_duplicates() && forall|t: Square|
            #[trigger] r->Ok_0@.contains(t) <==> safe_dest(
                array_board.grid(),
                occ(array_board.grid(), source.x as int, source.y as int).unwrap(),
                source.x as int,
                source.y as int,
                king_square(array_board.grid(), array_board.in_check.unwrap()).0,
                king_square(array_board.grid(), array_board.in_check.unwrap()).1,
                t.x as int,
                t.y as int,
            ),
{
    if source.x >= 8 || source.y >= 8 {
        return Err(ErrorKind::OutOfBounds);
    }
    match array_board.cell(source.x, source.y) {
        None => Err(ErrorKind::EmptySource),
        Some(piece) => {
            match find_king(array_board, piece.colour) {
                None => Err(ErrorKind::KingNotFound),
                Some(_) => {
                    proof {
                        assert(has_king(array_board.grid(), piece.colour));
                    }
                    Ok(in_check_valid_tiles(source.x, source.y, &piece, array_board))
                },
            }
        },
    }
}

/// Whether some king of `king_colour` stands on a square that a piece
/// of `attacker_colour` pseudo-legally reaches.
fn any_king_attacked(
    array_board: &ArrayBoard,
    king_colour: PieceColour,
    attacker_colour: PieceColour,
) -> (r: bool)
    requires
        array_board.wf(),
    ensures
        r == exists|x: int, y: int|
            #[trigger] is_king_at(array_board.grid(), king_colour, x, y) && square_attacked_by(
                array_board.grid(),
                attacker_colour,
                x,
                y,
            ),
{
    let ghost g = array_board.grid();
    let mut x: usize = 0;
    while x < 8
        invariant
            array_board.wf(),
            g == array_board.grid(),
            x <= 8,
            forall|ax: int, ay: int|
                0 <= ax < x && 0 <= ay < 8 ==> !(#[trigger] is_king_at(g, king_colour, ax, ay)
                    && square_attacked_by(g, attacker_colour, ax, ay)),
        decreases 8 - x,
    {
        let mut y: usize = 0;
        while y < 8
            invariant
                array_board.wf(),
                g == array_board.grid(),
                x < 8,
                y <= 8,
                forall|ax: int, ay: int|
                    0 <= ax < x && 0 <= ay < 8 ==> !(#[trigger] is_king_at(g, king_colour, ax, ay)
                        && square_attacked_by(g, attacker_colour, ax, ay)),
                forall|ay: int|
                    0 <= ay < y ==> !(#[trigger] is_king_at(g, king_colour, x as int, ay)
                        && square_attacked_by(g, attacker_colour, x as int, ay)),
            decreases 8 - y,
        {
            match array_board.cell(x, y) {
                Some(p) => {
                    if !p.colour.is_different(&king_colour) && p.piece_type.is_king() {
                        if any_piece_attacks(array_board, attacker_colour, Square { x, y }) {
                            proof {
                                assert(is_king_at(g, king_colour, x as int, y as int)
                                    && square_attacked_by(g, attacker_colour, x as int, y as int));
                            }
                            return true;
                        }
                    }
                },
                None => {},
            }
            y += 1;
        }
        x += 1;
    }
    proof {
        assert forall|ax: int, ay: int|
            !(is_king_at(g, king_colour, ax, ay) && square_attacked_by(
                g,
                attacker_colour,
                ax,
                ay,
            )) by {
            if in_bounds(ax, ay) {
            }
        }
    }
    false
}

/// The check flag a committed move leaves behind: the side that just
/// moved may have put the new side to move in check, and only that is
/// recorded — the flag is recomputed fresh and never left stale.
pub open spec fn check_flag_after(m: Grid, mover: PieceColour) -> Option<PieceColour> {
    if exists|x: int, y: int|
        #[trigger] is_king_at(m, mover.opposite_spec(), x, y) && square_attacked_by(m, mover, x, y) {
        Some(mover.opposite_spec())
    } else {
        None
    }
}

/// Commits a move: plays it with `move_piece`, flips the turn, and
/// recomputes the check flag by asking whether the side that just
/// moved now reaches the new side-to-move's king.  Legality of the
/// move is the caller's business, established beforehand through move
/// generation; an off-board coordinate or an empty source is rejected
/// and the board left untouched.
pub fn commit_move(array_board: &mut ArrayBoard, from: Square, to: Square) -> (r: Result<
    (),
    ErrorKind,
>)
    requires
        old(array_board).wf(),
    ensures
        final(array_board).wf(),
        !(in_bounds(from.x as int, from.y as int) && in_bounds(to.x as int, to.y as int)) ==> r
            == Err::<(), ErrorKind>(ErrorKind::OutOfBounds) && *final(array_board) == *old(
            array_board,
        ),
        in_bounds(from.x as int, from.y as int) && in_bounds(to.x as int, to.y as int) && occ(
            old(array_board).grid(),
            from.x as int,
            from.y as int,
        ) is None ==> r == Err::<(), ErrorKind>(ErrorKind::EmptySource) && *final(array_board)
            == *old(array_board),
        in_bounds(from.x as int, from.y as int) && in_bounds(to.x as int, to.y as int) && occ(
            old(array_board).grid(),
            from.x as int,
            from.y as int,
        ) is Some ==> r == Ok::<(), ErrorKind>(()) && final(array_board).grid() == moved_grid(
            old(array_board).grid(),
            from.x as int,
            from.y as int,
            to.x as int,
            to.y as int,
        ) && final(array_board).turn == old(array_board).turn.opposite_spec()
            && final(array_board).in_check == check_flag_after(
            final(array_board).grid(),
            old(array_board).turn,
        ),
{
    if from.x >= 8 || from.y >= 8 || to.x >= 8 || to.y >= 8 {
        return Err(ErrorKind::OutOfBounds);
    }
    if array_board.cell(from.x, from.y).is_none() {
        return Err(ErrorKind::EmptySource);
    }
    let _ = array_board.move_piece(from, to);
    array_board.swap_turn();
    let mover = array_board.turn.opposite();
    let opponent = array_board.turn;
    proof {
        assert(mover == old(array_board).turn);
        assert(opponent == mover.opposite_spec());
    }
    if any_king_attacked(array_board, opponent, mover) {
        array_board.in_check = Some(opponent);
    } else {
        array_board.in_check = None;
    }
    proof {
        assert(array_board.grid() == moved_grid(
            old(array_board).grid(),
            from.x as int,
            from.y as int,
            to.x as int,
            to.y as int,
        ));
        assert(array_board.in_check == check_flag_after(array_board.grid(), mover));
    }
    Ok(())
}


/// The piece of colour `c` on `(sx, sy)` has `(tx, ty)` as a
/// destination surviving the check filter, against a king on
/// `(kx, ky)`.
pub open spec fn piece_safe_move(
    g: Grid,
    c: PieceColour,
    kx: int,
    ky: int,
    sx: int,
    sy: int,
    tx: int,
    ty: int,
) -> bool {
    match occ(g, sx, sy) {
        Some(p) => p.colour == c && safe_dest(g, p, sx, sy, kx, ky, tx, ty),
        None => false,
    }
}

/// Some piece of colour `c` still has a move surviving the check
/// filter.
pub open spec fn side_has_safe_move(g: Grid, c: PieceColour, kx: int, ky: int) -> bool {
    exists|sx: int, sy: int, tx: int, ty: int|
        #[trigger] piece_safe_move(g, c, kx, ky, sx, sy, tx, ty)
}

/// Whether the side flagged in check is mated: the union of the
/// check-filtered move sets across all of its pieces is empty.  This
/// is a queryable emergent condition; the engine mandates no action on
/// it.  A board with no king of the checked side is rejected as
/// `KingNotFound`.
pub fn is_checkmate(array_board: &ArrayBoard) -> (r: Result<bool, ErrorKind>)
    requires
        array_board.wf(),
        array_board.in_check is Some,
        at_most_one_king(array_board.grid(), array_board.in_check.unwrap()),
    ensures
        !has_king(array_board.grid(), array_board.in_check.unwrap()) <==> r == Err::<
            bool,
            ErrorKind,
        >(ErrorKind::KingNotFound),
        has_king(array_board.grid(), array_board.in_check.unwrap()) ==> r == Ok::<bool, ErrorKind>(
            !side_has_safe_move(
                array_board.grid(),
                array_board.in_check.unwrap(),
                king_square(array_board.grid(), array_board.in_check.unwrap()).0,
                king_square(array_board.grid(), array_board.in_check.unwrap()).1,
            ),
        ),
{
    let ghost g = array_board.grid();
    let s_colour = array_board.in_check.unwrap();
    let ghost c = s_colour;
    let king_tile = match find_king(array_board, s_colour) {
        None => {
            return Err(ErrorKind::KingNotFound);
        },
        Some(t) => t,
    };
    proof {
        let w = (king_tile.x as int, king_tile.y as int);
        assert(is_king_at(g, c, w.0, w.1));
        assert(is_king_at(g, c, king_square(g, c).0, king_square(g, c).1));
        assert(king_square(g, c) == w);
    }
    let ghost kx = king_square(g, c).0;
    let ghost ky = king_square(g, c).1;
    let mut x: usize = 0;
    while x < 8
        invariant
            array_board.wf(),
            g == array_board.grid(),
            array_board.in_check == Some(c),
            c == s_colour,
            has_king(g, c),
            at_most_one_king(g, c),
            kx == king_square(g, c).0,
            ky == king_square(g, c).1,
            x <= 8,
            forall|ax: int, ay: int, tx: int, ty: int|
                0 <= ax < x && 0 <= ay < 8 ==> !#[trigger] piece_safe_move(
                    g,
                    c,
                    kx,
                    ky,
                    ax,
                    ay,
                    tx,
                    ty,
                ),
        decreases 8 - x,
    {
        let mut y: usize = 0;
        while y < 8
            invariant
                array_board.wf(),
                g == array_board.grid(),
                array_board.in_check == Some(c),
                c == s_colour,
                has_king(g, c),
                at_most_one_king(g, c),
                kx == king_square(g, c).0,
                ky == king_square(g, c).1,
                x < 8,
                y <= 8,
                forall|ax: int, ay: int, tx: int, ty: int|
                    0 <= ax < x && 0 <= ay < 8 ==> !#[trigger] piece_safe_move(
                        g,
                        c,
                        kx,
                        ky,
                        ax,
                        ay,
                        tx,
                        ty,
                    ),
                forall|ay: int, tx: int, ty: int|
                    0 <= ay < y ==> !#[trigger] piece_safe_move(g, c, kx, ky, x as int, ay, tx, ty),
            decreases 8 - y,
        {
            match array_board.cell(x, y) {
                Some(p) => {
                    if !p.colour.is_different(&s_colour) {
                        let escapes = in_check_valid_tiles(x, y, &p, array_board);
                        if escapes.len() > 0 {
                            let t = escapes[0];
                            proof {
                                assert(escapes@.contains(t));
                                assert(piece_safe_move(
                                    g,
                                    c,
                                    kx,
                                    ky,
                                    x as int,
                                    y as int,
                                    t.x as int,
                                    t.y as int,
                                ));
                            }
                            return Ok(false);
                        }
                        proof {
                            assert forall|tx: int, ty: int|
                                !piece_safe_move(g, c, kx, ky, x as int, y as int, tx, ty) by {
                                if piece_safe_move(g, c, kx, ky, x as int, y as int, tx, ty) {
                                    crate::moves::lemma_pseudo_dest_sound(
                                        g,
                                        p,
                                        x as int,
                                        y as int,
                                        tx,
                                        ty,
                                    );
                                    let t2 = Square { x: tx as usize, y: ty as usize };
                                    assert(!escapes@.contains(t2));
                                }
                            }
                        }
                    } else {
                        proof {
                            assert forall|tx: int, ty: int|
                                !piece_safe_move(g, c, kx, ky, x as int, y as int, tx, ty) by {}
                        }
                    }
                },
                None => {
                    proof {
                        assert forall|tx: int, ty: int|
                            !piece_safe_move(g, c, kx, ky, x as int, y as int, tx, ty) by {}
                    }
                },
            }
            y += 1;
        }
        x += 1;
    }
    proof {
        assert forall|sx: int, sy: int, tx: int, ty: int|
            !piece_safe_move(g, c, kx, ky, sx, sy, tx, ty) by {
            if in_bounds(sx, sy) {
            }
        }
    }
    Ok(true)
}

} // verus!
