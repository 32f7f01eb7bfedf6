//! Pseudo-legal move generation: every square a piece could occupy
//! next, accounting for board edges, blocking pieces, and the
//! capture-vs-block distinction — but ignoring check.

use vstd::prelude::*;
use crate::pieces::{Piece, PieceColour, PieceType, Square, ErrorKind, in_bounds};
use crate::board::{ArrayBoard, Grid, occ};

verus! {

/// A unit direction vector: each axis in {-1, 0, 1}, not both zero.
pub open spec fn valid_dir(dx: int, dy: int) -> bool {
    -1 <= dx <= 1 && -1 <= dy <= 1 && !(dx == 0 && dy == 0)
}

/// A piece of colour `c` may come to rest on `(x, y)`: the square is on
/// the board and does not hold a same-side piece.
pub open spec fn can_land(g: Grid, c: PieceColour, x: int, y: int) -> bool {
    in_bounds(x, y) && match occ(g, x, y) {
        None => true,
        Some(p) => p.colour != c,
    }
}

/// The square at step `j` of the ray from `(sx, sy)` along `(dx, dy)`
/// is empty.
pub open spec fn ray_square_empty(g: Grid, sx: int, sy: int, dx: int, dy: int, j: int) -> bool {
    occ(g, sx + j * dx, sy + j * dy) is None
}

/// Every square strictly between the source and step `i` of the ray is
/// empty.
pub open spec fn ray_clear_through(g: Grid, sx: int, sy: int, dx: int, dy: int, i: int) -> bool {
    forall|j: int| 1 <= j < i ==> #[trigger] ray_square_empty(g, sx, sy, dx, dy, j)
}

/// `(tx, ty)` is a ray destination from `(sx, sy)` along `(dx, dy)`
/// within `k` steps: it lies on the ray, every square before it on the
/// ray is empty, and the piece may land there (empty square or capture).
pub open spec fn ray_dest(
    g: Grid,
    c: PieceColour,
    sx: int,
    sy: int,
    dx: int,
    dy: int,
    k: int,
    tx: int,
    ty: int,
) -> bool {
    exists|i: int|
        1 <= i <= k && tx == sx + i * dx && ty == sy + i * dy
            && #[trigger] ray_clear_through(g, sx, sy, dx, dy, i)
            && can_land(g, c, tx, ty)
}

/// The four orthogonal directions, in the canonical order.
pub open spec fn orthogonal_dirs() -> Seq<(int, int)> {
    seq![(1int, 0int), (-1int, 0int), (0int, 1int), (0int, -1int)]
}

/// The four diagonal directions, in the canonical order.
pub open spec fn diagonal_dirs() -> Seq<(int, int)> {
    seq![(1int, 1int), (1int, -1int), (-1int, 1int), (-1int, -1int)]
}

/// All eight directions: orthogonals first, then diagonals.
pub open spec fn all_dirs() -> Seq<(int, int)> {
    orthogonal_dirs() + diagonal_dirs()
}

/// `(tx, ty)` is a ray destination along one of the given directions.
pub open spec fn ray_piece_dest(
    g: Grid,
    c: PieceColour,
    sx: int,
    sy: int,
    dirs: Seq<(int, int)>,
    k: int,
    tx: int,
    ty: int,
) -> bool {
    exists|d: int|
        0 <= d < dirs.len() && #[trigger] ray_dest(g, c, sx, sy, dirs[d].0, dirs[d].1, k, tx, ty)
}

/// `(dx, dy)` is one of the eight knight jump offsets.
pub open spec fn knight_jump(dx: int, dy: int) -> bool {
    (dx == 2 && dy == 1) || (dx == 2 && dy == -1) || (dx == 1 && dy == 2) || (dx == 1 && dy == -2)
        || (dx == -2 && dy == 1) || (dx == -2 && dy == -1) || (dx == -1 && dy == 2) || (dx == -1
        && dy == -2)
}

/// A knight destination: a jump offset away and free to land on.
/// Occupancy of the squares in between plays no part.
pub open spec fn knight_dest(g: Grid, c: PieceColour, sx: int, sy: int, tx: int, ty: int) -> bool {
    knight_jump(tx - sx, ty - sy) && can_land(g, c, tx, ty)
}

/// The rank direction a pawn of colour `c` advances in.
pub open spec fn pawn_dir(c: PieceColour) -> int {
    if c == PieceColour::White {
        1
    } else {
        -1
    }
}

/// The rank a pawn of colour `c` starts on.
pub open spec fn pawn_start_rank(c: PieceColour) -> int {
    if c == PieceColour::White {
        1
    } else {
        6
    }
}

/// A pawn destination.  A single forward step must land on an empty
/// square; the two forward diagonals are capture-only; the double
/// advance is available only from the start rank with both the
/// intermediate and the final square empty.
pub open spec fn pawn_dest(g: Grid, c: PieceColour, sx: int, sy: int, tx: int, ty: int) -> bool {
    let d = pawn_dir(c);
    (tx == sx && ty == sy + d && in_bounds(tx, ty) && occ(g, tx, ty) is None)
        || ((tx == sx + 1 || tx == sx - 1) && ty == sy + d && in_bounds(tx, ty) && match occ(g, tx, ty) {
            Some(p) => p.colour != c,
            None => false,
        })
        || (sy == pawn_start_rank(c) && tx == sx && ty == sy + 2 * d && in_bounds(tx, ty)
            && occ(g, sx, sy + d) is None && occ(g, tx, ty) is None)
}

/// `(tx, ty)` is a pseudo-legal destination for `p` standing on
/// `(sx, sy)`: reachable by the piece's movement rule, ignoring whether
/// it leaves its own king attacked.
pub open spec fn pseudo_dest(g: Grid, p: Piece, sx: int, sy: int, tx: int, ty: int) -> bool {
    match p.piece_type {
        PieceType::King => ray_piece_dest(g, p.colour, sx, sy, all_dirs(), 1, tx, ty),
        PieceType::Queen => ray_piece_dest(g, p.colour, sx, sy, all_dirs(), 7, tx, ty),
        PieceType::Rook => ray_piece_dest(g, p.colour, sx, sy, orthogonal_dirs(), 7, tx, ty),
        PieceType::Bishop => ray_piece_dest(g, p.colour, sx, sy, diagonal_dirs(), 7, tx, ty),
        PieceType::Knight => knight_dest(g, p.colour, sx, sy, tx, ty),
        PieceType::Pawn => pawn_dest(g, p.colour, sx, sy, tx, ty),
    }
}

/// The integer view of a direction table.
pub open spec fn dirs_view(s: Seq<(i8, i8)>) -> Seq<(int, int)> {
    s.map_values(|d: (i8, i8)| (d.0 as int, d.1 as int))
}

/// Stepping along a straight ray cannot re-enter the board: once step
/// `s` has left it, every later step is off it too.
proof fn lemma_ray_leaves_board(sx: int, sy: int, dx: int, dy: int, s: int, i: int)
    requires
        valid_dir(dx, dy),
        in_bounds(sx, sy),
        1 <= s <= i,
        !in_bounds(sx + s * dx, sy + s * dy),
    ensures
        !in_bounds(sx + i * dx, sy + i * dy),
{
    assert((0 <= sx + i * dx < 8 && 0 <= sy + i * dy < 8) ==> (0 <= sx + s * dx < 8 && 0 <= sy + s
        * dy < 8)) by (nonlinear_arith)
        requires
            -1 <= dx <= 1,
            -1 <= dy <= 1,
            0 <= sx < 8,
            0 <= sy < 8,
            1 <= s <= i,
    ;
}


/// A ray destination within `k1` steps is one within any larger budget.
proof fn lemma_ray_dest_mono(
    g: Grid,
    c: PieceColour,
    sx: int,
    sy: int,
    dx: int,
    dy: int,
    k1: int,
    k2: int,
    tx: int,
    ty: int,
)
    requires
        ray_dest(g, c, sx, sy, dx, dy, k1, tx, ty),
        k1 <= k2,
    ensures
        ray_dest(g, c, sx, sy, dx, dy, k2, tx, ty),
{
    let ii = choose|ii: int|
        1 <= ii <= k1 && tx == sx + ii * dx && ty == sy + ii * dy && #[trigger] ray_clear_through(
            g,
            sx,
            sy,
            dx,
            dy,
            ii,
        ) && can_land(g, c, tx, ty);
    assert(1 <= ii <= k2 && tx == sx + ii * dx && ty == sy + ii * dy && ray_clear_through(
        g,
        sx,
        sy,
        dx,
        dy,
        ii,
    ) && can_land(g, c, tx, ty));
}

/// Two positive step counts along two distinct unit directions never
/// give the same offset: rays from one source meet only at the source.
pub(crate) proof fn lemma_distinct_dirs_distinct_squares(
    dx1: int,
    dy1: int,
    dx2: int,
    dy2: int,
    i1: int,
    i2: int,
)
    requires
        valid_dir(dx1, dy1),
        valid_dir(dx2, dy2),
        !(dx1 == dx2 && dy1 == dy2),
        1 <= i1,
        1 <= i2,
    ensures
        !(i1 * dx1 == i2 * dx2 && i1 * dy1 == i2 * dy2),
{
    assert(!(i1 * dx1 == i2 * dx2 && i1 * dy1 == i2 * dy2)) by (nonlinear_arith)
        requires
            -1 <= dx1 <= 1,
            -1 <= dy1 <= 1,
            !(dx1 == 0 && dy1 == 0),
            -1 <= dx2 <= 1,
            -1 <= dy2 <= 1,
            !(dx2 == 0 && dy2 == 0),
            !(dx1 == dx2 && dy1 == dy2),
            1 <= i1,
            1 <= i2,
    ;
}

/// Two distinct step counts along one ray land on distinct squares.
pub(crate) proof fn lemma_ray_step_unique(dx: int, dy: int, i: int, ii: int)
    requires
        valid_dir(dx, dy),
        ii * dx == i * dx,
        ii * dy == i * dy,
    ensures
        ii == i,
{
    assert(ii == i) by (nonlinear_arith)
        requires
            -1 <= dx <= 1,
            -1 <= dy <= 1,
            !(dx == 0 && dy == 0),
            ii * dx == i * dx,
            ii * dy == i * dy,
    ;
}

/// Appending a square not yet present keeps a list duplicate-free.
pub(crate) proof fn lemma_push_no_dup(s: Seq<Square>, v: Square)
    requires
        s.no_duplicates(),
        !s.contains(v),
    ensures
        s.push(v).no_duplicates(),
{
    let sp = s.push(v);
    assert forall|i: int, j: int|
        (0 <= i < sp.len() && 0 <= j < sp.len() && i != j) implies sp[i] != sp[j] by {
        if i < s.len() && j < s.len() {
        } else if i < s.len() {
            assert(s.contains(s[i]) && sp[j] == v);
        } else {
            assert(s.contains(s[j]) && sp[i] == v);
        }
    }
}

/// The ray-casting sub-algorithm shared by king, queen, rook and
/// bishop.  For each direction, walk outward one step at a time: stop
/// on leaving the board; on an occupied square, include it only as a
/// capture, then stop either way; on an empty square, include it and
/// continue.  Returns exactly the ray destinations over the given
/// direction table.
fn valid_moves_for_directions(
    x_curr: usize,
    y_curr: usize,
    directions: &Vec<(i8, i8)>,
    max_distance: usize,
    array_board: &ArrayBoard,
) -> (r: Vec<Square>)
    requires
        array_board.wf(),
        x_curr < 8,
        y_curr < 8,
        occ(array_board.grid(), x_curr as int, y_curr as int) is Some,
        1 <= max_distance <= 7,
        forall|d: int|
            0 <= d < directions@.len() ==> valid_dir(
                (#[trigger] directions@[d]).0 as int,
                directions@[d].1 as int,
            ),
        forall|e1: int, e2: int|
            0 <= e1 < e2 < directions@.len() ==> (#[trigger] directions@[e1]) != (
            #[trigger] directions@[e2]),
    ensures
        r@.no_duplicates(),
        forall|t: Square|
            #[trigger] r@.contains(t) <==> ray_piece_dest(
                array_board.grid(),
                occ(array_board.grid(), x_curr as int, y_curr as int).unwrap().colour,
                x_curr as int,
                y_curr as int,
                dirs_view(directions@),
                max_distance as int,
                t.x as int,
                t.y as int,
            ),
{
    let ghost g = array_board.grid();
    let ghost sx = x_curr as int;
    let ghost sy = y_curr as int;
    let ghost k = max_distance as int;
    let ghost dv = dirs_view(directions@);
    let curr_piece = array_board.cell(x_curr, y_curr).unwrap();
    let ghost c = curr_piece.colour;

    let mut to_return: Vec<Square> = Vec::new();
    let mut d: usize = 0;
    while d < directions.len()
        invariant
            array_board.wf(),
            x_curr < 8,
            y_curr < 8,
            1 <= max_distance <= 7,
            g == array_board.grid(),
            sx == x_curr as int,
            sy == y_curr as int,
            k == max_distance as int,
            dv == dirs_view(directions@),
            occ(g, sx, sy) is Some,
            curr_piece == occ(g, sx, sy).unwrap(),
            c == curr_piece.colour,
            d <= directions@.len(),
            forall|d2: int|
                0 <= d2 < directions@.len() ==> valid_dir(
                    (#[trigger] directions@[d2]).0 as int,
                    directions@[d2].1 as int,
                ),
            forall|e1: int, e2: int|
                0 <= e1 < e2 < directions@.len() ==> (#[trigger] directions@[e1]) != (
                #[trigger] directions@[e2]),
            to_return@.no_duplicates(),
            forall|t: Square|
                #[trigger] to_return@.contains(t) <==> ray_piece_dest(
                    g,
                    c,
                    sx,
                    sy,
                    dv.take(d as int),
                    k,
                    t.x as int,
                    t.y as int,
                ),
        decreases directions@.len() - d,
    {
        let (dx, dy) = directions[d];
        let ghost dxi = dx as int;
        let ghost dyi = dy as int;
        let mut cx: i16 = x_curr as i16;
        let mut cy: i16 = y_curr as i16;
        let mut i: usize = 0;
        let mut blocked = false;
        proof {
            assert forall|e: int| 0 <= e < d implies (#[trigger] dv[e]) != (dxi, dyi) by {
                assert(directions@[e] != directions@[d as int]);
                assert(dv[e].0 == directions@[e].0 as int && dv[e].1 == directions@[e].1 as int);
                assert(dv[d as int].0 == directions@[d as int].0 as int && dv[d as int].1
                    == directions@[d as int].1 as int);
            }
        }
        while i < max_distance && !blocked
            invariant
                array_board.wf(),
                x_curr < 8,
                y_curr < 8,
                1 <= max_distance <= 7,
                g == array_board.grid(),
                sx == x_curr as int,
                sy == y_curr as int,
                k == max_distance as int,
                dv == dirs_view(directions@),
                occ(g, sx, sy) is Some,
                curr_piece == occ(g, sx, sy).unwrap(),
                c == curr_piece.colour,
                d < directions@.len(),
                dx as int == dxi,
                dy as int == dyi,
                dv[d as int] == (dxi, dyi),
                valid_dir(dxi, dyi),
                forall|e: int|
                    0 <= e < directions@.len() ==> valid_dir(
                        (#[trigger] directions@[e]).0 as int,
                        directions@[e].1 as int,
                    ),
                forall|e: int| 0 <= e < d ==> (#[trigger] dv[e]) != (dxi, dyi),
                to_return@.no_duplicates(),
                i <= max_distance,
                cx as int == sx + i * dxi,
                cy as int == sy + i * dyi,
                !blocked ==> in_bounds(cx as int, cy as int),
                !blocked ==> ray_clear_through(g, sx, sy, dxi, dyi, i + 1),
                !blocked ==> forall|t: Square|
                    #[trigger] to_return@.contains(t) <==> ray_piece_dest(
                        g,
                        c,
                        sx,
                        sy,
                        dv.take(d as int),
                        k,
                        t.x as int,
                        t.y as int,
                    ) || ray_dest(g, c, sx, sy, dxi, dyi, i as int, t.x as int, t.y as int),
                blocked ==> forall|t: Square|
                    #[trigger] to_return@.contains(t) <==> ray_piece_dest(
                        g,
                        c,
                        sx,
                        sy,
                        dv.take(d as int),
                        k,
                        t.x as int,
                        t.y as int,
                    ) || ray_dest(g, c, sx, sy, dxi, dyi, k, t.x as int, t.y as int),
            decreases max_distance - i, (if blocked { 0int } else { 1int }),
        {
            let ghost s: int = i + 1;
            proof {
                assert(s * dxi == i * dxi + dxi) by (nonlinear_arith)
                    requires
                        s == i + 1,
                ;
                assert(s * dyi == i * dyi + dyi) by (nonlinear_arith)
                    requires
                        s == i + 1,
                ;
            }
            let nx: i16 = cx + (dx as i16);
            let ny: i16 = cy + (dy as i16);
            proof {
                assert(nx as int == sx + s * dxi);
                assert(ny as int == sy + s * dyi);
            }
            if nx < 0 || nx >= 8 || ny < 0 || ny >= 8 {
                blocked = true;
                proof {
                    // later steps cannot re-enter the board, so nothing
                    // beyond step i is a destination along this ray
                    assert forall|t: Square|
                        ray_dest(g, c, sx, sy, dxi, dyi, k, t.x as int, t.y as int) implies ray_dest(
                        g,
                        c,
                        sx,
                        sy,
                        dxi,
                        dyi,
                        i as int,
                        t.x as int,
                        t.y as int,
                    ) by {
                        let ii = choose|ii: int|
                            1 <= ii <= k && t.x as int == sx + ii * dxi && t.y as int == sy + ii
                                * dyi && #[trigger] ray_clear_through(g, sx, sy, dxi, dyi, ii)
                                && can_land(g, c, t.x as int, t.y as int);
                        if ii > i {
                            lemma_ray_leaves_board(sx, sy, dxi, dyi, s, ii);
                        }
                    }
                }
            } else {
                let nxu = nx as usize;
                let nyu = ny as usize;
                let ghost pre_ret = to_return@;
                let ghost sq = Square { x: nxu, y: nyu };
                proof {
                    // the square one more step out is new: prior entries
                    // come from other directions or earlier steps, and
                    // distinct rays or steps land on distinct squares
                    if pre_ret.contains(sq) {
                        let pre_dirs = dv.take(d as int);
                        if ray_piece_dest(g, c, sx, sy, pre_dirs, k, sq.x as int, sq.y as int) {
                            let e = choose|e: int|
                                0 <= e < pre_dirs.len() && #[trigger] ray_dest(
                                    g,
                                    c,
                                    sx,
                                    sy,
                                    pre_dirs[e].0,
                                    pre_dirs[e].1,
                                    k,
                                    sq.x as int,
                                    sq.y as int,
                                );
                            let dxe = pre_dirs[e].0;
                            let dye = pre_dirs[e].1;
                            assert(dv[e] == pre_dirs[e]);
                            assert(dv[e].0 == directions@[e].0 as int && dv[e].1 == directions@[e].1
                                as int);
                            let ii = choose|ii: int|
                                1 <= ii <= k && sq.x as int == sx + ii * dxe && sq.y as int == sy
                                    + ii * dye && #[trigger] ray_clear_through(
                                    g,
                                    sx,
                                    sy,
                                    dxe,
                                    dye,
                                    ii,
                                ) && can_land(g, c, sq.x as int, sq.y as int);
                            lemma_distinct_dirs_distinct_squares(dxe, dye, dxi, dyi, ii, s);
                        } else {
                            assert(ray_dest(g, c, sx, sy, dxi, dyi, i as int, sq.x as int, sq.y as int));
                            let ii = choose|ii: int|
                                1 <= ii <= i && sq.x as int == sx + ii * dxi && sq.y as int == sy
                                    + ii * dyi && #[trigger] ray_clear_through(
                                    g,
                                    sx,
                                    sy,
                                    dxi,
                                    dyi,
                                    ii,
                                ) && can_land(g, c, sq.x as int, sq.y as int);
                            lemma_ray_step_unique(dxi, dyi, s, ii);
                        }
                        assert(false);
                    }
                }
                match array_board.cell(nxu, nyu) {
                    Some(piece) => {
                        let capture = piece.colour.is_different(&curr_piece.colour);
                        if capture {
                            to_return.push(Square { x: nxu, y: nyu });
                            proof {
                                lemma_push_no_dup(pre_ret, sq);
                            }
                        }
                        blocked = true;
                        proof {
                            // the encountered piece ends the ray; its own
                            // square is a destination exactly on capture
                            assert(!ray_square_empty(g, sx, sy, dxi, dyi, s));
                            assert forall|t: Square|
                                #[trigger] to_return@.contains(t) <==> ray_piece_dest(
                                    g,
                                    c,
                                    sx,
                                    sy,
                                    dv.take(d as int),
                                    k,
                                    t.x as int,
                                    t.y as int,
                                ) || ray_dest(
                                    g,
                                    c,
                                    sx,
                                    sy,
                                    dxi,
                                    dyi,
                                    k,
                                    t.x as int,
                                    t.y as int,
                                ) by {
                                if capture {
                                    vstd::seq_lib::lemma_seq_contains_after_push(pre_ret, sq, t);
                                }
                                if to_return@.contains(t) {
                                    if capture && t == sq {
                                        assert(ray_clear_through(g, sx, sy, dxi, dyi, s));
                                        assert(can_land(g, c, t.x as int, t.y as int));
                                        assert(ray_dest(
                                            g,
                                            c,
                                            sx,
                                            sy,
                                            dxi,
                                            dyi,
                                            k,
                                            t.x as int,
                                            t.y as int,
                                        ));
                                    } else {
                                        assert(pre_ret.contains(t));
                                        if ray_dest(
                                            g,
                                            c,
                                            sx,
                                            sy,
                                            dxi,
                                            dyi,
                                            i as int,
                                            t.x as int,
                                            t.y as int,
                                        ) {
                                            lemma_ray_dest_mono(
                                                g,
                                                c,
                                                sx,
                                                sy,
                                                dxi,
                                                dyi,
                                                i as int,
                                                k,
                                                t.x as int,
                                                t.y as int,
                                            );
                                        }
                                    }
                                }
                                if ray_dest(g, c, sx, sy, dxi, dyi, k, t.x as int, t.y as int) {
                                    let ii = choose|ii: int|
                                        1 <= ii <= k && t.x as int == sx + ii * dxi && t.y as int
                                            == sy + ii * dyi && #[trigger] ray_clear_through(
                                            g,
                                            sx,
                                            sy,
                                            dxi,
                                            dyi,
                                            ii,
                                        ) && can_land(g, c, t.x as int, t.y as int);
                                    if ii < s {
                                        assert(ray_dest(
                                            g,
                                            c,
                                            sx,
                                            sy,
                                            dxi,
                                            dyi,
                                            i as int,
                                            t.x as int,
                                            t.y as int,
                                        ));
                                        assert(pre_ret.contains(t));
                                        assert(to_return@.contains(t));
                                    } else if ii == s {
                                        assert(t.x as int == sq.x as int && t.y as int
                                            == sq.y as int);
                                        assert(t == sq);
                                        assert(capture);
                                        assert(to_return@.contains(t)) by {
                                            assert(to_return@.last() == sq);
                                        }
                                    } else {
                                        assert(!ray_clear_through(g, sx, sy, dxi, dyi, ii));
                                    }
                                }
                            }
                        }
                    },
                    None => {
                        to_return.push(Square { x: nxu, y: nyu });
                        proof {
                            lemma_push_no_dup(pre_ret, sq);
                        }
                        let ghost old_i: int = i as int;
                        cx = nx;
                        cy = ny;
                        i += 1;
                        proof {
                            assert(ray_square_empty(g, sx, sy, dxi, dyi, s));
                            assert(ray_clear_through(g, sx, sy, dxi, dyi, s + 1)) by {
                                assert(forall|j: int|
                                    1 <= j < s + 1 ==> #[trigger] ray_square_empty(
                                        g,
                                        sx,
                                        sy,
                                        dxi,
                                        dyi,
                                        j,
                                    ));
                            }
                            assert forall|t: Square|
                                #[trigger] to_return@.contains(t) <==> ray_piece_dest(
                                    g,
                                    c,
                                    sx,
                                    sy,
                                    dv.take(d as int),
                                    k,
                                    t.x as int,
                                    t.y as int,
                                ) || ray_dest(
                                    g,
                                    c,
                                    sx,
                                    sy,
                                    dxi,
                                    dyi,
                                    s,
                                    t.x as int,
                                    t.y as int,
                                ) by {
                                vstd::seq_lib::lemma_seq_contains_after_push(pre_ret, sq, t);
                                if to_return@.contains(t) {
                                    if t == sq {
                                        assert(ray_clear_through(g, sx, sy, dxi, dyi, s));
                                        assert(can_land(g, c, t.x as int, t.y as int));
                                        assert(ray_dest(
                                            g,
                                            c,
                                            sx,
                                            sy,
                                            dxi,
                                            dyi,
                                            s,
                                            t.x as int,
                                            t.y as int,
                                        ));
                                    } else {
                                        assert(pre_ret.contains(t));
                                        if ray_dest(
                                            g,
                                            c,
                                            sx,
                                            sy,
                                            dxi,
                                            dyi,
                                            old_i,
                                            t.x as int,
                                            t.y as int,
                                        ) {
                                            lemma_ray_dest_mono(
                                                g,
                                                c,
                                                sx,
                                                sy,
                                                dxi,
                                                dyi,
                                                old_i,
                                                s,
                                                t.x as int,
                                                t.y as int,
                                            );
                                        }
                                    }
                                }
                                if ray_dest(g, c, sx, sy, dxi, dyi, s, t.x as int, t.y as int) {
                                    let ii = choose|ii: int|
                                        1 <= ii <= s && t.x as int == sx + ii * dxi && t.y as int
                                            == sy + ii * dyi && #[trigger] ray_clear_through(
                                            g,
                                            sx,
                                            sy,
                                            dxi,
                                            dyi,
                                            ii,
                                        ) && can_land(g, c, t.x as int, t.y as int);
                                    if ii < s {
                                        assert(ray_dest(
                                            g,
                                            c,
                                            sx,
                                            sy,
                                            dxi,
                                            dyi,
                                            old_i,
                                            t.x as int,
                                            t.y as int,
                                        ));
                                        assert(pre_ret.contains(t));
                                        assert(to_return@.contains(t));
                                    } else {
                                        assert(t.x as int == sq.x as int && t.y as int
                                            == sq.y as int);
                                        assert(t == sq);
                                        assert(to_return@.contains(t)) by {
                                            assert(to_return@.last() == sq);
                                        }
                                    }
                                }
                            }
                        }
                    },
                }
            }
        }
        proof {
            if !blocked {
                assert(i == max_distance);
            }
            // fold this direction into the prefix of handled directions
            assert(dv.take(d as int + 1).drop_last() =~= dv.take(d as int));
            assert(dv.take(d as int + 1)[d as int] == dv[d as int]);
            assert forall|t: Square|
                #[trigger] to_return@.contains(t) <==> ray_piece_dest(
                    g,
                    c,
                    sx,
                    sy,
                    dv.take(d as int + 1),
                    k,
                    t.x as int,
                    t.y as int,
                ) by {
                let pre = dv.take(d as int);
                let cur = dv.take(d as int + 1);
                if to_return@.contains(t) {
                    if ray_piece_dest(g, c, sx, sy, pre, k, t.x as int, t.y as int) {
                        let e = choose|e: int|
                            0 <= e < pre.len() && #[trigger] ray_dest(
                                g,
                                c,
                                sx,
                                sy,
                                pre[e].0,
                                pre[e].1,
                                k,
                                t.x as int,
                                t.y as int,
                            );
                        assert(cur[e] == pre[e]);
                        assert(ray_piece_dest(g, c, sx, sy, cur, k, t.x as int, t.y as int));
                    } else {
                        assert(ray_dest(g, c, sx, sy, dxi, dyi, k, t.x as int, t.y as int));
                        assert(cur[d as int] == (dxi, dyi));
                        assert(ray_piece_dest(g, c, sx, sy, cur, k, t.x as int, t.y as int));
                    }
                }
                if ray_piece_dest(g, c, sx, sy, cur, k, t.x as int, t.y as int) {
                    let e = choose|e: int|
                        0 <= e < cur.len() && #[trigger] ray_dest(
                            g,
                            c,
                            sx,
                            sy,
                            cur[e].0,
                            cur[e].1,
                            k,
                            t.x as int,
                            t.y as int,
                        );
                    if e < d as int {
                        assert(pre[e] == cur[e]);
                        assert(ray_piece_dest(g, c, sx, sy, pre, k, t.x as int, t.y as int));
                    } else {
                        assert(cur[e] == (dxi, dyi));
                    }
                    assert(to_return@.contains(t));
                }
            }
        }
        d += 1;
    }
    proof {
        assert(dv.take(directions@.len() as int) =~= dv);
    }
    to_return
}


/// The direction table for rooks: the four orthogonals.
fn orthogonal_directions() -> (r: Vec<(i8, i8)>)
    ensures
        dirs_view(r@) == orthogonal_dirs(),
        forall|e: int|
            0 <= e < r@.len() ==> valid_dir((#[trigger] r@[e]).0 as int, r@[e].1 as int),
        forall|e1: int, e2: int|
            0 <= e1 < e2 < r@.len() ==> (#[trigger] r@[e1]) != (#[trigger] r@[e2]),
{
    let mut v: Vec<(i8, i8)> = Vec::new();
    v.push((1, 0));
    v.push((-1, 0));
    v.push((0, 1));
    v.push((0, -1));
    proof {
        assert(dirs_view(v@) =~= orthogonal_dirs());
    }
    v
}

/// The direction table for bishops: the four diagonals.
fn diagonal_directions() -> (r: Vec<(i8, i8)>)
    ensures
        dirs_view(r@) == diagonal_dirs(),
        forall|e: int|
            0 <= e < r@.len() ==> valid_dir((#[trigger] r@[e]).0 as int, r@[e].1 as int),
        forall|e1: int, e2: int|
            0 <= e1 < e2 < r@.len() ==> (#[trigger] r@[e1]) != (#[trigger] r@[e2]),
{
    let mut v: Vec<(i8, i8)> = Vec::new();
    v.push((1, 1));
    v.push((1, -1));
    v.push((-1, 1));
    v.push((-1, -1));
    proof {
        assert(dirs_view(v@) =~= diagonal_dirs());
    }
    v
}

/// The direction table for kings and queens: all eight directions.
fn all_directions() -> (r: Vec<(i8, i8)>)
    ensures
        dirs_view(r@) == all_dirs(),
        forall|e: int|
            0 <= e < r@.len() ==> valid_dir((#[trigger] r@[e]).0 as int, r@[e].1 as int),
        forall|e1: int, e2: int|
            0 <= e1 < e2 < r@.len() ==> (#[trigger] r@[e1]) != (#[trigger] r@[e2]),
{
    let mut v: Vec<(i8, i8)> = Vec::new();
    v.push((1, 0));
    v.push((-1, 0));
    v.push((0, 1));
    v.push((0, -1));
    v.push((1, 1));
    v.push((1, -1));
    v.push((-1, 1));
    v.push((-1, -1));
    proof {
        assert(dirs_view(v@) =~= all_dirs());
    }
    v
}

/// Appends the knight-jump target `(x_curr + dx, y_curr + dy)` when it
/// is on the board and free to land on; jumps are independent, so no
/// stop propagates between them.
fn push_jump_if_free(
    to_return: &mut Vec<Square>,
    array_board: &ArrayBoard,
    curr_colour: PieceColour,
    x_curr: usize,
    y_curr: usize,
    dx: i8,
    dy: i8,
)
    requires
        array_board.wf(),
        x_curr < 8,
        y_curr < 8,
        -2 <= dx <= 2,
        -2 <= dy <= 2,
    ensures
        forall|t: Square|
            #[trigger] final(to_return)@.contains(t) <==> old(to_return)@.contains(t) || (
            t.x as int == x_curr + dx && t.y as int == y_curr + dy && can_land(
                array_board.grid(),
                curr_colour,
                x_curr + dx,
                y_curr + dy,
            )),
        final(to_return)@ == (if can_land(array_board.grid(), curr_colour, x_curr + dx, y_curr + dy) {
            old(to_return)@.push(
                Square { x: (x_curr + dx) as usize, y: (y_curr + dy) as usize },
            )
        } else {
            old(to_return)@
        }),
{
    let nx: i16 = x_curr as i16 + dx as i16;
    let ny: i16 = y_curr as i16 + dy as i16;
    if nx < 0 || nx >= 8 || ny < 0 || ny >= 8 {
        return ;
    }
    let nxu = nx as usize;
    let nyu = ny as usize;
    let ghost pre = to_return@;
    let ghost sq = Square { x: nxu, y: nyu };
    match array_board.cell(nxu, nyu) {
        Some(piece) => {
            if piece.colour.is_different(&curr_colour) {
                to_return.push(Square { x: nxu, y: nyu });
            }
        },
        None => {
            to_return.push(Square { x: nxu, y: nyu });
        },
    }
    proof {
        assert forall|t: Square|
            #[trigger] to_return@.contains(t) <==> pre.contains(t) || (t.x as int == x_curr + dx
                && t.y as int == y_curr + dy && can_land(
                array_board.grid(),
                curr_colour,
                x_curr + dx,
                y_curr + dy,
            )) by {
            if to_return@ != pre {
                vstd::seq_lib::lemma_seq_contains_after_push(pre, sq, t);
            }
        }
    }
}

/// Appends the pawn's quiet forward step when the target square is on
/// the board and empty.
fn push_pawn_quiet(to_return: &mut Vec<Square>, array_board: &ArrayBoard, x_curr: usize, ny: i16)
    requires
        array_board.wf(),
        x_curr < 8,
    ensures
        forall|t: Square|
            #[trigger] final(to_return)@.contains(t) <==> old(to_return)@.contains(t) || (
            t.x == x_curr && t.y as int == ny as int && in_bounds(x_curr as int, ny as int) && occ(
                array_board.grid(),
                x_curr as int,
                ny as int,
            ) is None),
        final(to_return)@ == (if in_bounds(x_curr as int, ny as int) && occ(
            array_board.grid(),
            x_curr as int,
            ny as int,
        ) is None {
            old(to_return)@.push(Square { x: x_curr, y: ny as usize })
        } else {
            old(to_return)@
        }),
{
    if ny < 0 || ny >= 8 {
        return ;
    }
    let nyu = ny as usize;
    let ghost pre = to_return@;
    let ghost sq = Square { x: x_curr, y: nyu };
    if array_board.cell(x_curr, nyu).is_none() {
        to_return.push(Square { x: x_curr, y: nyu });
    }
    proof {
        assert forall|t: Square|
            #[trigger] to_return@.contains(t) <==> pre.contains(t) || (t.x == x_curr && t.y as int
                == ny as int && in_bounds(x_curr as int, ny as int) && occ(
                array_board.grid(),
                x_curr as int,
                ny as int,
            ) is None) by {
            if to_return@ != pre {
                vstd::seq_lib::lemma_seq_contains_after_push(pre, sq, t);
            }
        }
    }
}

/// Appends the pawn's diagonal target `(tx, ny)` when it is on the
/// board and holds an opposing piece; diagonals are capture-only.
fn push_pawn_capture(
    to_return: &mut Vec<Square>,
    array_board: &ArrayBoard,
    curr_colour: PieceColour,
    tx: i16,
    ny: i16,
)
    requires
        array_board.wf(),
    ensures
        forall|t: Square|
            #[trigger] final(to_return)@.contains(t) <==> old(to_return)@.contains(t) || (
            t.x as int == tx as int && t.y as int == ny as int && in_bounds(tx as int, ny as int)
                && match occ(array_board.grid(), tx as int, ny as int) {
                Some(p) => p.colour != curr_colour,
                None => false,
            }),
        final(to_return)@ == (if in_bounds(tx as int, ny as int) && (match occ(
            array_board.grid(),
            tx as int,
            ny as int,
        ) {
            Some(p) => p.colour != curr_colour,
            None => false,
        }) {
            old(to_return)@.push(Square { x: tx as usize, y: ny as usize })
        } else {
            old(to_return)@
        }),
{
    if tx < 0 || tx >= 8 || ny < 0 || ny >= 8 {
        return ;
    }
    let txu = tx as usize;
    let nyu = ny as usize;
    let ghost pre = to_return@;
    let ghost sq = Square { x: txu, y: nyu };
    match array_board.cell(txu, nyu) {
        Some(piece) => {
            if piece.colour.is_different(&curr_colour) {
                to_return.push(Square { x: txu, y: nyu });
            }
        },
        None => {},
    }
    proof {
        assert forall|t: Square|
            #[trigger] to_return@.contains(t) <==> pre.contains(t) || (t.x as int == tx as int
                && t.y as int == ny as int && in_bounds(tx as int, ny as int) && match occ(
                array_board.grid(),
                tx as int,
                ny as int,
            ) {
                Some(p) => p.colour != curr_colour,
                None => false,
            }) by {
            if to_return@ != pre {
                vstd::seq_lib::lemma_seq_contains_after_push(pre, sq, t);
            }
        }
    }
}

/// The knight's destinations: each of the eight jump offsets in the
/// canonical order, kept when on the board and free to land on.
fn knight_tiles(
    x_curr: usize,
    y_curr: usize,
    piece: &Piece,
    array_board: &ArrayBoard,
) -> (r: Vec<Square>)
    requires
        array_board.wf(),
        x_curr < 8,
        y_curr < 8,
        occ(array_board.grid(), x_curr as int, y_curr as int) == Some(*piece),
        piece.piece_type == PieceType::Knight,
    ensures
        r@.no_duplicates(),
        forall|t: Square|
            #[trigger] r@.contains(t) <==> knight_dest(
                array_board.grid(),
                piece.colour,
                x_curr as int,
                y_curr as int,
                t.x as int,
                t.y as int,
            ),
{
    let ghost g = array_board.grid();
    let ghost sx = x_curr as int;
    let ghost sy = y_curr as int;
    let ghost c = piece.colour;
    let mut to_return: Vec<Square> = Vec::new();
    push_jump_if_free(&mut to_return, array_board, piece.colour, x_curr, y_curr, 2, 1);
    let ghost v1 = to_return@;
    push_jump_if_free(&mut to_return, array_board, piece.colour, x_curr, y_curr, 2, -1);
    let ghost v2 = to_return@;
    push_jump_if_free(&mut to_return, array_board, piece.colour, x_curr, y_curr, 1, 2);
    let ghost v3 = to_return@;
    push_jump_if_free(&mut to_return, array_board, piece.colour, x_curr, y_curr, 1, -2);
    let ghost v4 = to_return@;
    push_jump_if_free(&mut to_return, array_board, piece.colour, x_curr, y_curr, -2, 1);
    let ghost v5 = to_return@;
    push_jump_if_free(&mut to_return, array_board, piece.colour, x_curr, y_curr, -2, -1);
    let ghost v6 = to_return@;
    push_jump_if_free(&mut to_return, array_board, piece.colour, x_curr, y_curr, -1, 2);
    let ghost v7 = to_return@;
    push_jump_if_free(&mut to_return, array_board, piece.colour, x_curr, y_curr, -1, -2);
    let ghost v8 = to_return@;
    proof {
        // every jump offset is distinct, so no push repeats a square
        assert(v1.no_duplicates());
        if can_land(g, c, x_curr as int + 2, y_curr as int - 1) {
            lemma_push_no_dup(
                v1,
                Square {
                    x: (x_curr as int + 2) as usize,
                    y: (y_curr as int - 1) as usize,
                },
            );
        }
        assert(v2.no_duplicates());
        if can_land(g, c, x_curr as int + 1, y_curr as int + 2) {
            lemma_push_no_dup(
                v2,
                Square {
                    x: (x_curr as int + 1) as usize,
                    y: (y_curr as int + 2) as usize,
                },
            );
        }
        assert(v3.no_duplicates());
        if can_land(g, c, x_curr as int + 1, y_curr as int - 2) {
            lemma_push_no_dup(
                v3,
                Square {
                    x: (x_curr as int + 1) as usize,
                    y: (y_curr as int - 2) as usize,
                },
            );
        }
        assert(v4.no_duplicates());
        if can_land(g, c, x_curr as int - 2, y_curr as int + 1) {
            lemma_push_no_dup(
                v4,
                Square {
                    x: (x_curr as int - 2) as usize,
                    y: (y_curr as int + 1) as usize,
                },
            );
        }
        assert(v5.no_duplicates());
        if can_land(g, c, x_curr as int - 2, y_curr as int - 1) {
            lemma_push_no_dup(
                v5,
                Square {
                    x: (x_curr as int - 2) as usize,
                    y: (y_curr as int - 1) as usize,
                },
            );
        }
        assert(v6.no_duplicates());
        if can_land(g, c, x_curr as int - 1, y_curr as int + 2) {
            lemma_push_no_dup(
                v6,
                Square {
                    x: (x_curr as int - 1) as usize,
                    y: (y_curr as int + 2) as usize,
                },
            );
        }
        assert(v7.no_duplicates());
        if can_land(g, c, x_curr as int - 1, y_curr as int - 2) {
            lemma_push_no_dup(
                v7,
                Square {
                    x: (x_curr as int - 1) as usize,
                    y: (y_curr as int - 2) as usize,
                },
            );
        }
        assert(v8.no_duplicates());
        assert forall|t: Square|
            #[trigger] to_return@.contains(t) <==> knight_dest(
                g,
                c,
                sx,
                sy,
                t.x as int,
                t.y as int,
            ) by {
            let tx = t.x as int;
            let ty = t.y as int;
            if knight_dest(g, c, sx, sy, tx, ty) {
                assert(knight_jump(tx - sx, ty - sy));
            }
        }
    }
    to_return
}

/// The pawn's destinations: the quiet forward step, the two capture
/// diagonals, and the double advance from the start rank, in that
/// order.
fn pawn_tiles(
    x_curr: usize,
    y_curr: usize,
    piece: &Piece,
    array_board: &ArrayBoard,
) -> (r: Vec<Square>)
    requires
        array_board.wf(),
        x_curr < 8,
        y_curr < 8,
        occ(array_board.grid(), x_curr as int, y_curr as int) == Some(*piece),
        piece.piece_type == PieceType::Pawn,
    ensures
        r@.no_duplicates(),
        forall|t: Square|
            #[trigger] r@.contains(t) <==> pawn_dest(
                array_board.grid(),
                piece.colour,
                x_curr as int,
                y_curr as int,
                t.x as int,
                t.y as int,
            ),
{
    let ghost g = array_board.grid();
    let ghost sx = x_curr as int;
    let ghost sy = y_curr as int;
    let ghost c = piece.colour;
    let mut to_return: Vec<Square> = Vec::new();
    let dir: i16 = if piece.colour.is_white() {
        1
    } else {
        -1
    };
    let start_rank: usize = if piece.colour.is_white() {
        1
    } else {
        6
    };
    let ny: i16 = y_curr as i16 + dir;
    push_pawn_quiet(&mut to_return, array_board, x_curr, ny);
    push_pawn_capture(&mut to_return, array_board, piece.colour, x_curr as i16 + 1, ny);
    push_pawn_capture(&mut to_return, array_board, piece.colour, x_curr as i16 - 1, ny);
    if y_curr == start_rank {
        let ny2: i16 = y_curr as i16 + 2 * dir;
        let ghost pre = to_return@;
        let midu = ny as usize;
        let ny2u = ny2 as usize;
        let ghost sq = Square { x: x_curr, y: ny2u };
        if array_board.cell(x_curr, ny2u).is_none() && array_board.cell(
            x_curr,
            midu,
        ).is_none() {
            to_return.push(Square { x: x_curr, y: ny2u });
        }
        proof {
            assert(ny >= 0 && ny < 8 && ny2 >= 0 && ny2 < 8);
            assert(midu as int == ny as int && ny2u as int == ny2 as int);
            assert forall|t: Square|
                #[trigger] to_return@.contains(t) <==> pre.contains(t) || (t.x == x_curr
                    && t.y as int == ny2 as int && occ(g, sx, ny as int) is None && occ(
                    g,
                    sx,
                    ny2 as int,
                ) is None) by {
                if to_return@ != pre {
                    vstd::seq_lib::lemma_seq_contains_after_push(pre, sq, t);
                }
            }
        }
    }
    proof {
        assert forall|t: Square|
            #[trigger] to_return@.contains(t) <==> pawn_dest(
                g,
                c,
                sx,
                sy,
                t.x as int,
                t.y as int,
            ) by {
            assert(pawn_dir(c) == dir as int);
            assert(pawn_start_rank(c) == start_rank as int);
        }
    }
    to_return
}

/// Every square a piece standing on `(x_curr, y_curr)` could move to,
/// ignoring check: the pseudo-legal destinations, in the canonical
/// direction-list order.
pub fn valid_tiles(
    x_curr: usize,
    y_curr: usize,
    piece: &Piece,
    array_board: &ArrayBoard,
) -> (r: Vec<Square>)
    requires
        array_board.wf(),
        x_curr < 8,
        y_curr < 8,
        occ(array_board.grid(), x_curr as int, y_curr as int) == Some(*piece),
    ensures
        r@.no_duplicates(),
        forall|t: Square|
            #[trigger] r@.contains(t) <==> pseudo_dest(
                array_board.grid(),
                *piece,
                x_curr as int,
                y_curr as int,
                t.x as int,
                t.y as int,
            ),
{
    let ghost g = array_board.grid();
    let ghost sx = x_curr as int;
    let ghost sy = y_curr as int;
    let ghost c = piece.colour;
    match piece.piece_type {
        PieceType::King => {
            let directions = all_directions();
            valid_moves_for_directions(x_curr, y_curr, &directions, 1, array_board)
        },
        PieceType::Queen => {
            let directions = all_directions();
            valid_moves_for_directions(x_curr, y_curr, &directions, 7, array_board)
        },
        PieceType::Rook => {
            let directions = orthogonal_directions();
            valid_moves_for_directions(x_curr, y_curr, &directions, 7, array_board)
        },
        PieceType::Bishop => {
            let directions = diagonal_directions();
            valid_moves_for_directions(x_curr, y_curr, &directions, 7, array_board)
        },
        PieceType::Knight => knight_tiles(x_curr, y_curr, piece, array_board),
        PieceType::Pawn => pawn_tiles(x_curr, y_curr, piece, array_board),
    }
}

/// The pseudo-legal destination set for the piece on `source`, usable
/// by the host to render move hints.  An off-board source is rejected
/// as `OutOfBounds` and an empty one as `EmptySource`.
pub fn generate_moves(array_board: &ArrayBoard, source: Square) -> (r: Result<
    Vec<Square>,
    ErrorKind,
>)
    requires
        array_board.wf(),
    ensures
        !in_bounds(source.x as int, source.y as int) <==> r == Err::<Vec<Square>, ErrorKind>(
            ErrorKind::OutOfBounds,
        ),
        in_bounds(source.x as int, source.y as int) && occ(
            array_board.grid(),
            source.x as int,
            source.y as int,
        ) is None <==> r == Err::<Vec<Square>, ErrorKind>(ErrorKind::EmptySource),
        in_bounds(source.x as int, source.y as int) && occ(
            array_board.grid(),
            source.x as int,
            source.y as int,
        ) is Some ==> r is Ok && r->Ok_0@.no_duplicates() && forall|t: Square|
            #[trigger] r->Ok_0@.contains(t) <==> pseudo_dest(
                array_board.grid(),
                occ(array_board.grid(), source.x as int, source.y as int).unwrap(),
                source.x as int,
                source.y as int,
                t.x as int,
                t.y as int,
            ),
{
    if source.x >= 8 || source.y >= 8 {
        return Err(ErrorKind::OutOfBounds);
    }
    match array_board.cell(source.x, source.y) {
        None => Err(ErrorKind::EmptySource),
        Some(piece) => Ok(valid_tiles(source.x, source.y, &piece, array_board)),
    }
}


/// Every ray-table destination is a square the piece may land on.
proof fn lemma_ray_piece_dest_can_land(
    g: Grid,
    c: PieceColour,
    sx: int,
    sy: int,
    dirs: Seq<(int, int)>,
    k: int,
    tx: int,
    ty: int,
)
    requires
        ray_piece_dest(g, c, sx, sy, dirs, k, tx, ty),
    ensures
        can_land(g, c, tx, ty),
{
    let d = choose|d: int|
        0 <= d < dirs.len() && #[trigger] ray_dest(g, c, sx, sy, dirs[d].0, dirs[d].1, k, tx, ty);
    let dx = dirs[d].0;
    let dy = dirs[d].1;
    let ii = choose|ii: int|
        1 <= ii <= k && tx == sx + ii * dx && ty == sy + ii * dy && #[trigger] ray_clear_through(
            g,
            sx,
            sy,
            dx,
            dy,
            ii,
        ) && can_land(g, c, tx, ty);
}

/// Move generation never leaves the board and never lands on a
/// same-side piece: every pseudo-legal destination is in bounds, and
/// an occupant found there belongs to the opposing side.
pub proof fn lemma_pseudo_dest_sound(g: Grid, p: Piece, sx: int, sy: int, tx: int, ty: int)
    requires
        pseudo_dest(g, p, sx, sy, tx, ty),
    ensures
        in_bounds(tx, ty),
        occ(g, tx, ty) matches Some(q) ==> q.colour != p.colour,
{
    match p.piece_type {
        PieceType::King => lemma_ray_piece_dest_can_land(g, p.colour, sx, sy, all_dirs(), 1, tx, ty),
        PieceType::Queen => lemma_ray_piece_dest_can_land(g, p.colour, sx, sy, all_dirs(), 7, tx, ty),
        PieceType::Rook => lemma_ray_piece_dest_can_land(
            g,
            p.colour,
            sx,
            sy,
            orthogonal_dirs(),
            7,
            tx,
            ty,
        ),
        PieceType::Bishop => lemma_ray_piece_dest_can_land(
            g,
            p.colour,
            sx,
            sy,
            diagonal_dirs(),
            7,
            tx,
            ty,
        ),
        PieceType::Knight => {},
        PieceType::Pawn => {},
    }
}

} // verus!
