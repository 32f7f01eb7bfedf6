//! The canonical board state: an 8x8 grid of optional pieces, the
//! side to move, and the side (if any) currently in check.

use vstd::prelude::*;
use crate::pieces::{Piece, PieceColour, PieceType, Square, ErrorKind, in_bounds};

verus! {

/// The mathematical model of the grid: a sequence of 8 files, each a
/// sequence of 8 optional occupants, indexed `[file][rank]`.
pub type Grid = Seq<Seq<Option<Piece>>>;

/// Whether a grid model has the 8x8 shape.
pub open spec fn grid_wf(g: Grid) -> bool {
    g.len() == 8 && forall|x: int| 0 <= x < 8 ==> (#[trigger] g[x]).len() == 8
}

/// The occupant of square `(x, y)`; squares off the board are empty.
pub open spec fn occ(g: Grid, x: int, y: int) -> Option<Piece> {
    if in_bounds(x, y) {
        g[x][y]
    } else {
        None
    }
}

/// The grid after the occupant of `(fx, fy)` is taken and put down on
/// `(tx, ty)`: the source square becomes empty, the destination receives
/// the occupant (discarding what stood there), and every other square
/// keeps its occupant.  Taking happens before placing, so a move onto
/// the source square itself leaves the piece in place.
pub open spec fn moved_grid(g: Grid, fx: int, fy: int, tx: int, ty: int) -> Grid
    recommends
        grid_wf(g),
        in_bounds(fx, fy),
        in_bounds(tx, ty),
{
    let cleared = g.update(fx, g[fx].update(fy, None));
    cleared.update(tx, cleared[tx].update(ty, occ(g, fx, fy)))
}

/// The board aggregate: the grid, whose move it is, and which side's
/// king (if any) is currently attacked.
pub struct ArrayBoard {
    pub turn: PieceColour,
    pub in_check: Option<PieceColour>,
    pub board: Vec<Vec<Option<Piece>>>,
}

/// The piece the standard starting layout puts on the back rank at
/// file `x`.
pub open spec fn back_rank_kind(x: int) -> PieceType {
    if x == 0 || x == 7 {
        PieceType::Rook
    } else if x == 1 || x == 6 {
        PieceType::Knight
    } else if x == 2 || x == 5 {
        PieceType::Bishop
    } else if x == 3 {
        PieceType::Queen
    } else {
        PieceType::King
    }
}

/// The occupant of `(x, y)` in the standard starting layout: White on
/// ranks 0 and 1, Black on ranks 6 and 7, pawns on ranks 1 and 6.
pub open spec fn start_occ(x: int, y: int) -> Option<Piece> {
    if y == 0 {
        Some(Piece { colour: PieceColour::White, piece_type: back_rank_kind(x) })
    } else if y == 1 {
        Some(Piece { colour: PieceColour::White, piece_type: PieceType::Pawn })
    } else if y == 6 {
        Some(Piece { colour: PieceColour::Black, piece_type: PieceType::Pawn })
    } else if y == 7 {
        Some(Piece { colour: PieceColour::Black, piece_type: back_rank_kind(x) })
    } else {
        None
    }
}

/// The starting cell as executable code.
fn starting_cell(x: usize, y: usize) -> (r: Option<Piece>)
    requires
        x < 8,
        y < 8,
    ensures
        r == start_occ(x as int, y as int),
{
    let kind = if x == 0 || x == 7 {
        PieceType::Rook
    } else if x == 1 || x == 6 {
        PieceType::Knight
    } else if x == 2 || x == 5 {
        PieceType::Bishop
    } else if x == 3 {
        PieceType::Queen
    } else {
        PieceType::King
    };
    if y == 0 {
        Some(Piece { colour: PieceColour::White, piece_type: kind })
    } else if y == 1 {
        Some(Piece { colour: PieceColour::White, piece_type: PieceType::Pawn })
    } else if y == 6 {
        Some(Piece { colour: PieceColour::Black, piece_type: PieceType::Pawn })
    } else if y == 7 {
        Some(Piece { colour: PieceColour::Black, piece_type: kind })
    } else {
        None
    }
}

impl ArrayBoard {
    /// The mathematical model of this board's grid.
    pub open spec fn grid(&self) -> Grid {
        self.board@.map_values(|f: Vec<Option<Piece>>| f@)
    }

    /// Well-formedness: the grid has the 8x8 shape.
    pub open spec fn wf(&self) -> bool {
        grid_wf(self.grid())
    }

    /// The occupant of `(x, y)`.
    pub fn cell(&self, x: usize, y: usize) -> (r: Option<Piece>)
        requires
            self.wf(),
            x < 8,
            y < 8,
        ensures
            r == occ(self.grid(), x as int, y as int),
    {
        self.board[x][y]
    }

    /// Replaces the occupant of `(x, y)` and changes nothing else.
    fn set_cell(&mut self, x: usize, y: usize, v: Option<Piece>)
        requires
            old(self).wf(),
            x < 8,
            y < 8,
        ensures
            final(self).wf(),
            final(self).turn == old(self).turn,
            final(self).in_check == old(self).in_check,
            final(self).grid() == old(self).grid().update(x as int, old(self).grid()[x as int].update(y as int, v)),
    {
        let mut file: Vec<Option<Piece>> = Vec::new();
        let mut j: usize = 0;
        while j < 8
            invariant
                old(self).wf(),
                x < 8,
                y < 8,
                j <= 8,
                self == old(self),
                file@.len() == j,
                forall|k: int| 0 <= k < j ==> file@[k] == (if k == y {
                    v
                } else {
                    old(self).grid()[x as int][k]
                }),
            decreases 8 - j,
        {
            if j == y {
                file.push(v);
            } else {
                file.push(self.board[x][j]);
            }
            j += 1;
        }
        self.board.set(x, file);
        proof {
            assert(self.grid() =~= old(self).grid().update(
                x as int,
                old(self).grid()[x as int].update(y as int, v),
            )) by {
                assert(file@ =~= old(self).grid()[x as int].update(y as int, v));
            }
        }
    }

    /// A fresh board holding the standard chess starting layout, with
    /// White to move and nobody in check.
    pub fn new() -> (r: ArrayBoard)
        ensures
            r.wf(),
            r.turn == PieceColour::White,
            r.in_check is None,
            forall|x: int, y: int| in_bounds(x, y) ==> occ(r.grid(), x, y) == start_occ(x, y),
    {
        let mut board: Vec<Vec<Option<Piece>>> = Vec::new();
        let mut x: usize = 0;
        while x < 8
            invariant
                x <= 8,
                board@.len() == x,
                forall|i: int| 0 <= i < x ==> (#[trigger] board@[i])@.len() == 8,
                forall|i: int, j: int|
                    0 <= i < x && 0 <= j < 8 ==> #[trigger] board@[i]@[j] == start_occ(i, j),
            decreases 8 - x,
        {
            let mut file: Vec<Option<Piece>> = Vec::new();
            let mut y: usize = 0;
            while y < 8
                invariant
                    x < 8,
                    y <= 8,
                    file@.len() == y,
                    forall|j: int| 0 <= j < y ==> file@[j] == start_occ(x as int, j),
                decreases 8 - y,
            {
                file.push(starting_cell(x, y));
                y += 1;
            }
            board.push(file);
            x += 1;
        }
        let r = ArrayBoard { turn: PieceColour::White, in_check: None, board };
        proof {
            assert forall|x: int, y: int| in_bounds(x, y) implies occ(r.grid(), x, y) == start_occ(
                x,
                y,
            ) by {
                assert(r.grid()[x] == r.board@[x]@);
            }
            assert forall|x: int| 0 <= x < 8 implies (#[trigger] r.grid()[x]).len() == 8 by {
                assert(r.grid()[x] == r.board@[x]@);
            }
        }
        r
    }

    /// Flips whose move it is; the grid and the check flag are untouched.
    pub fn swap_turn(&mut self)
        ensures
            final(self).turn == old(self).turn.opposite_spec(),
            final(self).in_check == old(self).in_check,
            final(self).board == old(self).board,
    {
        if self.turn.is_white() {
            self.turn = PieceColour::Black;
        } else {
            self.turn = PieceColour::White;
        }
    }

    /// Moves the occupant at `from` onto `to` unconditionally: the
    /// source square empties and the destination's previous occupant, if
    /// any, is discarded (this is how captures are realized).  Legality
    /// is the caller's business.  An empty source or an off-board
    /// coordinate is reported as an error and the board is untouched.
    pub fn move_piece(&mut self, from: Square, to: Square) -> (r: Result<(), ErrorKind>)
        requires
            old(self).wf(),
        ensures
            final(self).wf(),
            final(self).turn == old(self).turn,
            final(self).in_check == old(self).in_check,
            !(in_bounds(from.x as int, from.y as int) && in_bounds(to.x as int, to.y as int))
                ==> r == Err::<(), ErrorKind>(ErrorKind::OutOfBounds) && final(self).grid() == old(self).grid(),
            in_bounds(from.x as int, from.y as int) && in_bounds(to.x as int, to.y as int)
                && occ(old(self).grid(), from.x as int, from.y as int) is None
                ==> r == Err::<(), ErrorKind>(ErrorKind::EmptySource) && final(self).grid() == old(self).grid(),
            in_bounds(from.x as int, from.y as int) && in_bounds(to.x as int, to.y as int)
                && occ(old(self).grid(), from.x as int, from.y as int) is Some
                ==> r == Ok::<(), ErrorKind>(()) && final(self).grid() == moved_grid(
                    old(self).grid(),
                    from.x as int,
                    from.y as int,
                    to.x as int,
                    to.y as int,
                ),
    {
        if from.x >= 8 || from.y >= 8 || to.x >= 8 || to.y >= 8 {
            return Err(ErrorKind::OutOfBounds);
        }
        let taken = self.cell(from.x, from.y);
        if taken.is_none() {
            return Err(ErrorKind::EmptySource);
        }
        self.set_cell(from.x, from.y, None);
        self.set_cell(to.x, to.y, taken);
        Ok(())
    }
}

impl Clone for ArrayBoard {
    /// A full independent copy: same grid, turn, and check flag, with
    /// no aliasing, so speculative moves on the copy never disturb the
    /// original.
    fn clone(&self) -> (r: Self)
        ensures
            r.grid() == self.grid(),
            r.turn == self.turn,
            r.in_check == self.in_check,
    {
        let mut board: Vec<Vec<Option<Piece>>> = Vec::new();
        let mut x: usize = 0;
        while x < self.board.len()
            invariant
                x <= self.board@.len(),
                board@.len() == x,
                forall|i: int| 0 <= i < x ==> (#[trigger] board@[i])@ == self.board@[i]@,
            decreases self.board@.len() - x,
        {
            let src = &self.board[x];
            let mut file: Vec<Option<Piece>> = Vec::new();
            let mut y: usize = 0;
            while y < src.len()
                invariant
                    y <= src@.len(),
                    file@.len() == y,
                    forall|j: int| 0 <= j < y ==> file@[j] == src@[j],
                decreases src@.len() - y,
            {
                file.push(src[y]);
                y += 1;
            }
            proof {
                assert(file@ =~= src@);
            }
            board.push(file);
            x += 1;
        }
        let r = ArrayBoard { turn: self.turn, in_check: self.in_check, board };
        proof {
            assert(r.grid() =~= self.grid());
        }
        r
    }
}

impl Default for ArrayBoard {
    /// The default board is the starting position.
    fn default() -> (r: Self)
        ensures
            r.wf(),
            r.turn == PieceColour::White,
            r.in_check is None,
            forall|x: int, y: int| in_bounds(x, y) ==> occ(r.grid(), x, y) == start_occ(x, y),
    {
        Self::new()
    }
}

/// Builds the initial game state: the standard starting layout with
/// White to move and nobody in check.
pub fn setup_board() -> (r: ArrayBoard)
    ensures
        r.wf(),
        r.turn == PieceColour::White,
        r.in_check is None,
        forall|x: int, y: int| in_bounds(x, y) ==> occ(r.grid(), x, y) == start_occ(x, y),
{
    ArrayBoard::new()
}

} // verus!
