//! The board: two disjoint occupancy sets, legality queries, and move
//! application by flipping captured runs.

use vstd::prelude::*;
use crate::bits::bit;
use crate::bits::cell;
use crate::bits::idx;
use crate::bits::in_board;
use crate::bits::lemma_bit_ops;
use crate::bits::lemma_bit_ext;

verus! {

/// A stone color; a two-valued tag.
#[derive(Clone, Copy, PartialEq, Eq, Structural, Debug)]
pub enum Color {
    Black,
    White,
}

impl Color {
    /// The opposing color.
    pub open spec fn spec_other(self) -> Color {
        match self {
            Color::Black => Color::White,
            Color::White => Color::Black,
        }
    }

    /// Swaps the two values.
    pub fn other(self) -> (r: Color)
        ensures
            r == self.spec_other(),
    {
        match self {
            Color::Black => Color::White,
            Color::White => Color::Black,
        }
    }
}

/// The mover's occupancy set, by color.
pub open spec fn me_of(black: u64, white: u64, c: Color) -> u64 {
    if c is Black {
        black
    } else {
        white
    }
}

/// The opponent's occupancy set, by color.
pub open spec fn opp_of(black: u64, white: u64, c: Color) -> u64 {
    if c is Black {
        white
    } else {
        black
    }
}

/// An 8x8 Othello board: the cells held by black and by white, bit-packed
/// with bit `y * 8 + x` for the cell in column `x` of row `y`.
pub struct Board {
    black: u64,
    white: u64,
}

impl Board {
    /// The occupancy set of the black stones.
    pub closed spec fn spec_black(self) -> u64 {
        self.black
    }

    /// The occupancy set of the white stones.
    pub closed spec fn spec_white(self) -> u64 {
        self.white
    }

    /// A cell holds at most one stone: the two sets never intersect.
    pub open spec fn wf(self) -> bool {
        self.spec_black() & self.spec_white() == 0
    }

    /// The mover's occupancy set.
    pub open spec fn spec_me(self, c: Color) -> u64 {
        me_of(self.spec_black(), self.spec_white(), c)
    }

    /// The opponent's occupancy set.
    pub open spec fn spec_opp(self, c: Color) -> u64 {
        opp_of(self.spec_black(), self.spec_white(), c)
    }

    /// The standard initial position: black on (4,3) and (3,4), white on
    /// (3,3) and (4,4).
    pub fn new() -> (r: Board)
        ensures
            r.spec_black() == 0x0000000810000000u64,
            r.spec_white() == 0x0000001008000000u64,
            r.wf(),
    {
        proof {
            assert(0x0000000810000000u64 & 0x0000001008000000u64 == 0) by (bit_vector);
        }
        Board { black: 0x0000000810000000u64, white: 0x0000001008000000u64 }
    }

    /// The raw black occupancy mask.
    pub fn black_bits(&self) -> (r: u64)
        ensures
            r == self.spec_black(),
    {
        self.black
    }

    /// The raw white occupancy mask.
    pub fn white_bits(&self) -> (r: u64)
        ensures
            r == self.spec_white(),
    {
        self.white
    }

    /// An independent duplicate: same masks, separate storage.
    pub fn copy(&self) -> (r: Board)
        ensures
            r == *self,
    {
        Board { black: self.black, white: self.white }
    }

    /// The number of black stones and of white stones.
    pub fn count_stones(&self) -> (r: (u32, u32))
        ensures
            r.0 == popcount(self.spec_black()),
            r.1 == popcount(self.spec_white()),
    {
        (count_ones(self.black), count_ones(self.white))
    }

    /// Placing `c` at `(x, y)` on this board is legal.
    pub open spec fn is_legal(self, x: int, y: int, c: Color) -> bool {
        is_legal_cells(self.spec_black(), self.spec_white(), c, x, y)
    }

    /// The legal-move mask for `c` on this board.
    pub open spec fn legal_mask(self, c: Color) -> u64 {
        legal_mask_from(self.spec_black(), self.spec_white(), c, 0)
    }

    /// Returns a mask with a set bit on each empty cell where `color` could
    /// legally play.
    pub fn legal_moves_bitmask(&self, color: Color) -> (r: u64)
        requires
            self.wf(),
        ensures
            r == self.legal_mask(color),
            forall|x: int, y: int|
                in_board(x, y) ==> bit(r, idx(x, y)) == self.is_legal(x, y, color),
    {
        let me: u64;
        let opp: u64;
        match color {
            Color::Black => {
                me = self.black;
                opp = self.white;
            },
            Color::White => {
                me = self.white;
                opp = self.black;
            },
        }
        let occ: u64 = self.black | self.white;
        let blank: u64 = !occ;
        proof {
            let b: u64 = self.black;
            let w: u64 = self.white;
            assert(w & b == 0 && !(b | w) == !(w | b)) by (bit_vector)
                requires
                    b & w == 0,
            ;
        }
        let l0: u64 = legal_dir(me, opp, blank, -1, 0);
        let l1: u64 = legal_dir(me, opp, blank, 1, 0);
        let l2: u64 = legal_dir(me, opp, blank, 0, -1);
        let l3: u64 = legal_dir(me, opp, blank, 0, 1);
        let l4: u64 = legal_dir(me, opp, blank, -1, -1);
        let l5: u64 = legal_dir(me, opp, blank, -1, 1);
        let l6: u64 = legal_dir(me, opp, blank, 1, -1);
        let l7: u64 = legal_dir(me, opp, blank, 1, 1);
        let r: u64 = l0 | l1 | l2 | l3 | l4 | l5 | l6 | l7;
        proof {
            lemma_bit_ops();
            assert forall|x: int, y: int| in_board(x, y) implies #[trigger] bit(r, idx(x, y))
                == self.is_legal(x, y, color) by {
                let f0: u64 = dir_flips(me, opp, x, y, 1, 0);
                let f1: u64 = dir_flips(me, opp, x, y, -1, 0);
                let f2: u64 = dir_flips(me, opp, x, y, 0, 1);
                let f3: u64 = dir_flips(me, opp, x, y, 0, -1);
                let f4: u64 = dir_flips(me, opp, x, y, 1, 1);
                let f5: u64 = dir_flips(me, opp, x, y, 1, -1);
                let f6: u64 = dir_flips(me, opp, x, y, -1, 1);
                let f7: u64 = dir_flips(me, opp, x, y, -1, -1);
                assert(((f0 | f1 | f2 | f3 | f4 | f5 | f6 | f7) == 0) == (f0 == 0 && f1 == 0 && f2
                    == 0 && f3 == 0 && f4 == 0 && f5 == 0 && f6 == 0 && f7 == 0)) by (bit_vector);
            }
            assert forall|i: u64| #[trigger] bit(r, i) == bit(self.legal_mask(color), i) by {
                lemma_legal_mask_from_bit(self.spec_black(), self.spec_white(), color, 0, i);
                if i < 64 {
                    assert(i / 8 < 8 && i % 8 < 8 && (i / 8) * 8 + (i % 8) == i) by (bit_vector)
                        requires
                            i < 64,
                    ;
                    let x: int = (i as int) % 8;
                    let y: int = (i as int) / 8;
                    assert(in_board(x, y) && idx(x, y) == i);
                    assert(bit(r, idx(x, y)) == self.is_legal(x, y, color));
                }
            }
            lemma_bit_ext(r, self.legal_mask(color));
        }
        r
    }

    /// The legal moves for `color` as `(x, y)` pairs, in ascending bit-index
    /// order: row-major, top to bottom, left to right.
    pub fn legal_moves(&self, color: Color) -> (r: Vec<(u8, u8)>)
        requires
            self.wf(),
        ensures
            r@ == coords_from(self.legal_mask(color), 0),
            forall|x: int, y: int|
                in_board(x, y) ==> r@.contains(((x as u8), (y as u8))) == self.is_legal(
                    x,
                    y,
                    color,
                ),
            forall|k1: int, k2: int|
                0 <= k1 < k2 < r@.len() ==> pair_idx(r@[k1]) < pair_idx(r@[k2]),
    {
        let m: u64 = self.legal_moves_bitmask(color);
        let mut v: Vec<(u8, u8)> = Vec::new();
        let mut i: u64 = 0;
        proof {
            assert(v@ + coords_from(m, 0) =~= coords_from(m, 0));
        }
        while i < 64
            invariant
                i <= 64,
                m == self.legal_mask(color),
                v@ + coords_from(m, i as int) == coords_from(m, 0),
            decreases 64 - i,
        {
            if ((m >> i) & 1u64) == 1u64 {
                let p: (u8, u8) = ((i % 8) as u8, (i / 8) as u8);
                proof {
                    assert(p == ((((i as int) % 8) as u8), (((i as int) / 8) as u8)));
                    assert(coords_from(m, i as int) == seq![p] + coords_from(m, i as int + 1));
                    assert(v@.push(p) + coords_from(m, i as int + 1) =~= v@ + coords_from(
                        m,
                        i as int,
                    ));
                }
                v.push(p);
            }
            i = i + 1;
        }
        proof {
            assert(v@ + coords_from(m, 64) =~= v@);
            lemma_coords_from_ascending(m, 0);
            assert forall|x: int, y: int| in_board(x, y) implies v@.contains(
                ((x as u8), (y as u8)),
            ) == self.is_legal(x, y, color) by {
                lemma_legal_moves_contains(*self, color, x, y);
            }
        }
        v
    }

    /// Places a stone of `color` at `(x, y)` and flips the captured runs.
    /// Rejects, leaving the board unchanged, when the coordinates are out of
    /// range, the cell is occupied, or the placement would capture nothing.
    pub fn make_move(&mut self, x: i32, y: i32, color: Color) -> (r: bool)
        requires
            old(self).wf(),
        ensures
            r == old(self).is_legal(x as int, y as int, color),
            final(self).wf(),
            !r ==> *final(self) == *old(self),
            r ==> final(self).spec_me(color) == old(self).spec_me(color) | (1u64 << idx(
                x as int,
                y as int,
            )) | flip_mask(old(self).spec_me(color), old(self).spec_opp(color), x as int, y as int),
            r ==> final(self).spec_opp(color) == old(self).spec_opp(color) & !flip_mask(
                old(self).spec_me(color),
                old(self).spec_opp(color),
                x as int,
                y as int,
            ),
    {
        if x < 0 || 8 <= x || y < 0 || 8 <= y {
            return false;
        }
        let i: u64 = (y * 8 + x) as u64;
        assert(i == idx(x as int, y as int));
        if ((self.black | self.white) >> i) & 1u64 == 1u64 {
            return false;
        }
        let me: u64;
        let opp: u64;
        match color {
            Color::Black => {
                me = self.black;
                opp = self.white;
            },
            Color::White => {
                me = self.white;
                opp = self.black;
            },
        }
        let rev: u64 = flips_at(me, opp, x, y);
        if rev == 0 {
            return false;
        }
        let pos: u64 = 1u64 << i;
        proof {
            lemma_flip_mask_in_opp(me, opp, x as int, y as int);
            let b: u64 = self.black;
            let w: u64 = self.white;
            assert(me & opp == 0 && ((me >> i) & 1u64 != 1u64) && ((opp >> i) & 1u64 != 1u64))
                by (bit_vector)
                requires
                    b & w == 0,
                    ((b | w) >> i) & 1u64 != 1u64,
                    me == b && opp == w || me == w && opp == b,
            ;
            assert((me | pos | rev) & (opp & !rev) == 0 && (opp & !rev) & (me | pos | rev) == 0)
                by (bit_vector)
                requires
                    me & opp == 0,
                    rev & !opp == 0,
                    i < 64,
                    pos == 1u64 << i,
                    (me >> i) & 1u64 != 1u64,
                    (opp >> i) & 1u64 != 1u64,
            ;
        }
        match color {
            Color::Black => {
                self.black = self.black | pos | rev;
                self.white = self.white & !rev;
            },
            Color::White => {
                self.white = self.white | pos | rev;
                self.black = self.black & !rev;
            },
        }
        true
    }
}

/// A unit step along one of the eight compass directions.
pub open spec fn dir_ok(dx: int, dy: int) -> bool {
    -1 <= dx <= 1 && -1 <= dy <= 1 && !(dx == 0 && dy == 0)
}

/// Walking from `(x, y)` (exclusive) one step at a time along `(dx, dy)`,
/// the cells seen are zero or more of the opponent's and then one of the
/// mover's, all within `fuel` steps. Seven steps of fuel reach past any
/// capture run on an 8-wide board, which holds at most six opposing stones.
pub open spec fn ladder(me: u64, opp: u64, x: int, y: int, dx: int, dy: int, fuel: nat) -> bool
    decreases fuel,
{
    fuel > 0 && in_board(x + dx, y + dy) && (cell(me, x + dx, y + dy) || (cell(
        opp,
        x + dx,
        y + dy,
    ) && ladder(me, opp, x + dx, y + dy, dx, dy, (fuel - 1) as nat)))
}

/// The contiguous run of opponent-held cells seen when walking from
/// `(x, y)` (exclusive) along `(dx, dy)`, as a bitmask; the walk stops at
/// the board edge, at an empty cell, at a mover's stone, or after `fuel`
/// steps.
pub open spec fn run_mask(me: u64, opp: u64, x: int, y: int, dx: int, dy: int, fuel: nat) -> u64
    decreases fuel,
{
    if fuel > 0 && in_board(x + dx, y + dy) && !cell(me, x + dx, y + dy) && cell(
        opp,
        x + dx,
        y + dy,
    ) {
        run_mask(me, opp, x + dx, y + dy, dx, dy, (fuel - 1) as nat) | (1u64 << idx(x + dx, y + dy))
    } else {
        0u64
    }
}

/// The stones flipped in direction `(dx, dy)` by a stone placed at `(x, y)`:
/// the walked run of opposing stones when it ends on a mover's stone, and
/// nothing at all otherwise.
pub open spec fn dir_flips(me: u64, opp: u64, x: int, y: int, dx: int, dy: int) -> u64 {
    if ladder(me, opp, x, y, dx, dy, 7) {
        run_mask(me, opp, x, y, dx, dy, 7)
    } else {
        0u64
    }
}

/// All stones flipped by a stone placed at `(x, y)`: the union of the eight
/// directions' captured runs.
pub open spec fn flip_mask(me: u64, opp: u64, x: int, y: int) -> u64 {
    dir_flips(me, opp, x, y, 1, 0) | dir_flips(me, opp, x, y, -1, 0) | dir_flips(
        me,
        opp,
        x,
        y,
        0,
        1,
    ) | dir_flips(me, opp, x, y, 0, -1) | dir_flips(me, opp, x, y, 1, 1) | dir_flips(
        me,
        opp,
        x,
        y,
        1,
        -1,
    ) | dir_flips(me, opp, x, y, -1, 1) | dir_flips(me, opp, x, y, -1, -1)
}

/// Placing `c` at `(x, y)` is legal on the board `(black, white)`: the cell
/// is on the board, empty, and the placement flips at least one stone.
pub open spec fn is_legal_cells(black: u64, white: u64, c: Color, x: int, y: int) -> bool {
    in_board(x, y) && !bit(black | white, idx(x, y)) && flip_mask(
        me_of(black, white, c),
        opp_of(black, white, c),
        x,
        y,
    ) != 0
}

/// Walks one direction, returning whether the walk ends on a mover's stone
/// and the run of opponent-held cells crossed on the way.
fn walk_dir(me: u64, opp: u64, x: i32, y: i32, dx: i32, dy: i32, fuel: u8) -> (r: (bool, u64))
    requires
        0 <= x < 8,
        0 <= y < 8,
        -1 <= dx <= 1,
        -1 <= dy <= 1,
    ensures
        r.0 == ladder(me, opp, x as int, y as int, dx as int, dy as int, fuel as nat),
        r.1 == run_mask(me, opp, x as int, y as int, dx as int, dy as int, fuel as nat),
    decreases fuel,
{
    if fuel == 0 {
        (false, 0u64)
    } else {
        let nx: i32 = x + dx;
        let ny: i32 = y + dy;
        if nx < 0 || 8 <= nx || ny < 0 || 8 <= ny {
            (false, 0u64)
        } else {
            let ni: u64 = (ny * 8 + nx) as u64;
            assert(ni == idx(nx as int, ny as int));
            if (me >> ni) & 1u64 == 1u64 {
                (true, 0u64)
            } else if (opp >> ni) & 1u64 == 1u64 {
                let r2: (bool, u64) = walk_dir(me, opp, nx, ny, dx, dy, fuel - 1);
                (r2.0, r2.1 | (1u64 << ni))
            } else {
                (false, 0u64)
            }
        }
    }
}

/// The flip mask for a stone of the mover placed at `(x, y)`.
fn flips_at(me: u64, opp: u64, x: i32, y: i32) -> (r: u64)
    requires
        0 <= x < 8,
        0 <= y < 8,
    ensures
        r == flip_mask(me, opp, x as int, y as int),
{
    let d0: (bool, u64) = walk_dir(me, opp, x, y, 1, 0, 7);
    let mut rev: u64 = if d0.0 {
        d0.1
    } else {
        0u64
    };
    let d1: (bool, u64) = walk_dir(me, opp, x, y, -1, 0, 7);
    rev = rev | (if d1.0 {
        d1.1
    } else {
        0u64
    });
    let d2: (bool, u64) = walk_dir(me, opp, x, y, 0, 1, 7);
    rev = rev | (if d2.0 {
        d2.1
    } else {
        0u64
    });
    let d3: (bool, u64) = walk_dir(me, opp, x, y, 0, -1, 7);
    rev = rev | (if d3.0 {
        d3.1
    } else {
        0u64
    });
    let d4: (bool, u64) = walk_dir(me, opp, x, y, 1, 1, 7);
    rev = rev | (if d4.0 {
        d4.1
    } else {
        0u64
    });
    let d5: (bool, u64) = walk_dir(me, opp, x, y, 1, -1, 7);
    rev = rev | (if d5.0 {
        d5.1
    } else {
        0u64
    });
    let d6: (bool, u64) = walk_dir(me, opp, x, y, -1, 1, 7);
    rev = rev | (if d6.0 {
        d6.1
    } else {
        0u64
    });
    let d7: (bool, u64) = walk_dir(me, opp, x, y, -1, -1, 7);
    rev = rev | (if d7.0 {
        d7.1
    } else {
        0u64
    });
    rev
}

/// One single-cell shift of a whole occupancy set along `(dx, dy)`. A
/// column edge-mask clears, before each shift that changes column, the
/// source column whose stones a raw shift would wrap into the far column
/// of a neighbouring row; purely vertical shifts need only the natural
/// truncation of bits shifted past either end of the word.
pub open spec fn spec_shift(b: u64, dx: int, dy: int) -> u64 {
    if dx == 1 && dy == 0 {
        (b & 0x7f7f7f7f7f7f7f7fu64) << 1u64
    } else if dx == -1 && dy == 0 {
        (b & 0xfefefefefefefefeu64) >> 1u64
    } else if dx == 0 && dy == 1 {
        b << 8u64
    } else if dx == 0 && dy == -1 {
        b >> 8u64
    } else if dx == 1 && dy == 1 {
        (b & 0x7f7f7f7f7f7f7f7fu64) << 9u64
    } else if dx == -1 && dy == -1 {
        (b & 0xfefefefefefefefeu64) >> 9u64
    } else if dx == -1 && dy == 1 {
        (b & 0xfefefefefefefefeu64) << 7u64
    } else if dx == 1 && dy == -1 {
        (b & 0x7f7f7f7f7f7f7f7fu64) >> 7u64
    } else {
        0u64
    }
}

/// Computes one single-cell shift of an occupancy set.
fn shift_step(b: u64, dx: i32, dy: i32) -> (r: u64)
    requires
        -1 <= dx <= 1,
        -1 <= dy <= 1,
    ensures
        r == spec_shift(b, dx as int, dy as int),
{
    if dx == 1 && dy == 0 {
        (b & 0x7f7f7f7f7f7f7f7fu64) << 1u64
    } else if dx == -1 && dy == 0 {
        (b & 0xfefefefefefefefeu64) >> 1u64
    } else if dx == 0 && dy == 1 {
        b << 8u64
    } else if dx == 0 && dy == -1 {
        b >> 8u64
    } else if dx == 1 && dy == 1 {
        (b & 0x7f7f7f7f7f7f7f7fu64) << 9u64
    } else if dx == -1 && dy == -1 {
        (b & 0xfefefefefefefefeu64) >> 9u64
    } else if dx == -1 && dy == 1 {
        (b & 0xfefefefefefefefeu64) << 7u64
    } else if dx == 1 && dy == -1 {
        (b & 0x7f7f7f7f7f7f7f7fu64) >> 7u64
    } else {
        0u64
    }
}

/// A shifted occupancy set holds a cell exactly when the unshifted set
/// holds the cell one step back along the shift direction.
proof fn lemma_shift_cell(b: u64, dx: int, dy: int)
    requires
        dir_ok(dx, dy),
    ensures
        forall|x: int, y: int|
            in_board(x, y) ==> #[trigger] bit(spec_shift(b, dx, dy), idx(x, y)) == cell(
                b,
                x - dx,
                y - dy,
            ),
{
    if dx == 1 && dy == 0 {
        assert forall|x: int, y: int|
            in_board(x, y) implies #[trigger] bit(spec_shift(b, dx, dy), idx(x, y)) == cell(
            b,
            x - dx,
            y - dy,
        ) by {
            let xu: u64 = x as u64;
            let yu: u64 = y as u64;
            assert(((((b & 0x7f7f7f7f7f7f7f7fu64) << 1u64) >> ((yu * 8 + xu) as u64)) & 1u64
                == 1u64) == (1 <= xu && ((b >> ((yu * 8 + xu - 1) as u64)) & 1u64 == 1u64))) by (bit_vector)
                requires
                    xu < 8,
                    yu < 8,
            ;
            assert(idx(x, y) == (yu * 8 + xu) as u64);
            if 1 <= x {
                assert(idx(x - 1, y) == (yu * 8 + xu - 1) as u64);
            }
        }
    } else if dx == -1 && dy == 0 {
        assert forall|x: int, y: int|
            in_board(x, y) implies #[trigger] bit(spec_shift(b, dx, dy), idx(x, y)) == cell(
            b,
            x - dx,
            y - dy,
        ) by {
            let xu: u64 = x as u64;
            let yu: u64 = y as u64;
            assert(((((b & 0xfefefefefefefefeu64) >> 1u64) >> ((yu * 8 + xu) as u64)) & 1u64
                == 1u64) == (xu < 7 && ((b >> ((yu * 8 + xu + 1) as u64)) & 1u64 == 1u64))) by (bit_vector)
                requires
                    xu < 8,
                    yu < 8,
            ;
            assert(idx(x, y) == (yu * 8 + xu) as u64);
            if x < 7 {
                assert(idx(x + 1, y) == (yu * 8 + xu + 1) as u64);
            }
        }
    } else if dx == 0 && dy == 1 {
        assert forall|x: int, y: int|
            in_board(x, y) implies #[trigger] bit(spec_shift(b, dx, dy), idx(x, y)) == cell(
            b,
            x - dx,
            y - dy,
        ) by {
            let xu: u64 = x as u64;
            let yu: u64 = y as u64;
            assert((((b << 8u64) >> ((yu * 8 + xu) as u64)) & 1u64 == 1u64) == (1 <= yu && ((b >> ((
            yu * 8 + xu - 8) as u64)) & 1u64 == 1u64))) by (bit_vector)
                requires
                    xu < 8,
                    yu < 8,
            ;
            assert(idx(x, y) == (yu * 8 + xu) as u64);
            if 1 <= y {
                assert(idx(x, y - 1) == (yu * 8 + xu - 8) as u64);
            }
        }
    } else if dx == 0 && dy == -1 {
        assert forall|x: int, y: int|
            in_board(x, y) implies #[trigger] bit(spec_shift(b, dx, dy), idx(x, y)) == cell(
            b,
            x - dx,
            y - dy,
        ) by {
            let xu: u64 = x as u64;
            let yu: u64 = y as u64;
            assert((((b >> 8u64) >> ((yu * 8 + xu) as u64)) & 1u64 == 1u64) == (yu < 7 && ((b >> ((
            yu * 8 + xu + 8) as u64)) & 1u64 == 1u64))) by (bit_vector)
                requires
                    xu < 8,
                    yu < 8,
            ;
            assert(idx(x, y) == (yu * 8 + xu) as u64);
            if y < 7 {
                assert(idx(x, y + 1) == (yu * 8 + xu + 8) as u64);
            }
        }
    } else if dx == 1 && dy == 1 {
        assert forall|x: int, y: int|
            in_board(x, y) implies #[trigger] bit(spec_shift(b, dx, dy), idx(x, y)) == cell(
            b,
            x - dx,
            y - dy,
        ) by {
            let xu: u64 = x as u64;
            let yu: u64 = y as u64;
            assert(((((b & 0x7f7f7f7f7f7f7f7fu64) << 9u64) >> ((yu * 8 + xu) as u64)) & 1u64
                == 1u64) == (1 <= xu && 1 <= yu && ((b >> ((yu * 8 + xu - 9) as u64)) & 1u64
                == 1u64))) by (bit_vector)
                requires
                    xu < 8,
                    yu < 8,
            ;
            assert(idx(x, y) == (yu * 8 + xu) as u64);
            if 1 <= x && 1 <= y {
                assert(idx(x - 1, y - 1) == (yu * 8 + xu - 9) as u64);
            }
        }
    } else if dx == -1 && dy == -1 {
        assert forall|x: int, y: int|
            in_board(x, y) implies #[trigger] bit(spec_shift(b, dx, dy), idx(x, y)) == cell(
            b,
            x - dx,
            y - dy,
        ) by {
            let xu: u64 = x as u64;
            let yu: u64 = y as u64;
            assert(((((b & 0xfefefefefefefefeu64) >> 9u64) >> ((yu * 8 + xu) as u64)) & 1u64
                == 1u64) == (xu < 7 && yu < 7 && ((b >> ((yu * 8 + xu + 9) as u64)) & 1u64
                == 1u64))) by (bit_vector)
                requires
                    xu < 8,
                    yu < 8,
            ;
            assert(idx(x, y) == (yu * 8 + xu) as u64);
            if x < 7 && y < 7 {
                assert(idx(x + 1, y + 1) == (yu * 8 + xu + 9) as u64);
            }
        }
    } else if dx == -1 && dy == 1 {
        assert forall|x: int, y: int|
            in_board(x, y) implies #[trigger] bit(spec_shift(b, dx, dy), idx(x, y)) == cell(
            b,
            x - dx,
            y - dy,
        ) by {
            let xu: u64 = x as u64;
            let yu: u64 = y as u64;
            assert(((((b & 0xfefefefefefefefeu64) << 7u64) >> ((yu * 8 + xu) as u64)) & 1u64
                == 1u64) == (xu < 7 && 1 <= yu && ((b >> ((yu * 8 + xu - 7) as u64)) & 1u64
                == 1u64))) by (bit_vector)
                requires
                    xu < 8,
                    yu < 8,
            ;
            assert(idx(x, y) == (yu * 8 + xu) as u64);
            if x < 7 && 1 <= y {
                assert(idx(x + 1, y - 1) == (yu * 8 + xu - 7) as u64);
            }
        }
    } else {
        assert forall|x: int, y: int|
            in_board(x, y) implies #[trigger] bit(spec_shift(b, dx, dy), idx(x, y)) == cell(
            b,
            x - dx,
            y - dy,
        ) by {
            let xu: u64 = x as u64;
            let yu: u64 = y as u64;
            assert(((((b & 0x7f7f7f7f7f7f7f7fu64) >> 7u64) >> ((yu * 8 + xu) as u64)) & 1u64
                == 1u64) == (1 <= xu && yu < 7 && ((b >> ((yu * 8 + xu + 7) as u64)) & 1u64
                == 1u64))) by (bit_vector)
                requires
                    xu < 8,
                    yu < 8,
            ;
            assert(idx(x, y) == (yu * 8 + xu) as u64);
            if 1 <= x && y < 7 {
                assert(idx(x - 1, y + 1) == (yu * 8 + xu + 7) as u64);
            }
        }
    }
}

/// A walk that succeeds within some fuel also succeeds with one step more.
proof fn lemma_ladder_mono(me: u64, opp: u64, x: int, y: int, dx: int, dy: int, fuel: nat)
    ensures
        ladder(me, opp, x, y, dx, dy, fuel) ==> ladder(me, opp, x, y, dx, dy, fuel + 1),
    decreases fuel,
{
    if fuel > 0 && ladder(me, opp, x, y, dx, dy, fuel) {
        lemma_ladder_mono(me, opp, x + dx, y + dy, dx, dy, (fuel - 1) as nat);
    }
}

/// One direction of the bulk legal-move computation. Starting from the
/// mover's stones, the frontier of contiguous opponent stones is extended
/// one masked shift at a time; one further shift lands on the empty cells
/// reachable through a capture run. The shift direction `(dx, dy)` locates
/// landing cells whose capture run lies along the opposite walk direction.
fn legal_dir(me: u64, opp: u64, blank: u64, dx: i32, dy: i32) -> (r: u64)
    requires
        me & opp == 0,
        blank == !(me | opp),
        dir_ok(dx as int, dy as int),
    ensures
        forall|x: int, y: int|
            in_board(x, y) ==> #[trigger] bit(r, idx(x, y)) == (bit(blank, idx(x, y)) && dir_flips(
                me,
                opp,
                x,
                y,
                -(dx as int),
                -(dy as int),
            ) != 0),
{
    let ghost wx: int = -(dx as int);
    let ghost wy: int = -(dy as int);
    let s0: u64 = shift_step(me, dx, dy);
    let mut t: u64 = s0 & opp;
    proof {
        lemma_bit_ops();
        lemma_shift_cell(me, dx as int, dy as int);
        assert forall|x: int, y: int| in_board(x, y) implies #[trigger] bit(t, idx(x, y)) == (cell(
            opp,
            x,
            y,
        ) && ladder(me, opp, x, y, wx, wy, 1)) by {
            assert(bit(s0, idx(x, y)) == cell(me, x - dx as int, y - dy as int));
            assert(!ladder(me, opp, x + wx, y + wy, wx, wy, 0));
        }
    }
    let mut k: u8 = 1;
    while k < 6
        invariant
            1 <= k <= 6,
            me & opp == 0,
            -1 <= dx <= 1,
            -1 <= dy <= 1,
            dir_ok(dx as int, dy as int),
            wx == -(dx as int),
            wy == -(dy as int),
            forall|x: int, y: int|
                in_board(x, y) ==> #[trigger] bit(t, idx(x, y)) == (cell(opp, x, y) && ladder(
                    me,
                    opp,
                    x,
                    y,
                    wx,
                    wy,
                    k as nat,
                )),
        decreases 6 - k,
    {
        let s: u64 = shift_step(t, dx, dy);
        let ghost tprev: u64 = t;
        t = t | (s & opp);
        proof {
            lemma_bit_ops();
            lemma_shift_cell(tprev, dx as int, dy as int);
            assert forall|x: int, y: int|
                in_board(x, y) implies #[trigger] bit(t, idx(x, y)) == (cell(opp, x, y) && ladder(
                me,
                opp,
                x,
                y,
                wx,
                wy,
                (k + 1) as nat,
            )) by {
                lemma_ladder_mono(me, opp, x, y, wx, wy, k as nat);
                assert(bit(s, idx(x, y)) == cell(tprev, x - dx as int, y - dy as int));
                if in_board(x + wx, y + wy) {
                    assert(bit(tprev, idx(x + wx, y + wy)) == (cell(opp, x + wx, y + wy) && ladder(
                        me,
                        opp,
                        x + wx,
                        y + wy,
                        wx,
                        wy,
                        k as nat,
                    )));
                }
            }
        }
        k = k + 1;
    }
    let land: u64 = shift_step(t, dx, dy);
    let r: u64 = land & blank;
    proof {
        lemma_bit_ops();
        lemma_shift_cell(t, dx as int, dy as int);
        assert forall|x: int, y: int| in_board(x, y) implies #[trigger] bit(r, idx(x, y)) == (bit(
            blank,
            idx(x, y),
        ) && dir_flips(me, opp, x, y, wx, wy) != 0) by {
            assert(bit(land, idx(x, y)) == cell(t, x - dx as int, y - dy as int));
            if in_board(x + wx, y + wy) {
                let j: u64 = idx(x + wx, y + wy);
                assert(bit(t, j) == (cell(opp, x + wx, y + wy) && ladder(
                    me,
                    opp,
                    x + wx,
                    y + wy,
                    wx,
                    wy,
                    6,
                )));
                assert(bit(me & opp, j) == (bit(me, j) && bit(opp, j)));
                assert(!bit(0u64, j));
                if cell(opp, x + wx, y + wy) && !cell(me, x + wx, y + wy) {
                    assert(run_mask(me, opp, x, y, wx, wy, 7) == run_mask(
                        me,
                        opp,
                        x + wx,
                        y + wy,
                        wx,
                        wy,
                        6,
                    ) | (1u64 << j));
                }
            }
        }
    }
    r
}

/// A walked run holds only opponent-held cells.
proof fn lemma_run_mask_in_opp(me: u64, opp: u64, x: int, y: int, dx: int, dy: int, fuel: nat)
    ensures
        run_mask(me, opp, x, y, dx, dy, fuel) & !opp == 0,
    decreases fuel,
{
    if fuel > 0 && in_board(x + dx, y + dy) && !cell(me, x + dx, y + dy) && cell(
        opp,
        x + dx,
        y + dy,
    ) {
        lemma_run_mask_in_opp(me, opp, x + dx, y + dy, dx, dy, (fuel - 1) as nat);
        let m: u64 = run_mask(me, opp, x + dx, y + dy, dx, dy, (fuel - 1) as nat);
        let j: u64 = idx(x + dx, y + dy);
        assert((m | (1u64 << j)) & !opp == 0) by (bit_vector)
            requires
                m & !opp == 0,
                j < 64,
                (opp >> j) & 1u64 == 1u64,
        ;
    } else {
        assert(0u64 & !opp == 0) by (bit_vector);
    }
}

/// The whole flip mask holds only opponent-held cells.
proof fn lemma_flip_mask_in_opp(me: u64, opp: u64, x: int, y: int)
    ensures
        flip_mask(me, opp, x, y) & !opp == 0,
{
    lemma_run_mask_in_opp(me, opp, x, y, 1, 0, 7);
    lemma_run_mask_in_opp(me, opp, x, y, -1, 0, 7);
    lemma_run_mask_in_opp(me, opp, x, y, 0, 1, 7);
    lemma_run_mask_in_opp(me, opp, x, y, 0, -1, 7);
    lemma_run_mask_in_opp(me, opp, x, y, 1, 1, 7);
    lemma_run_mask_in_opp(me, opp, x, y, 1, -1, 7);
    lemma_run_mask_in_opp(me, opp, x, y, -1, 1, 7);
    lemma_run_mask_in_opp(me, opp, x, y, -1, -1, 7);
    let a0: u64 = dir_flips(me, opp, x, y, 1, 0);
    let a1: u64 = dir_flips(me, opp, x, y, -1, 0);
    let a2: u64 = dir_flips(me, opp, x, y, 0, 1);
    let a3: u64 = dir_flips(me, opp, x, y, 0, -1);
    let a4: u64 = dir_flips(me, opp, x, y, 1, 1);
    let a5: u64 = dir_flips(me, opp, x, y, 1, -1);
    let a6: u64 = dir_flips(me, opp, x, y, -1, 1);
    let a7: u64 = dir_flips(me, opp, x, y, -1, -1);
    assert(0u64 & !opp == 0) by (bit_vector);
    assert((a0 | a1 | a2 | a3 | a4 | a5 | a6 | a7) & !opp == 0) by (bit_vector)
        requires
            a0 & !opp == 0,
            a1 & !opp == 0,
            a2 & !opp == 0,
            a3 & !opp == 0,
            a4 & !opp == 0,
            a5 & !opp == 0,
            a6 & !opp == 0,
            a7 & !opp == 0,
    ;
}

/// The legal-move mask restricted to cells with bit index `i` and up: bit
/// `j` is set exactly when placing `c` on the cell of index `j` is legal.
pub open spec fn legal_mask_from(black: u64, white: u64, c: Color, i: int) -> u64
    decreases 64 - i,
{
    if i < 0 || 64 <= i {
        0u64
    } else {
        (if is_legal_cells(black, white, c, i % 8, i / 8) {
            1u64 << (i as u64)
        } else {
            0u64
        }) | legal_mask_from(black, white, c, i + 1)
    }
}

/// Bit `j` of the restricted legal-move mask is set exactly when `j` is in
/// the restriction and the cell of index `j` is a legal placement.
proof fn lemma_legal_mask_from_bit(black: u64, white: u64, c: Color, i: int, j: u64)
    requires
        0 <= i <= 64,
    ensures
        bit(legal_mask_from(black, white, c, i), j) == (i <= j < 64 && is_legal_cells(
            black,
            white,
            c,
            (j as int) % 8,
            (j as int) / 8,
        )),
    decreases 64 - i,
{
    lemma_bit_ops();
    if i < 64 {
        lemma_legal_mask_from_bit(black, white, c, i + 1, j);
        let head: u64 = if is_legal_cells(black, white, c, i % 8, i / 8) {
            1u64 << (i as u64)
        } else {
            0u64
        };
        let rest: u64 = legal_mask_from(black, white, c, i + 1);
        assert(legal_mask_from(black, white, c, i) == head | rest);
        assert(bit(head | rest, j) == (bit(head, j) || bit(rest, j)));
        assert(bit(1u64 << (i as u64), j) == (j == i as u64));
    }
}

/// The `(x, y)` pairs of the set bits of `m` with index `i` and up, in
/// ascending bit-index order: row-major, top to bottom, left to right.
pub open spec fn coords_from(m: u64, i: int) -> Seq<(u8, u8)>
    decreases 64 - i,
{
    if i < 0 || 64 <= i {
        Seq::empty()
    } else if bit(m, i as u64) {
        seq![(((i % 8) as u8), ((i / 8) as u8))] + coords_from(m, i + 1)
    } else {
        coords_from(m, i + 1)
    }
}

/// A pair is listed among the coordinates of `m` exactly when it names a
/// set bit of `m` in the listed range.
proof fn lemma_coords_from_contains(m: u64, i: int, p: (u8, u8))
    requires
        0 <= i <= 64,
    ensures
        coords_from(m, i).contains(p) == (exists|j: int|
            i <= j < 64 && #[trigger] bit(m, j as u64) && p == (((j % 8) as u8), ((j / 8) as u8))),
    decreases 64 - i,
{
    if i < 64 {
        lemma_coords_from_contains(m, i + 1, p);
        let s = coords_from(m, i);
        let rest = coords_from(m, i + 1);
        if bit(m, i as u64) {
            let ps = seq![(((i % 8) as u8), ((i / 8) as u8))];
            assert(s == ps + rest);
            if s.contains(p) {
                let k = choose|k: int| 0 <= k < s.len() && s[k] == p;
                if k == 0 {
                    assert(i <= i < 64 && bit(m, i as u64) && p == (((i % 8) as u8), ((
                    i / 8) as u8)));
                } else {
                    assert(rest[k - 1] == p);
                    assert(rest.contains(p));
                }
            }
            if exists|j: int|
                i <= j < 64 && #[trigger] bit(m, j as u64) && p == (((j % 8) as u8), ((j / 8) as u8)) {
                let j = choose|j: int|
                    i <= j < 64 && #[trigger] bit(m, j as u64) && p == (((j % 8) as u8), ((j / 8) as u8));
                if j == i {
                    assert(s[0] == p);
                } else {
                    assert(rest.contains(p));
                    let k = choose|k: int| 0 <= k < rest.len() && rest[k] == p;
                    assert(s[k + 1] == p);
                }
            }
        } else {
            assert(s == rest);
        }
    }
}

/// Law: the legal-move mask marks exactly the legal placements. Bit
/// `y * 8 + x` of `b.legal_mask(c)` is set if and only if placing `c` at
/// `(x, y)` is legal, which is also exactly when `make_move(x, y, c)`
/// succeeds there.
pub proof fn lemma_legal_mask_bit(b: Board, c: Color, x: int, y: int)
    requires
        in_board(x, y),
    ensures
        bit(b.legal_mask(c), idx(x, y)) == b.is_legal(x, y, c),
{
    let j: u64 = idx(x, y);
    lemma_legal_mask_from_bit(b.spec_black(), b.spec_white(), c, 0, j);
    assert((y * 8 + x) % 8 == x && (y * 8 + x) / 8 == y) by (nonlinear_arith)
        requires
            0 <= x < 8 && 0 <= y < 8,
    ;
}

/// Law: the listed legal moves are exactly the coordinates at which placing
/// the color is legal — equivalently, at which `make_move` succeeds on a
/// copy of the board.
pub proof fn lemma_legal_moves_contains(b: Board, c: Color, x: int, y: int)
    requires
        in_board(x, y),
    ensures
        coords_from(b.legal_mask(c), 0).contains(((x as u8), (y as u8))) == b.is_legal(x, y, c),
{
    let m: u64 = b.legal_mask(c);
    let p: (u8, u8) = ((x as u8), (y as u8));
    lemma_coords_from_contains(m, 0, p);
    lemma_legal_mask_bit(b, c, x, y);
    if coords_from(m, 0).contains(p) {
        let j = choose|j: int|
            0 <= j < 64 && #[trigger] bit(m, j as u64) && p == (((j % 8) as u8), ((j / 8) as u8));
        assert(0 <= j % 8 < 8 && 0 <= j / 8 < 8 && (j / 8) * 8 + (j % 8) == j) by (nonlinear_arith)
            requires
                0 <= j < 64,
        ;
        assert(j % 8 == x && j / 8 == y);
        assert(j as u64 == idx(x, y));
    }
    if b.is_legal(x, y, c) {
        let j: int = y * 8 + x;
        assert(j % 8 == x && j / 8 == y) by (nonlinear_arith)
            requires
                0 <= x < 8 && 0 <= y < 8 && j == y * 8 + x,
        ;
        assert(0 <= j < 64 && #[trigger] bit(m, j as u64) && p == (((j % 8) as u8), ((j / 8) as u8)));
    }
}

/// The bit index a coordinate pair stands for.
pub open spec fn pair_idx(p: (u8, u8)) -> int {
    p.1 * 8 + p.0
}

/// Law: a coordinate listing walks the bit indices upward, so it comes in
/// ascending bit-index order: row-major, top to bottom, left to right. Every
/// listed index also lies in the listed range.
pub proof fn lemma_coords_from_ascending(m: u64, i: int)
    requires
        0 <= i <= 64,
    ensures
        forall|k: int|
            0 <= k < coords_from(m, i).len() ==> i <= #[trigger] pair_idx(coords_from(m, i)[k])
                < 64,
        forall|k1: int, k2: int|
            0 <= k1 < k2 < coords_from(m, i).len() ==> pair_idx(coords_from(m, i)[k1]) < pair_idx(
                coords_from(m, i)[k2],
            ),
    decreases 64 - i,
{
    if i < 64 {
        lemma_coords_from_ascending(m, i + 1);
        let s = coords_from(m, i);
        let rest = coords_from(m, i + 1);
        if bit(m, i as u64) {
            let p: (u8, u8) = (((i % 8) as u8), ((i / 8) as u8));
            assert(s == seq![p] + rest);
            assert(pair_idx(p) == i) by (nonlinear_arith)
                requires
                    0 <= i < 64 && p == (((i % 8) as u8), ((i / 8) as u8)),
            ;
            assert forall|k: int| 0 <= k < s.len() implies i <= #[trigger] pair_idx(s[k])
                < 64 by {
                if k > 0 {
                    assert(s[k] == rest[k - 1]);
                }
            }
            assert forall|k1: int, k2: int| 0 <= k1 < k2 < s.len() implies pair_idx(s[k1])
                < pair_idx(s[k2]) by {
                assert(s[k2] == rest[k2 - 1]);
                if k1 > 0 {
                    assert(s[k1] == rest[k1 - 1]);
                }
            }
        }
    }
}

/// Law: what a legality query returns depends on the two occupancy masks
/// and the color alone, so repeated calls on an unmodified board answer
/// the same.
pub proof fn lemma_legal_mask_deterministic(a: Board, b: Board, c: Color)
    requires
        a.spec_black() == b.spec_black(),
        a.spec_white() == b.spec_white(),
    ensures
        a.legal_mask(c) == b.legal_mask(c),
{
}

/// Law: the two raw masks are a complete, lossless serialization of the
/// board: boards with equal masks are one board.
pub proof fn lemma_bits_identify_board(a: Board, b: Board)
    requires
        a.spec_black() == b.spec_black(),
        a.spec_white() == b.spec_white(),
    ensures
        a == b,
{
}

/// How many of the bits from index `i` up are set in `b`.
pub open spec fn count_bits_from(b: u64, i: int) -> nat
    decreases 64 - i,
{
    if i < 0 || 64 <= i {
        0
    } else {
        (if bit(b, i as u64) {
            1nat
        } else {
            0nat
        }) + count_bits_from(b, i + 1)
    }
}

/// The population count of `b`: how many of its 64 bits are set.
pub open spec fn popcount(b: u64) -> nat {
    count_bits_from(b, 0)
}

/// Counts the set bits of `b` one index at a time.
fn count_ones(b: u64) -> (r: u32)
    ensures
        r == popcount(b),
{
    let mut c: u32 = 0;
    let mut i: u64 = 0;
    proof {
        lemma_count_bits_from_bound(b, 0);
    }
    while i < 64
        invariant
            0 <= i <= 64,
            c + count_bits_from(b, i as int) == popcount(b),
            c <= i,
        decreases 64 - i,
    {
        if (b >> i) & 1u64 == 1u64 {
            c = c + 1;
        }
        i = i + 1;
    }
    c
}

/// The bits from index `i` up number at most `64 - i`.
proof fn lemma_count_bits_from_bound(b: u64, i: int)
    requires
        0 <= i <= 64,
    ensures
        count_bits_from(b, i) <= 64 - i,
    decreases 64 - i,
{
    if i < 64 {
        lemma_count_bits_from_bound(b, i + 1);
    }
}

} // verus!
