//! The board and its shift engine: a `size` x `size` playable grid of
//! labeled tiles with a one-cell border of empty buffer tiles, where a whole
//! row or column slides by at most one cell per shift. A shift is resolved
//! from a pointer drag, clamped by which end of the line the buffer tile
//! currently occupies, previewed as a continuous render offset, and committed
//! as a discrete grid step.

use vstd::prelude::*;

verus! {

use crate::geometry::{div_trunc, div_trunc_units, Point, BOARD_SIZE, MAX_COORD};
use vstd::math::abs;
use vstd::arithmetic::div_mod::{
    lemma_fundamental_div_mod,
    lemma_fundamental_div_mod_converse,
    lemma_div_is_ordered_by_denominator,
};

/// One cell's worth of content. `grid_position` is the logical cell the tile
/// occupies, mutated only when a shift commits; `render_position` is its
/// continuous on-screen position in board units, mutated every frame;
/// `label` is `None` for the empty border/buffer tiles.
#[derive(Clone, Copy, Debug)]
pub struct Tile {
    pub grid_position: Point,
    pub render_position: Point,
    pub label: Option<u32>,
}

/// The board: all tiles plus the playable region's side length. The total
/// footprint is `(size + 2) x (size + 2)` cells, counting the border ring,
/// though only `size * size + 2 * size` cells hold a tile at any time.
pub struct Board {
    pub tiles: Vec<Tile>,
    pub size: i8,
}

/// The side of one tile in board units.
pub open spec fn tile_size_of(size: int) -> int {
    (BOARD_SIZE as int) / (size + 2)
}

/// The tile's logical x coordinate, as a mathematical integer.
pub open spec fn gx(t: Tile) -> int {
    t.grid_position.x as int
}

/// The tile's logical y coordinate.
pub open spec fn gy(t: Tile) -> int {
    t.grid_position.y as int
}

/// The tile's render x coordinate.
pub open spec fn rx(t: Tile) -> int {
    t.render_position.x as int
}

/// The tile's render y coordinate.
pub open spec fn ry(t: Tile) -> int {
    t.render_position.y as int
}

/// Whether tile `t` occupies logical cell `(x, y)`.
pub open spec fn at_cell(t: Tile, x: int, y: int) -> bool {
    gx(t) == x && gy(t) == y
}

/// Whether some tile of `tiles` occupies logical cell `(x, y)`.
pub open spec fn occ(tiles: Seq<Tile>, x: int, y: int) -> bool {
    exists|i: int| 0 <= i < tiles.len() && #[trigger] at_cell(tiles[i], x, y)
}

/// A single tile is in a legal state for a board of side `size`: its cell
/// lies in the playable region or on the reachable part of the border ring
/// (never a corner), and its render position is within one tile of its
/// cell's pixel origin.
pub open spec fn tile_ok(t: Tile, size: int) -> bool {
    let ts = tile_size_of(size);
    &&& {
        ||| (1 <= gx(t) <= size && 1 <= gy(t) <= size)
        ||| ((gx(t) == 0 || gx(t) == size + 1) && 1 <= gy(t) <= size)
        ||| ((gy(t) == 0 || gy(t) == size + 1) && 1 <= gx(t) <= size)
    }
    &&& abs(rx(t) - gx(t) * ts) <= ts
    &&& abs(ry(t) - gy(t) * ts) <= ts
}

/// The board invariant, stated over the tile sequence:
/// - there are exactly `size * size + 2 * size` tiles;
/// - every tile is in a legal cell, with its render position near its cell;
/// - no two tiles share a cell;
/// - every playable cell is occupied;
/// - each playable row has its buffer tile at exactly one of its two ends,
///   and likewise each playable column.
pub open spec fn wf_tiles(tiles: Seq<Tile>, size: int) -> bool {
    &&& tiles.len() == size * size + 2 * size
    &&& (forall|i: int| 0 <= i < tiles.len() ==> #[trigger] tile_ok(tiles[i], size))
    &&& (forall|i: int, j: int|
        #![trigger tiles[i], tiles[j]]
        0 <= i < tiles.len() && 0 <= j < tiles.len() && i != j ==> !(gx(tiles[i]) == gx(
            tiles[j],
        ) && gy(tiles[i]) == gy(tiles[j])))
    &&& (forall|x: int, y: int| 1 <= x <= size && 1 <= y <= size ==> occ(tiles, x, y))
    &&& (forall|y: int|
        1 <= y <= size ==> (#[trigger] occ(tiles, 0, y) <==> !occ(tiles, size + 1, y)))
    &&& (forall|x: int|
        1 <= x <= size ==> (#[trigger] occ(tiles, x, 0) <==> !occ(tiles, x, size + 1)))
}

/// Whether a pointer coordinate pair is within the engine's accepted range.
pub open spec fn coord_ok(p: Point) -> bool {
    &&& -MAX_COORD <= p.x <= MAX_COORD
    &&& -MAX_COORD <= p.y <= MAX_COORD
}

impl Board {
    /// The board invariant plus the legal range of `size`.
    pub open spec fn wf(&self) -> bool {
        &&& 1 <= self.size <= 11
        &&& wf_tiles(self.tiles@, self.size as int)
    }
}

/// `v` clamped into `[lo, hi]`.
pub open spec fn clamp_i(v: int, lo: int, hi: int) -> int {
    if v < lo {
        lo
    } else if v > hi {
        hi
    } else {
        v
    }
}

/// Quantization of a continuous displacement to a grid step: a displacement
/// strictly beyond half a tile snaps to a full step, anything else to zero.
pub open spec fn grid_step(d: int, ts: int) -> int {
    if 2 * d > ts {
        1
    } else if 2 * d < -ts {
        -1
    } else {
        0
    }
}

/// A displacement exactly at the half-tile threshold resolves to no step at
/// all; only strictly passing the threshold moves the line. The boundary is
/// a deliberate policy of the quantization.
pub proof fn lemma_grid_step_half(d: int, ts: int)
    requires
        ts > 0,
        2 * d == ts || 2 * d == -ts,
    ensures
        grid_step(d, ts) == 0,
{
}

/// The row of cells a pointer position falls into.
pub open spec fn row_of(from: Point, ts: int) -> int {
    div_trunc(from.y as int, ts)
}

/// The column of cells a pointer position falls into.
pub open spec fn col_of(from: Point, ts: int) -> int {
    div_trunc(from.x as int, ts)
}

/// The horizontal component of the resolved shift vector for a drag from
/// `from` to `to`: the raw horizontal displacement, clamped to zero in the
/// direction the row cannot move. A row can only move away from its buffer
/// tile's end, and a drag starting outside the playable rows cannot move
/// horizontally at all.
pub open spec fn shift_vx(tiles: Seq<Tile>, size: int, from: Point, to: Point) -> int {
    let ts = tile_size_of(size);
    let row = row_of(from, ts);
    if 0 < row && row < size + 1 {
        if occ(tiles, 0, row) {
            vstd::math::max(to.x - from.x, 0)
        } else {
            vstd::math::min(to.x - from.x, 0)
        }
    } else {
        0
    }
}

/// The vertical component of the resolved shift vector, mirroring
/// `shift_vx` with the column's top/bottom buffer occupancy.
pub open spec fn shift_vy(tiles: Seq<Tile>, size: int, from: Point, to: Point) -> int {
    let ts = tile_size_of(size);
    let col = col_of(from, ts);
    if 0 < col && col < size + 1 {
        if occ(tiles, col, 0) {
            vstd::math::max(to.y - from.y, 0)
        } else {
            vstd::math::min(to.y - from.y, 0)
        }
    } else {
        0
    }
}

/// Whether the resolved drag is read as a horizontal shift: the axis of
/// strictly larger magnitude wins, a tie going to the vertical axis.
pub open spec fn shift_is_horizontal(tiles: Seq<Tile>, size: int, from: Point, to: Point) -> bool {
    abs(shift_vx(tiles, size, from, to)) > abs(shift_vy(tiles, size, from, to))
}

/// How one tile changes under a horizontal shift of row `row` by grid step
/// `step` and render displacement `dist`: tiles of the row move; then any
/// tile standing in column `col` (judged after the move) has its render y
/// snapped back onto its cell.
pub open spec fn shift_tile_h(t: Tile, row: int, col: int, step: int, dist: int, ts: int) -> Tile {
    let t1 = if gy(t) == row {
        Tile {
            grid_position: Point { x: (gx(t) + step) as i64, y: t.grid_position.y },
            render_position: Point { x: (gx(t) * ts + dist) as i64, y: t.render_position.y },
            label: t.label,
        }
    } else {
        t
    };
    if gx(t1) == col {
        Tile {
            grid_position: t1.grid_position,
            render_position: Point { x: t1.render_position.x, y: (gy(t1) * ts) as i64 },
            label: t1.label,
        }
    } else {
        t1
    }
}

/// How one tile changes under a vertical shift of column `col`, mirroring
/// `shift_tile_h`: tiles of row `row` have their render x snapped first,
/// then the column's tiles move.
pub open spec fn shift_tile_v(t: Tile, row: int, col: int, step: int, dist: int, ts: int) -> Tile {
    let t1 = if gy(t) == row {
        Tile {
            grid_position: t.grid_position,
            render_position: Point { x: (gx(t) * ts) as i64, y: t.render_position.y },
            label: t.label,
        }
    } else {
        t
    };
    if gx(t1) == col {
        Tile {
            grid_position: Point { x: t1.grid_position.x, y: (gy(t1) + step) as i64 },
            render_position: Point { x: t1.render_position.x, y: (gy(t1) * ts + dist) as i64 },
            label: t1.label,
        }
    } else {
        t1
    }
}

/// The whole board after a shift resolved from a drag of `from` to `to`:
/// the dominant axis of the resolved vector is applied to the row or column
/// containing `from`. A committing shift applies the quantized grid step
/// and lands every moved tile exactly on its new cell; a preview applies no
/// grid step and a render displacement clamped to one tile.
pub open spec fn shift_spec(
    tiles: Seq<Tile>,
    size: int,
    from: Point,
    to: Point,
    commit: bool,
) -> Seq<Tile> {
    let ts = tile_size_of(size);
    let row = row_of(from, ts);
    let col = col_of(from, ts);
    let vx = shift_vx(tiles, size, from, to);
    let vy = shift_vy(tiles, size, from, to);
    if abs(vx) > abs(vy) {
        let step = if commit {
            grid_step(vx, ts)
        } else {
            0
        };
        let dist = if commit {
            step * ts
        } else {
            clamp_i(vx, -ts, ts)
        };
        tiles.map_values(|t: Tile| shift_tile_h(t, row, col, step, dist, ts))
    } else {
        let step = if commit {
            grid_step(vy, ts)
        } else {
            0
        };
        let dist = if commit {
            step * ts
        } else {
            clamp_i(vy, -ts, ts)
        };
        tiles.map_values(|t: Tile| shift_tile_v(t, row, col, step, dist, ts))
    }
}

/// The tile at position `k` of a freshly built board's tile sequence. Tiles
/// are laid out in blocks of `size + 2` per playable column `x`: first that
/// column's `size` labeled tiles (labels run row-major: `x + size * (y - 1)`
/// at cell `(x, y)`), then the column's top buffer tile at `(x, 0)`, then
/// the row buffer tile at `(0, x)`.
pub open spec fn new_tile_at(k: int, size: int) -> Tile {
    let ts = tile_size_of(size);
    let b = k / (size + 2);
    let r = k % (size + 2);
    if r < size {
        Tile {
            grid_position: Point { x: (b + 1) as i64, y: (r + 1) as i64 },
            render_position: Point { x: ((b + 1) * ts) as i64, y: ((r + 1) * ts) as i64 },
            label: Some(((b + 1) + size * r) as u32),
        }
    } else if r == size {
        Tile {
            grid_position: Point { x: (b + 1) as i64, y: 0 },
            render_position: Point { x: ((b + 1) * ts) as i64, y: 0 },
            label: None,
        }
    } else {
        Tile {
            grid_position: Point { x: 0, y: (b + 1) as i64 },
            render_position: Point { x: 0, y: ((b + 1) * ts) as i64 },
            label: None,
        }
    }
}

/// The tile sequence of a freshly built board.
pub open spec fn new_tiles(size: int) -> Seq<Tile> {
    Seq::new((size * (size + 2)) as nat, |k: int| new_tile_at(k, size))
}

/// The tile size of any legal board is between 76 and 333 board units.
pub proof fn lemma_ts_bounds(size: int)
    requires
        1 <= size <= 11,
    ensures
        76 <= tile_size_of(size) <= 333,
{
    lemma_div_is_ordered_by_denominator(BOARD_SIZE as int, size + 2, 13);
    lemma_div_is_ordered_by_denominator(BOARD_SIZE as int, 3, size + 2);
}

/// Decomposition of `k = b * d + r` with `0 <= r < d` is unique.
proof fn lemma_block_unique(d: int, b1: int, r1: int, b2: int, r2: int)
    requires
        d >= 1,
        0 <= r1 < d,
        0 <= r2 < d,
        b1 * d + r1 == b2 * d + r2,
    ensures
        b1 == b2,
        r1 == r2,
{
    assert(b1 == b2 && r1 == r2) by (nonlinear_arith)
        requires
            d >= 1,
            0 <= r1 < d,
            0 <= r2 < d,
            b1 * d + r1 == b2 * d + r2,
    ;
}

/// The block decomposition of an index into a fresh board's tile sequence.
proof fn lemma_new_index(k: int, size: int)
    requires
        1 <= size,
        0 <= k < size * (size + 2),
    ensures
        0 <= k / (size + 2) < size,
        0 <= k % (size + 2) < size + 2,
        k == (k / (size + 2)) * (size + 2) + k % (size + 2),
{
    lemma_fundamental_div_mod(k, size + 2);
    assert(0 <= k % (size + 2) < size + 2) by (nonlinear_arith)
        requires
            size >= 1,
            k == (size + 2) * (k / (size + 2)) + k % (size + 2),
            0 <= k < size * (size + 2),
    ;
    assert(0 <= k / (size + 2) < size) by (nonlinear_arith)
        requires
            size >= 1,
            k == (size + 2) * (k / (size + 2)) + k % (size + 2),
            0 <= k % (size + 2) < size + 2,
            0 <= k < size * (size + 2),
    ;
}

/// A fresh board's tile sequence satisfies the board invariant.
pub proof fn lemma_new_tiles_wf(size: int)
    requires
        1 <= size <= 11,
    ensures
        wf_tiles(new_tiles(size), size),
{
    let tiles = new_tiles(size);
    let ts = tile_size_of(size);
    lemma_ts_bounds(size);
    assert(size * (size + 2) == size * size + 2 * size && size * size + 2 * size >= 3) by (nonlinear_arith)
        requires
            1 <= size,
    ;

    assert forall|i: int| 0 <= i < tiles.len() implies #[trigger] tile_ok(tiles[i], size) by {
        lemma_new_index(i, size);
        let b = i / (size + 2);
        let r = i % (size + 2);
        assert(0 <= (b + 1) * ts <= 3996 && 0 <= (r + 1) * ts <= 4329) by (nonlinear_arith)
            requires
                0 <= b < size,
                0 <= r < size + 2,
                size <= 11,
                0 <= ts <= 333,
        ;
        let t = tiles[i];
        assert(t == new_tile_at(i, size));
        if r < size {
            assert(gx(t) == b + 1 && gy(t) == r + 1);
            assert(rx(t) == (b + 1) * ts && ry(t) == (r + 1) * ts);
            assert(abs(rx(t) - gx(t) * ts) == 0);
            assert(abs(ry(t) - gy(t) * ts) == 0);
        } else if r == size {
            assert(gx(t) == b + 1 && gy(t) == 0);
            assert(rx(t) == (b + 1) * ts && ry(t) == 0);
            assert(gy(t) * ts == 0) by (nonlinear_arith)
                requires
                    gy(t) == 0,
            ;
        } else {
            assert(gx(t) == 0 && gy(t) == b + 1);
            assert(rx(t) == 0 && ry(t) == (b + 1) * ts);
            assert(gx(t) * ts == 0) by (nonlinear_arith)
                requires
                    gx(t) == 0,
            ;
        }
    };

    assert forall|i: int, j: int|
        #![trigger tiles[i], tiles[j]]
        0 <= i < tiles.len() && 0 <= j < tiles.len() && i != j implies !(gx(tiles[i]) == gx(
        tiles[j],
    ) && gy(tiles[i]) == gy(tiles[j])) by {
        lemma_new_index(i, size);
        lemma_new_index(j, size);
        if gx(tiles[i]) == gx(tiles[j]) && gy(tiles[i]) == gy(tiles[j]) {
            lemma_block_unique(
                size + 2,
                i / (size + 2),
                i % (size + 2),
                j / (size + 2),
                j % (size + 2),
            );
        }
    };

    assert forall|x: int, y: int| 1 <= x <= size && 1 <= y <= size implies occ(tiles, x, y) by {
        let k = (x - 1) * (size + 2) + (y - 1);
        assert(0 <= k < size * (size + 2)) by (nonlinear_arith)
            requires
                1 <= x <= size,
                1 <= y <= size,
                k == (x - 1) * (size + 2) + (y - 1),
        ;
        lemma_fundamental_div_mod_converse(k, size + 2, x - 1, y - 1);
        assert(at_cell(tiles[k], x, y));
    };

    assert forall|y: int| 1 <= y <= size implies (#[trigger] occ(tiles, 0, y) <==> !occ(
        tiles,
        size + 1,
        y,
    )) by {
        let k = (y - 1) * (size + 2) + (size + 1);
        assert(0 <= k < size * (size + 2)) by (nonlinear_arith)
            requires
                1 <= y <= size,
                k == (y - 1) * (size + 2) + (size + 1),
        ;
        lemma_fundamental_div_mod_converse(k, size + 2, y - 1, size + 1);
        assert(at_cell(tiles[k], 0, y));
        assert(!occ(tiles, size + 1, y)) by {
            if occ(tiles, size + 1, y) {
                let i = choose|i: int|
                    0 <= i < tiles.len() && #[trigger] at_cell(tiles[i], size + 1, y);
                lemma_new_index(i, size);
            }
        };
    };

    assert forall|x: int| 1 <= x <= size implies (#[trigger] occ(tiles, x, 0) <==> !occ(
        tiles,
        x,
        size + 1,
    )) by {
        let k = (x - 1) * (size + 2) + size;
        assert(0 <= k < size * (size + 2)) by (nonlinear_arith)
            requires
                1 <= x <= size,
                k == (x - 1) * (size + 2) + size,
        ;
        lemma_fundamental_div_mod_converse(k, size + 2, x - 1, size);
        assert(at_cell(tiles[k], x, 0));
        assert(!occ(tiles, x, size + 1)) by {
            if occ(tiles, x, size + 1) {
                let i = choose|i: int|
                    0 <= i < tiles.len() && #[trigger] at_cell(tiles[i], x, size + 1);
                lemma_new_index(i, size);
            }
        };
    };
}

/// A fresh board holds exactly one labeled tile per playable cell, its label
/// the row-major number of the cell, plus one unlabeled buffer tile at the
/// top of every playable column and one at the left of every playable row —
/// and nothing else.
pub proof fn lemma_new_board_contents(size: int)
    requires
        1 <= size <= 11,
    ensures
        new_tiles(size).len() == size * size + 2 * size,
        forall|x: int, y: int| 1 <= x <= size && 1 <= y <= size ==> occ(new_tiles(size), x, y),
        forall|x: int| 1 <= x <= size ==> occ(new_tiles(size), x, 0),
        forall|y: int| 1 <= y <= size ==> occ(new_tiles(size), 0, y),
        forall|i: int|
            #![trigger new_tiles(size)[i]]
            0 <= i < new_tiles(size).len() ==> ((1 <= gx(new_tiles(size)[i]) <= size && 1 <= gy(
                new_tiles(size)[i],
            ) <= size) <==> new_tiles(size)[i].label is Some),
        forall|i: int|
            #![trigger new_tiles(size)[i]]
            0 <= i < new_tiles(size).len() && new_tiles(size)[i].label is Some ==> new_tiles(
                size,
            )[i].label == Some((gx(new_tiles(size)[i]) + size * (gy(new_tiles(size)[i]) - 1)) as u32),
{
    let tiles = new_tiles(size);
    lemma_new_tiles_wf(size);

    assert forall|i: int|
        #![trigger tiles[i]]
        0 <= i < tiles.len() implies ((1 <= gx(tiles[i]) <= size && 1 <= gy(tiles[i]) <= size)
        <==> tiles[i].label is Some) && (tiles[i].label is Some ==> tiles[i].label == Some(
        (gx(tiles[i]) + size * (gy(tiles[i]) - 1)) as u32,
    )) by {
        lemma_new_index(i, size);
    };
}

impl Board {
    /// Build the starting board: every playable cell `(x, y)` holds a tile
    /// labeled `x + size * (y - 1)` (so labels read 1 to size squared in
    /// row-major order), each playable column has its empty buffer tile at
    /// `(x, 0)` and each playable row at `(0, y)`, and every tile's render
    /// position sits exactly on its cell.
    pub fn new(size: i8) -> (b: Board)
        requires
            1 <= size <= 11,
        ensures
            b.size == size,
            b.tiles@ == new_tiles(size as int),
            b.wf(),
    {
        let s: i64 = size as i64;
        let ts: i64 = tile_size_units(size);
        let ghost sz = size as int;
        proof {
            lemma_ts_bounds(sz);
        }
        let mut tiles: Vec<Tile> = Vec::new();
        let mut x: i64 = 1;
        while x <= s
            invariant
                1 <= s <= 11,
                s == sz,
                ts == tile_size_of(sz),
                76 <= ts <= 333,
                1 <= x <= s + 1,
                tiles@.len() == (x - 1) * (s + 2),
                forall|k: int| 0 <= k < tiles@.len() ==> tiles@[k] == new_tile_at(k, sz),
            decreases s + 1 - x,
        {
            let mut y: i64 = 1;
            while y <= s
                invariant
                    1 <= s <= 11,
                    s == sz,
                    ts == tile_size_of(sz),
                    76 <= ts <= 333,
                    1 <= x <= s,
                    1 <= y <= s + 1,
                    tiles@.len() == (x - 1) * (s + 2) + (y - 1),
                    forall|k: int| 0 <= k < tiles@.len() ==> tiles@[k] == new_tile_at(k, sz),
                decreases s + 1 - y,
            {
                proof {
                    assert(1 <= x + s * (y - 1) <= 121 && 0 <= x * ts <= 3663 && 0 <= y * ts
                        <= 3663) by (nonlinear_arith)
                        requires
                            1 <= x <= s,
                            1 <= y <= s,
                            1 <= s <= 11,
                            0 <= ts <= 333,
                    ;
                }
                let label: u32 = (x + s * (y - 1)) as u32;
                let tile = Tile {
                    grid_position: Point { x, y },
                    render_position: Point { x: x * ts, y: y * ts },
                    label: Some(label),
                };
                proof {
                    let k = (x - 1) * (sz + 2) + (y - 1);
                    lemma_fundamental_div_mod_converse(k, sz + 2, x - 1, y - 1);
                }
                tiles.push(tile);
                y = y + 1;
            }
            proof {
                assert(0 <= x * ts <= 3663 && (x - 1) * (s + 2) + (s + 2) == x * (s + 2)) by (nonlinear_arith)
                    requires
                        1 <= x <= s,
                        1 <= s <= 11,
                        0 <= ts <= 333,
                ;
            }
            let top = Tile {
                grid_position: Point { x, y: 0 },
                render_position: Point { x: x * ts, y: 0 },
                label: None,
            };
            proof {
                let k = (x - 1) * (sz + 2) + sz;
                lemma_fundamental_div_mod_converse(k, sz + 2, x - 1, sz);
            }
            tiles.push(top);
            let left = Tile {
                grid_position: Point { x: 0, y: x },
                render_position: Point { x: 0, y: x * ts },
                label: None,
            };
            proof {
                let k = (x - 1) * (sz + 2) + sz + 1;
                lemma_fundamental_div_mod_converse(k, sz + 2, x - 1, sz + 1);
            }
            tiles.push(left);
            x = x + 1;
        }
        proof {
            assert(tiles@ =~= new_tiles(sz));
            lemma_new_tiles_wf(sz);
        }
        Board { tiles, size }
    }

    /// The side of one tile in board units, the drawing surface divided
    /// evenly among the playable cells and the two border cells.
    pub fn tile_size(&self) -> (ts: i64)
        requires
            1 <= self.size <= 11,
        ensures
            ts == tile_size_of(self.size as int),
            76 <= ts <= 333,
    {
        tile_size_units(self.size)
    }
}

/// The grid relation between a tile sequence and its image under a
/// horizontal shift of row `row` by `step`: cells keep their row, tiles of
/// the shifted row move `step` cells sideways, and labels ride along.
pub open spec fn h_moved(tiles: Seq<Tile>, new: Seq<Tile>, row: int, step: int) -> bool {
    &&& new.len() == tiles.len()
    &&& (forall|i: int|
        #![trigger new[i]]
        0 <= i < tiles.len() ==> gy(new[i]) == gy(tiles[i]) && new[i].label == tiles[i].label && gx(
            new[i],
        ) == gx(tiles[i]) + (if gy(tiles[i]) == row {
            step
        } else {
            0
        }))
}

/// The mirror of `h_moved` for a vertical shift of column `col`.
pub open spec fn v_moved(tiles: Seq<Tile>, new: Seq<Tile>, col: int, step: int) -> bool {
    &&& new.len() == tiles.len()
    &&& (forall|i: int|
        #![trigger new[i]]
        0 <= i < tiles.len() ==> gx(new[i]) == gx(tiles[i]) && new[i].label == tiles[i].label && gy(
            new[i],
        ) == gy(tiles[i]) + (if gx(tiles[i]) == col {
            step
        } else {
            0
        }))
}

/// How cell occupancy transfers across a horizontal shift: the shifted row
/// reads its occupancy `step` cells back, every other cell is untouched.
proof fn lemma_occ_moved_h(tiles: Seq<Tile>, new: Seq<Tile>, row: int, step: int, x: int, y: int)
    requires
        h_moved(tiles, new, row, step),
    ensures
        occ(new, x, y) <==> (if y == row {
            occ(tiles, x - step, row)
        } else {
            occ(tiles, x, y)
        }),
{
    if occ(new, x, y) {
        let i = choose|i: int| 0 <= i < new.len() && #[trigger] at_cell(new[i], x, y);
        if gy(tiles[i]) == row {
            assert(at_cell(tiles[i], x - step, row));
        } else {
            assert(at_cell(tiles[i], x, y));
        }
    }
    if y == row && occ(tiles, x - step, row) {
        let i = choose|i: int| 0 <= i < tiles.len() && #[trigger] at_cell(tiles[i], x - step, row);
        assert(at_cell(new[i], x, y));
    }
    if y != row && occ(tiles, x, y) {
        let i = choose|i: int| 0 <= i < tiles.len() && #[trigger] at_cell(tiles[i], x, y);
        assert(at_cell(new[i], x, y));
    }
}

/// The mirror of `lemma_occ_moved_h` for a vertical shift.
proof fn lemma_occ_moved_v(tiles: Seq<Tile>, new: Seq<Tile>, col: int, step: int, x: int, y: int)
    requires
        v_moved(tiles, new, col, step),
    ensures
        occ(new, x, y) <==> (if x == col {
            occ(tiles, col, y - step)
        } else {
            occ(tiles, x, y)
        }),
{
    if occ(new, x, y) {
        let i = choose|i: int| 0 <= i < new.len() && #[trigger] at_cell(new[i], x, y);
        if gx(tiles[i]) == col {
            assert(at_cell(tiles[i], col, y - step));
        } else {
            assert(at_cell(tiles[i], x, y));
        }
    }
    if x == col && occ(tiles, col, y - step) {
        let i = choose|i: int| 0 <= i < tiles.len() && #[trigger] at_cell(tiles[i], col, y - step);
        assert(at_cell(new[i], x, y));
    }
    if x != col && occ(tiles, x, y) {
        let i = choose|i: int| 0 <= i < tiles.len() && #[trigger] at_cell(tiles[i], x, y);
        assert(at_cell(new[i], x, y));
    }
}

/// A horizontal shift of a playable row, with a legal step for that row's
/// buffer occupancy, preserves the board invariant.
proof fn lemma_shift_h_wf(
    tiles: Seq<Tile>,
    size: int,
    row: int,
    col: int,
    step: int,
    dist: int,
    ts: int,
)
    requires
        1 <= size <= 11,
        wf_tiles(tiles, size),
        ts == tile_size_of(size),
        1 <= row <= size,
        -1 <= step <= 1,
        -ts <= dist <= ts,
        step != 0 ==> dist == step * ts,
        step == 1 ==> occ(tiles, 0, row),
        step == -1 ==> !occ(tiles, 0, row),
    ensures
        wf_tiles(tiles.map_values(|t: Tile| shift_tile_h(t, row, col, step, dist, ts)), size),
{
    lemma_ts_bounds(size);
    let new = tiles.map_values(|t: Tile| shift_tile_h(t, row, col, step, dist, ts));
    assert(step == -1 ==> occ(tiles, size + 1, row));

    assert forall|i: int|
        #![trigger new[i]]
        0 <= i < tiles.len() implies (gy(new[i]) == gy(tiles[i]) && new[i].label == tiles[i].label
        && gx(new[i]) == gx(tiles[i]) + (if gy(tiles[i]) == row {
        step
    } else {
        0
    }) && tile_ok(new[i], size)) by {
        assert(tile_ok(tiles[i], size));
        let t = tiles[i];
        assert(0 <= gx(t) <= size + 1 && 0 <= gy(t) <= size + 1);
        assert(0 <= gx(t) * ts <= 3996 && 0 <= gy(t) * ts <= 3996 && (gx(t) + step) * ts == gx(t)
            * ts + step * ts && step * ts == (if step == 1 {
            ts
        } else if step == -1 {
            -ts
        } else {
            0
        })) by (nonlinear_arith)
            requires
                0 <= gx(t) <= 12,
                0 <= gy(t) <= 12,
                0 <= ts <= 333,
                -1 <= step <= 1,
        ;
        if gy(t) == row {
            if step == 1 && gx(t) == size + 1 {
                assert(at_cell(t, size + 1, row));
                assert(occ(tiles, size + 1, row));
                assert(false);
            }
            if step == -1 && gx(t) == 0 {
                assert(at_cell(t, 0, row));
                assert(occ(tiles, 0, row));
                assert(false);
            }
        }
    };
    assert(h_moved(tiles, new, row, step));

    assert forall|i: int, j: int|
        #![trigger new[i], new[j]]
        0 <= i < new.len() && 0 <= j < new.len() && i != j implies !(gx(new[i]) == gx(new[j]) && gy(
        new[i],
    ) == gy(new[j])) by {
        assert(!(gx(tiles[i]) == gx(tiles[j]) && gy(tiles[i]) == gy(tiles[j])));
    };

    assert forall|x: int, y: int| 1 <= x <= size && 1 <= y <= size implies occ(new, x, y) by {
        lemma_occ_moved_h(tiles, new, row, step, x, y);
        if y == row {
            if step == 1 {
                if x == 1 {
                    assert(occ(tiles, 0, row));
                } else {
                    assert(occ(tiles, x - 1, row));
                }
            } else if step == -1 {
                if x == size {
                    assert(occ(tiles, size + 1, row));
                } else {
                    assert(occ(tiles, x + 1, row));
                }
            } else {
                assert(occ(tiles, x, row));
            }
        } else {
            assert(occ(tiles, x, y));
        }
    };

    assert forall|y: int| 1 <= y <= size implies (#[trigger] occ(new, 0, y) <==> !occ(
        new,
        size + 1,
        y,
    )) by {
        lemma_occ_moved_h(tiles, new, row, step, 0, y);
        lemma_occ_moved_h(tiles, new, row, step, size + 1, y);
        if y == row && step == 1 {
            assert(!occ(tiles, -1, row)) by {
                if occ(tiles, -1, row) {
                    let i = choose|i: int| 0 <= i < tiles.len() && #[trigger] at_cell(
                        tiles[i],
                        -1,
                        row,
                    );
                    assert(tile_ok(tiles[i], size));
                }
            };
            assert(occ(tiles, size, row));
        } else if y == row && step == -1 {
            assert(!occ(tiles, size + 2, row)) by {
                if occ(tiles, size + 2, row) {
                    let i = choose|i: int| 0 <= i < tiles.len() && #[trigger] at_cell(
                        tiles[i],
                        size + 2,
                        row,
                    );
                    assert(tile_ok(tiles[i], size));
                }
            };
            assert(occ(tiles, 1, row));
        } else {
            assert(occ(tiles, 0, y) <==> !occ(tiles, size + 1, y));
        }
    };

    assert forall|x: int| 1 <= x <= size implies (#[trigger] occ(new, x, 0) <==> !occ(
        new,
        x,
        size + 1,
    )) by {
        lemma_occ_moved_h(tiles, new, row, step, x, 0);
        lemma_occ_moved_h(tiles, new, row, step, x, size + 1);
        assert(occ(tiles, x, 0) <==> !occ(tiles, x, size + 1));
    };
}

/// A vertical shift of a playable column, with a legal step for that
/// column's buffer occupancy, preserves the board invariant. When both the
/// step and the render displacement are zero the shift only snaps render
/// positions, so the column index may then be arbitrary.
proof fn lemma_shift_v_wf(
    tiles: Seq<Tile>,
    size: int,
    row: int,
    col: int,
    step: int,
    dist: int,
    ts: int,
)
    requires
        1 <= size <= 11,
        wf_tiles(tiles, size),
        ts == tile_size_of(size),
        -1 <= step <= 1,
        -ts <= dist <= ts,
        step != 0 ==> dist == step * ts,
        step != 0 || dist != 0 ==> 1 <= col <= size,
        step == 1 ==> occ(tiles, col, 0),
        step == -1 ==> !occ(tiles, col, 0),
    ensures
        wf_tiles(tiles.map_values(|t: Tile| shift_tile_v(t, row, col, step, dist, ts)), size),
{
    lemma_ts_bounds(size);
    let new = tiles.map_values(|t: Tile| shift_tile_v(t, row, col, step, dist, ts));
    assert(step == -1 ==> occ(tiles, col, size + 1));

    assert forall|i: int|
        #![trigger new[i]]
        0 <= i < tiles.len() implies (gx(new[i]) == gx(tiles[i]) && new[i].label == tiles[i].label
        && gy(new[i]) == gy(tiles[i]) + (if gx(tiles[i]) == col {
        step
    } else {
        0
    }) && tile_ok(new[i], size)) by {
        assert(tile_ok(tiles[i], size));
        let t = tiles[i];
        assert(0 <= gx(t) <= size + 1 && 0 <= gy(t) <= size + 1);
        assert(0 <= gx(t) * ts <= 3996 && 0 <= gy(t) * ts <= 3996 && (gy(t) + step) * ts == gy(t)
            * ts + step * ts && step * ts == (if step == 1 {
            ts
        } else if step == -1 {
            -ts
        } else {
            0
        })) by (nonlinear_arith)
            requires
                0 <= gx(t) <= 12,
                0 <= gy(t) <= 12,
                0 <= ts <= 333,
                -1 <= step <= 1,
        ;
        if gx(t) == col {
            if step == 1 && gy(t) == size + 1 {
                assert(at_cell(t, col, size + 1));
                assert(occ(tiles, col, size + 1));
                assert(false);
            }
            if step == -1 && gy(t) == 0 {
                assert(at_cell(t, col, 0));
                assert(occ(tiles, col, 0));
                assert(false);
            }
        }
    };
    assert(v_moved(tiles, new, col, step));

    assert forall|i: int, j: int|
        #![trigger new[i], new[j]]
        0 <= i < new.len() && 0 <= j < new.len() && i != j implies !(gx(new[i]) == gx(new[j]) && gy(
        new[i],
    ) == gy(new[j])) by {
        assert(!(gx(tiles[i]) == gx(tiles[j]) && gy(tiles[i]) == gy(tiles[j])));
    };

    assert forall|x: int, y: int| 1 <= x <= size && 1 <= y <= size implies occ(new, x, y) by {
        lemma_occ_moved_v(tiles, new, col, step, x, y);
        if x == col {
            if step == 1 {
                if y == 1 {
                    assert(occ(tiles, col, 0));
                } else {
                    assert(occ(tiles, col, y - 1));
                }
            } else if step == -1 {
                if y == size {
                    assert(occ(tiles, col, size + 1));
                } else {
                    assert(occ(tiles, col, y + 1));
                }
            } else {
                assert(occ(tiles, col, y));
            }
        } else {
            assert(occ(tiles, x, y));
        }
    };

    assert forall|x: int| 1 <= x <= size implies (#[trigger] occ(new, x, 0) <==> !occ(
        new,
        x,
        size + 1,
    )) by {
        lemma_occ_moved_v(tiles, new, col, step, x, 0);
        lemma_occ_moved_v(tiles, new, col, step, x, size + 1);
        if x == col && step == 1 {
            assert(!occ(tiles, col, -1)) by {
                if occ(tiles, col, -1) {
                    let i = choose|i: int| 0 <= i < tiles.len() && #[trigger] at_cell(
                        tiles[i],
                        col,
                        -1,
                    );
                    assert(tile_ok(tiles[i], size));
                }
            };
            assert(occ(tiles, col, size));
        } else if x == col && step == -1 {
            assert(!occ(tiles, col, size + 2)) by {
                if occ(tiles, col, size + 2) {
                    let i = choose|i: int| 0 <= i < tiles.len() && #[trigger] at_cell(
                        tiles[i],
                        col,
                        size + 2,
                    );
                    assert(tile_ok(tiles[i], size));
                }
            };
            assert(occ(tiles, col, 1));
        } else {
            assert(occ(tiles, x, 0) <==> !occ(tiles, x, size + 1));
        }
    };

    assert forall|y: int| 1 <= y <= size implies (#[trigger] occ(new, 0, y) <==> !occ(
        new,
        size + 1,
        y,
    )) by {
        lemma_occ_moved_v(tiles, new, col, step, 0, y);
        lemma_occ_moved_v(tiles, new, col, step, size + 1, y);
        assert(occ(tiles, 0, y) <==> !occ(tiles, size + 1, y));
    };
}

/// Whether any tile of `tiles` occupies cell `(x, y)`.
fn has_tile_at(tiles: &Vec<Tile>, x: i64, y: i64) -> (r: bool)
    ensures
        r == occ(tiles@, x as int, y as int),
{
    let n = tiles.len();
    let mut i: usize = 0;
    while i < n
        invariant
            n == tiles@.len(),
            0 <= i <= n,
            forall|k: int| 0 <= k < i ==> !at_cell(tiles@[k], x as int, y as int),
        decreases n - i,
    {
        if tiles[i].grid_position.x == x && tiles[i].grid_position.y == y {
            assert(at_cell(tiles@[i as int], x as int, y as int));
            return true;
        }
        i += 1;
    }
    proof {
        if occ(tiles@, x as int, y as int) {
            let k = choose|k: int|
                0 <= k < tiles@.len() && #[trigger] at_cell(tiles@[k], x as int, y as int);
        }
    }
    false
}

/// Apply the horizontal per-tile transform to one tile.
fn apply_h(t: &Tile, size: i64, row: i64, col: i64, step: i64, dist: i64, ts: i64) -> (r: Tile)
    requires
        1 <= size <= 11,
        tile_ok(*t, size as int),
        ts == tile_size_of(size as int),
        -1 <= step <= 1,
        -ts <= dist <= ts,
    ensures
        r == shift_tile_h(*t, row as int, col as int, step as int, dist as int, ts as int),
{
    proof {
        lemma_ts_bounds(size as int);
        assert(0 <= gx(*t) * ts <= 3996 && 0 <= gy(*t) * ts <= 3996) by (nonlinear_arith)
            requires
                0 <= gx(*t) <= 12,
                0 <= gy(*t) <= 12,
                0 <= ts <= 333,
        ;
    }
    let t1 = if t.grid_position.y == row {
        Tile {
            grid_position: Point { x: t.grid_position.x + step, y: t.grid_position.y },
            render_position: Point {
                x: t.grid_position.x * ts + dist,
                y: t.render_position.y,
            },
            label: t.label,
        }
    } else {
        *t
    };
    if t1.grid_position.x == col {
        proof {
            assert(0 <= gy(t1) * ts <= 3996) by (nonlinear_arith)
                requires
                    0 <= gy(t1) <= 12,
                    0 <= ts <= 333,
            ;
        }
        Tile {
            grid_position: t1.grid_position,
            render_position: Point { x: t1.render_position.x, y: t1.grid_position.y * ts },
            label: t1.label,
        }
    } else {
        t1
    }
}

/// Apply the vertical per-tile transform to one tile.
fn apply_v(t: &Tile, size: i64, row: i64, col: i64, step: i64, dist: i64, ts: i64) -> (r: Tile)
    requires
        1 <= size <= 11,
        tile_ok(*t, size as int),
        ts == tile_size_of(size as int),
        -1 <= step <= 1,
        -ts <= dist <= ts,
    ensures
        r == shift_tile_v(*t, row as int, col as int, step as int, dist as int, ts as int),
{
    proof {
        lemma_ts_bounds(size as int);
        assert(0 <= gx(*t) * ts <= 3996 && 0 <= gy(*t) * ts <= 3996) by (nonlinear_arith)
            requires
                0 <= gx(*t) <= 12,
                0 <= gy(*t) <= 12,
                0 <= ts <= 333,
        ;
    }
    let t1 = if t.grid_position.y == row {
        Tile {
            grid_position: t.grid_position,
            render_position: Point { x: t.grid_position.x * ts, y: t.render_position.y },
            label: t.label,
        }
    } else {
        *t
    };
    if t1.grid_position.x == col {
        proof {
            assert(0 <= gy(t1) * ts <= 3996) by (nonlinear_arith)
                requires
                    0 <= gy(t1) <= 12,
                    0 <= ts <= 333,
            ;
        }
        Tile {
            grid_position: Point { x: t1.grid_position.x, y: t1.grid_position.y + step },
            render_position: Point {
                x: t1.render_position.x,
                y: t1.grid_position.y * ts + dist,
            },
            label: t1.label,
        }
    } else {
        t1
    }
}

impl Board {
    /// Resolve a drag from `from` to `to` against the current border
    /// occupancy and apply it. With `end` false this is a preview: no grid
    /// mutation, the affected line's render positions take the clamped
    /// continuous offset. With `end` true the offset is quantized to a grid
    /// step of -1, 0 or 1 by the half-tile threshold, the line's cells move
    /// by that step, and its render positions land exactly on the new cells.
    /// A drag the border occupancy forbids, or one starting outside the
    /// playable lines, degrades to a no-op on the blocked axis.
    pub fn shift(&mut self, from: &Point, to: &Point, end: bool)
        requires
            old(self).wf(),
            coord_ok(*from),
            coord_ok(*to),
        ensures
            final(self).size == old(self).size,
            final(self).tiles@ == shift_spec(
                old(self).tiles@,
                old(self).size as int,
                *from,
                *to,
                end,
            ),
            final(self).wf(),
    {
        let ghost tiles0 = self.tiles@;
        let ghost sz = self.size as int;
        let ts = self.tile_size();
        let row = div_trunc_units(from.y, ts);
        let col = div_trunc_units(from.x, ts);
        let s = self.size as i64;

        let raw_x = to.x - from.x;
        let raw_y = to.y - from.y;
        let vx: i64 = if 0 < row && row < s + 1 {
            if has_tile_at(&self.tiles, 0, row) {
                if raw_x > 0 {
                    raw_x
                } else {
                    0
                }
            } else {
                if raw_x < 0 {
                    raw_x
                } else {
                    0
                }
            }
        } else {
            0
        };
        let vy: i64 = if 0 < col && col < s + 1 {
            if has_tile_at(&self.tiles, col, 0) {
                if raw_y > 0 {
                    raw_y
                } else {
                    0
                }
            } else {
                if raw_y < 0 {
                    raw_y
                } else {
                    0
                }
            }
        } else {
            0
        };
        proof {
            assert(row == row_of(*from, ts as int) && col == col_of(*from, ts as int));
            assert(vx == shift_vx(tiles0, sz, *from, *to));
            assert(vy == shift_vy(tiles0, sz, *from, *to));
        }
        let ax = if vx < 0 {
            -vx
        } else {
            vx
        };
        let ay = if vy < 0 {
            -vy
        } else {
            vy
        };
        let n = self.tiles.len();
        let mut new_tiles: Vec<Tile> = Vec::with_capacity(n);
        if ax > ay {
            let step: i64 = if end {
                if 2 * vx > ts {
                    1
                } else if 2 * vx < -ts {
                    -1
                } else {
                    0
                }
            } else {
                0
            };
            let dist: i64 = if end {
                if step == 1 {
                    ts
                } else if step == -1 {
                    -ts
                } else {
                    0
                }
            } else {
                if vx < -ts {
                    -ts
                } else if vx > ts {
                    ts
                } else {
                    vx
                }
            };
            proof {
                assert(dist == if end {
                    (step as int) * (ts as int)
                } else {
                    clamp_i(vx as int, -(ts as int), ts as int)
                }) by (nonlinear_arith)
                    requires
                        -1 <= step <= 1,
                        dist == (if end {
                            if step == 1 {
                                ts as int
                            } else if step == -1 {
                                -(ts as int)
                            } else {
                                0
                            }
                        } else {
                            clamp_i(vx as int, -(ts as int), ts as int)
                        }),
                ;
            }
            let mut i: usize = 0;
            while i < n
                invariant
                    self.tiles@ == tiles0,
                    wf_tiles(tiles0, sz),
                    1 <= sz <= 11,
                    1 <= self.size <= 11,
                    sz == self.size as int,
                    s == sz,
                    ts == tile_size_of(sz),
                    76 <= ts <= 333,
                    -1 <= step <= 1,
                    -ts <= dist <= ts,
                    0 <= i <= n,
                    n == tiles0.len(),
                    new_tiles@.len() == i as int,
                    forall|k: int|
                        0 <= k < i ==> new_tiles@[k] == shift_tile_h(
                            tiles0[k],
                            row as int,
                            col as int,
                            step as int,
                            dist as int,
                            ts as int,
                        ),
                decreases n - i,
            {
                proof {
                    assert(tile_ok(tiles0[i as int], sz));
                }
                let t = apply_h(&self.tiles[i], s, row, col, step, dist, ts);
                new_tiles.push(t);
                i += 1;
            }
            self.tiles = new_tiles;
            proof {
                assert(abs(vx as int) > abs(vy as int));
                assert(step == if end {
                    grid_step(vx as int, ts as int)
                } else {
                    0
                });
                assert(self.tiles@ =~= shift_spec(tiles0, sz, *from, *to, end));
                assert(vx != 0 && 1 <= row <= sz);
                if step == 1 {
                    assert(vx > 0);
                    assert(occ(tiles0, 0, row as int));
                }
                if step == -1 {
                    assert(vx < 0);
                    assert(!occ(tiles0, 0, row as int));
                }
                lemma_shift_h_wf(tiles0, sz, row as int, col as int, step as int, dist as int, ts as int);
                assert(self.tiles@ =~= tiles0.map_values(
                    |t: Tile| shift_tile_h(t, row as int, col as int, step as int, dist as int, ts as int),
                ));
            }
        } else {
            let step: i64 = if end {
                if 2 * vy > ts {
                    1
                } else if 2 * vy < -ts {
                    -1
                } else {
                    0
                }
            } else {
                0
            };
            let dist: i64 = if end {
                if step == 1 {
                    ts
                } else if step == -1 {
                    -ts
                } else {
                    0
                }
            } else {
                if vy < -ts {
                    -ts
                } else if vy > ts {
                    ts
                } else {
                    vy
                }
            };
            proof {
                assert(dist == if end {
                    (step as int) * (ts as int)
                } else {
                    clamp_i(vy as int, -(ts as int), ts as int)
                }) by (nonlinear_arith)
                    requires
                        -1 <= step <= 1,
                        dist == (if end {
                            if step == 1 {
                                ts as int
                            } else if step == -1 {
                                -(ts as int)
                            } else {
                                0
                            }
                        } else {
                            clamp_i(vy as int, -(ts as int), ts as int)
                        }),
                ;
            }
            let mut i: usize = 0;
            while i < n
                invariant
                    self.tiles@ == tiles0,
                    wf_tiles(tiles0, sz),
                    1 <= sz <= 11,
                    1 <= self.size <= 11,
                    sz == self.size as int,
                    s == sz,
                    ts == tile_size_of(sz),
                    76 <= ts <= 333,
                    -1 <= step <= 1,
                    -ts <= dist <= ts,
                    0 <= i <= n,
                    n == tiles0.len(),
                    new_tiles@.len() == i as int,
                    forall|k: int|
                        0 <= k < i ==> new_tiles@[k] == shift_tile_v(
                            tiles0[k],
                            row as int,
                            col as int,
                            step as int,
                            dist as int,
                            ts as int,
                        ),
                decreases n - i,
            {
                proof {
                    assert(tile_ok(tiles0[i as int], sz));
                }
                let t = apply_v(&self.tiles[i], s, row, col, step, dist, ts);
                new_tiles.push(t);
                i += 1;
            }
            self.tiles = new_tiles;
            proof {
                assert(!(abs(vx as int) > abs(vy as int)));
                assert(step == if end {
                    grid_step(vy as int, ts as int)
                } else {
                    0
                });
                assert(self.tiles@ =~= shift_spec(tiles0, sz, *from, *to, end));
                if step != 0 || dist != 0 {
                    assert(vy != 0 && 1 <= col <= sz);
                }
                if step == 1 {
                    assert(vy > 0);
                    assert(occ(tiles0, col as int, 0));
                }
                if step == -1 {
                    assert(vy < 0);
                    assert(!occ(tiles0, col as int, 0));
                }
                lemma_shift_v_wf(tiles0, sz, row as int, col as int, step as int, dist as int, ts as int);
                assert(self.tiles@ =~= tiles0.map_values(
                    |t: Tile| shift_tile_v(t, row as int, col as int, step as int, dist as int, ts as int),
                ));
            }
        }
    }
}

/// Although the two clamped components of the resolved drag vector are
/// computed independently — a diagonal drag from an interior cell can keep
/// both components non-zero — the applied shift always moves tiles along a
/// single axis: the dominant axis of the resolved vector. A horizontal
/// shift never changes any tile's row, and a vertical one never changes any
/// tile's column.
pub proof fn lemma_shift_single_axis(
    tiles: Seq<Tile>,
    size: int,
    from: Point,
    to: Point,
    commit: bool,
)
    requires
        1 <= size <= 11,
        wf_tiles(tiles, size),
    ensures
        shift_spec(tiles, size, from, to, commit).len() == tiles.len(),
        forall|i: int|
            #![trigger shift_spec(tiles, size, from, to, commit)[i]]
            0 <= i < tiles.len() ==> gy(shift_spec(tiles, size, from, to, commit)[i]) == gy(
                tiles[i],
            ) || gx(shift_spec(tiles, size, from, to, commit)[i]) == gx(tiles[i]),
        shift_is_horizontal(tiles, size, from, to) ==> forall|i: int|
            #![trigger shift_spec(tiles, size, from, to, commit)[i]]
            0 <= i < tiles.len() ==> gy(shift_spec(tiles, size, from, to, commit)[i]) == gy(
                tiles[i],
            ),
        !shift_is_horizontal(tiles, size, from, to) ==> forall|i: int|
            #![trigger shift_spec(tiles, size, from, to, commit)[i]]
            0 <= i < tiles.len() ==> gx(shift_spec(tiles, size, from, to, commit)[i]) == gx(
                tiles[i],
            ),
{
    let new = shift_spec(tiles, size, from, to, commit);
    if shift_is_horizontal(tiles, size, from, to) {
        assert forall|i: int|
            #![trigger new[i]]
            0 <= i < tiles.len() implies gy(new[i]) == gy(tiles[i]) by {
            assert(tile_ok(tiles[i], size));
        };
    } else {
        assert forall|i: int|
            #![trigger new[i]]
            0 <= i < tiles.len() implies gx(new[i]) == gx(tiles[i]) by {
            assert(tile_ok(tiles[i], size));
        };
    }
}

/// The tile size for a board of side `size`.
fn tile_size_units(size: i8) -> (ts: i64)
    requires
        1 <= size <= 11,
    ensures
        ts == tile_size_of(size as int),
        76 <= ts <= 333,
{
    proof {
        lemma_ts_bounds(size as int);
    }
    (1000u64 / ((size as u64) + 2)) as i64
}

} // verus!
