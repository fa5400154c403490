//! The per-tile owner index of the platform partition: flat indexing,
//! rectangle painting, clamping, and the owner of a tile.

use vstd::arithmetic::div_mod::{lemma_fundamental_div_mod, lemma_fundamental_div_mod_converse};
use vstd::prelude::*;

use crate::tile::{clamp_int, Tile};

verus! {

/// A horizontal walkable region, with the interval of the per-column table
/// that belongs to it.
#[derive(Clone, Copy, Debug, PartialEq, Eq, Structural)]
pub struct Platform {
    pub id: usize,
    pub span_left: usize,
    pub span_right: usize,
    pub left: i32,
    pub right: i32,
}

/// The tile `(x, y)` lies in the half-open rectangle from `from` to `to`.
pub open spec fn in_rect(from: Tile, to: Tile, x: int, y: int) -> bool {
    from.x <= x < to.x && from.y <= y < to.y
}

/// A rectangle that lies within a grid of the given size.
pub open spec fn rect_in_grid(size: Tile, from: Tile, to: Tile) -> bool {
    0 <= from.x <= to.x <= size.x && 0 <= from.y <= to.y <= size.y
}

/// A grid whose per-tile table fits in memory.
pub open spec fn grid_ok(size: Tile) -> bool {
    &&& size.x >= 1
    &&& size.y >= 1
    &&& size.x * size.y <= usize::MAX
}

/// The entry of the per-tile table that holds tile `(x, y)`: columns one after another.
pub open spec fn flat(size: Tile, x: int, y: int) -> int {
    x * size.y + y
}

/// `r` and `o` agree everywhere but on the rectangle, which `r` holds as `id`.
pub open spec fn painted(size: Tile, o: Seq<usize>, r: Seq<usize>, from: Tile, to: Tile, id: usize) -> bool {
    &&& r.len() == o.len()
    &&& forall|i: int|
        0 <= i < r.len() ==> #[trigger] r[i] == if in_rect(from, to, i / (size.y as int), i % (size.y as int)) {
            id
        } else {
            o[i]
        }
}

/// The entry of the per-tile table for tile `(x, y)` of the grid.
pub fn flat_index(size: Tile, x: i32, y: i32) -> (r: usize)
    requires
        grid_ok(size),
        0 <= x < size.x,
        0 <= y < size.y,
    ensures
        r == flat(size, x as int, y as int),
        r < size.x * size.y,
        r as int / size.y as int == x,
        r as int % size.y as int == y,
{
    proof {
        assert(x * size.y + y < size.x * size.y) by (nonlinear_arith)
            requires
                0 <= x < size.x,
                0 <= y < size.y,
        ;
        assert(x * size.y >= 0) by (nonlinear_arith)
            requires
                0 <= x,
                0 <= size.y,
        ;
        lemma_fundamental_div_mod_converse(x * size.y + y, size.y as int, x as int, y as int);
    }
    (x as usize) * (size.y as usize) + (y as usize)
}

/// Marks every tile of the rectangle from `from` to `to` as owned by `id`;
/// later calls overwrite earlier ones.
pub fn paint_rect(index: &mut Vec<usize>, size: Tile, from: Tile, to: Tile, id: usize)
    requires
        grid_ok(size),
        old(index)@.len() == size.x * size.y,
        rect_in_grid(size, from, to),
    ensures
        painted(size, old(index)@, final(index)@, from, to, id),
{
    let ghost o = index@;
    let mut x: i32 = from.x;
    while x < to.x
        invariant
            grid_ok(size),
            rect_in_grid(size, from, to),
            o.len() == size.x * size.y,
            from.x <= x <= to.x,
            painted(size, o, index@, from, Tile { x, y: to.y }, id),
        decreases to.x - x,
    {
        let mut y: i32 = from.y;
        while y < to.y
            invariant
                grid_ok(size),
                rect_in_grid(size, from, to),
                o.len() == size.x * size.y,
                from.x <= x < to.x,
                from.y <= y <= to.y,
                index@.len() == o.len(),
                forall|i: int|
                    0 <= i < index@.len() ==> #[trigger] index@[i] == if in_rect(
                        from,
                        Tile { x, y: to.y },
                        i / (size.y as int),
                        i % (size.y as int),
                    ) || (i / (size.y as int) == x && from.y <= i % (size.y as int) < y) {
                        id
                    } else {
                        o[i]
                    },
            decreases to.y - y,
        {
            let k = flat_index(size, x, y);
            index.set(k, id);
            proof {
                assert forall|i: int| 0 <= i < index@.len() && i != k implies !(#[trigger] (i / (size.y as int)) == x
                    && i % (size.y as int) == y) by {
                    lemma_fundamental_div_mod(i, size.y as int);
                }
            }
            y = y + 1;
        }
        x = x + 1;
    }
}

/// The largest tile of a grid of the given size.
pub open spec fn last_tile(size: Tile) -> Tile {
    Tile { x: (size.x - 1) as i32, y: (size.y - 1) as i32 }
}

/// Tile `p` taken relative to `origin` and clamped into `[0, extent]` on both axes.
pub open spec fn clamp_relative(p: Tile, origin: Tile, extent: Tile) -> Tile {
    Tile {
        x: clamp_int(p.x - origin.x, 0, extent.x as int) as i32,
        y: clamp_int(p.y - origin.y, 0, extent.y as int) as i32,
    }
}

/// `p - origin`, clamped into `[0, extent]` on both axes.
pub fn relative_clamped(p: Tile, origin: Tile, extent: Tile) -> (r: Tile)
    requires
        extent.x >= 0,
        extent.y >= 0,
    ensures
        r == clamp_relative(p, origin, extent),
        0 <= r.x <= extent.x,
        0 <= r.y <= extent.y,
{
    let dx: i64 = p.x as i64 - origin.x as i64;
    let dy: i64 = p.y as i64 - origin.y as i64;
    let x: i64 = if dx < 0 {
        0
    } else if dx > extent.x as i64 {
        extent.x as i64
    } else {
        dx
    };
    let y: i64 = if dy < 0 {
        0
    } else if dy > extent.y as i64 {
        extent.y as i64
    } else {
        dy
    };
    Tile { x: x as i32, y: y as i32 }
}

/// `v` clamped into `[lo, hi]`.
pub fn clamp_coord(v: i64, lo: i32, hi: i32) -> (r: i32)
    requires
        lo <= hi,
    ensures
        r == clamp_int(v as int, lo as int, hi as int),
{
    if v < lo as i64 {
        lo
    } else if v > hi as i64 {
        hi
    } else {
        v as i32
    }
}

/// The tiles, relative to a grid at `position` of `size` tiles, of a platform
/// given by its first tile and its size: the corners are clamped onto the grid,
/// and a negative size gives an empty rectangle.
pub open spec fn platform_rect(position: Tile, size: Tile, r: (Tile, Tile)) -> (Tile, Tile) {
    let from = Tile {
        x: clamp_int(r.0.x - position.x, 0, size.x as int) as i32,
        y: clamp_int(r.0.y - position.y, 0, size.y as int) as i32,
    };
    let to = Tile {
        x: clamp_int(r.0.x + r.1.x - position.x, from.x as int, size.x as int) as i32,
        y: clamp_int(r.0.y + r.1.y - position.y, from.y as int, size.y as int) as i32,
    };
    (from, to)
}

pub fn platform_rect_of(position: Tile, size: Tile, r: (Tile, Tile)) -> (o: (Tile, Tile))
    requires
        size.x >= 0,
        size.y >= 0,
    ensures
        o == platform_rect(position, size, r),
        rect_in_grid(size, o.0, o.1),
{
    let from = Tile {
        x: clamp_coord(r.0.x as i64 - position.x as i64, 0, size.x),
        y: clamp_coord(r.0.y as i64 - position.y as i64, 0, size.y),
    };
    let to = Tile {
        x: clamp_coord(r.0.x as i64 + r.1.x as i64 - position.x as i64, from.x, size.x),
        y: clamp_coord(r.0.y as i64 + r.1.y as i64 - position.y as i64, from.y, size.y),
    };
    (from, to)
}

/// The rectangle from `from` to `to` clamped onto a grid of the given size;
/// a corner `to` left of or below `from` gives an empty rectangle.
pub open spec fn clamp_rect(size: Tile, from: Tile, to: Tile) -> (Tile, Tile) {
    let f = Tile {
        x: clamp_int(from.x as int, 0, size.x as int) as i32,
        y: clamp_int(from.y as int, 0, size.y as int) as i32,
    };
    let t = Tile {
        x: clamp_int(to.x as int, f.x as int, size.x as int) as i32,
        y: clamp_int(to.y as int, f.y as int, size.y as int) as i32,
    };
    (f, t)
}

pub fn clamp_rect_of(size: Tile, from: Tile, to: Tile) -> (r: (Tile, Tile))
    requires
        size.x >= 0,
        size.y >= 0,
    ensures
        r == clamp_rect(size, from, to),
        rect_in_grid(size, r.0, r.1),
{
    let f = Tile { x: clamp_coord(from.x as i64, 0, size.x), y: clamp_coord(from.y as i64, 0, size.y) };
    let t = Tile { x: clamp_coord(to.x as i64, f.x, size.x), y: clamp_coord(to.y as i64, f.y, size.y) };
    (f, t)
}

/// The platform that owns tile `(x, y)`: the last registered rectangle that
/// holds it, and platform 0 where none does.
pub open spec fn owner_of(rects: Seq<(Tile, Tile)>, x: int, y: int) -> nat
    decreases rects.len(),
{
    if rects.len() == 0 {
        0
    } else if in_rect(rects.last().0, rects.last().1, x, y) {
        (rects.len() - 1) as nat
    } else {
        owner_of(rects.drop_last(), x, y)
    }
}

/// `index` records, for every tile of the grid, its owner among `rects`.
#[verifier::opaque]
pub open spec fn is_owner_index(size: Tile, rects: Seq<(Tile, Tile)>, index: Seq<usize>) -> bool {
    &&& index.len() == size.x * size.y
    &&& forall|i: int|
        0 <= i < index.len() ==> #[trigger] index[i] == owner_of(
            rects,
            i / (size.y as int),
            i % (size.y as int),
        )
}

pub proof fn lemma_owner_bound(rects: Seq<(Tile, Tile)>, x: int, y: int)
    ensures
        owner_of(rects, x, y) < rects.len() || owner_of(rects, x, y) == 0,
    decreases rects.len(),
{
    if rects.len() > 0 {
        lemma_owner_bound(rects.drop_last(), x, y);
    }
}

/// A tile in a registered rectangle belongs to it unless a later one holds it too.
pub proof fn lemma_owner_of_rect(rects: Seq<(Tile, Tile)>, k: int, x: int, y: int)
    requires
        0 <= k < rects.len(),
        in_rect(rects[k].0, rects[k].1, x, y),
        forall|j: int| k < j < rects.len() ==> !in_rect(#[trigger] rects[j].0, rects[j].1, x, y),
    ensures
        owner_of(rects, x, y) == k,
    decreases rects.len(),
{
    if k < rects.len() - 1 {
        let last = rects.len() - 1;
        assert(!in_rect(rects[last].0, rects[last].1, x, y));
        lemma_owner_of_rect(rects.drop_last(), k, x, y);
    }
}

/// Every tile in `nodes` lies on the grid.
pub open spec fn tiles_on_grid(size: Tile, nodes: Seq<Tile>) -> bool {
    forall|i: int| 0 <= i < nodes.len() ==> 0 <= (#[trigger] nodes[i]).x < size.x && 0 <= nodes[i].y < size.y
}

/// The entry of a tile of the grid lies in the per-tile table and gives back
/// the tile's column and row.
pub proof fn lemma_flat_in_grid(size: Tile, x: int, y: int)
    requires
        grid_ok(size),
        0 <= x < size.x,
        0 <= y < size.y,
    ensures
        0 <= flat(size, x, y) < size.x * size.y,
        flat(size, x, y) / (size.y as int) == x,
        flat(size, x, y) % (size.y as int) == y,
{
    let sy = size.y as int;
    let sx = size.x as int;
    assert(x * sy + y < sx * sy) by (nonlinear_arith)
        requires
            0 <= x < sx,
            0 <= y < sy,
    ;
    assert(x * sy >= 0) by (nonlinear_arith)
        requires
            0 <= x,
            0 <= sy,
    ;
    lemma_fundamental_div_mod_converse(x * sy + y, sy, x, y);
}

} // verus!
