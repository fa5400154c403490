//! The layer-only planner: layers over the grid and a walking intent that
//! stays on one layer.

use vstd::prelude::*;

use crate::platform::{
    clamp_rect, clamp_rect_of,
    clamp_relative, flat, flat_index, grid_ok, last_tile, paint_rect, painted,
    relative_clamped,
};
use crate::intent::{horizontal_intent, horizontal_toward, MoveIntendHorizontal};
use crate::tile::Tile;

verus! {

/// A grid of tiles split into layers, each tile owned by one layer.
pub struct PathFind {
    pub position: Tile,
    pub size: Tile,
    pub layers_index: Vec<usize>,
    pub layers: Vec<Layer>,
}

/// A layer: its id and its horizontal extent.
#[derive(Clone, Copy, Debug, PartialEq, Eq, Structural)]
pub struct Layer {
    pub id: usize,
    pub x_left: u32,
    pub x_right: u32,
}

/// A point on a layer.
#[derive(Clone, Copy, Debug, PartialEq, Eq, Structural)]
pub struct Node {
    pub layer_id: usize,
    pub x: u32,
}

impl PathFind {
    pub open spec fn wf(&self) -> bool {
        &&& grid_ok(self.size)
        &&& self.layers_index@.len() == self.size.x * self.size.y
        &&& forall|i: int|
            0 <= i < self.layers_index@.len() ==> (#[trigger] self.layers_index@[i] < self.layers@.len()
                || self.layers_index@[i] == 0)
        &&& forall|k: int| 0 <= k < self.layers@.len() ==> (#[trigger] self.layers@[k]).id == k
    }

    /// An empty grid of `size` tiles whose first tile sits at `position`;
    /// every tile starts out owned by layer 0.
    pub fn from(position: Tile, size: Tile) -> (r: PathFind)
        requires
            grid_ok(size),
        ensures
            r.wf(),
            r.position == position,
            r.size == size,
            r.layers@.len() == 0,
            forall|i: int| 0 <= i < r.layers_index@.len() ==> r.layers_index@[i] == 0,
    {
        let n = (size.x as usize) * (size.y as usize);
        PathFind { position, size, layers_index: vec![0usize; n], layers: Vec::new() }
    }

    /// `position` relative to the grid, clamped onto its tiles.
    pub fn relative_position(&self, position: Tile) -> (r: Tile)
        requires
            grid_ok(self.size),
        ensures
            r == clamp_relative(position, self.position, last_tile(self.size)),
            0 <= r.x < self.size.x,
            0 <= r.y < self.size.y,
    {
        relative_clamped(position, self.position, Tile { x: self.size.x - 1, y: self.size.y - 1 })
    }

    /// The layer that owns a tile of the grid.
    pub fn get_layer(&self, relative_position: Tile) -> (r: &Layer)
        requires
            self.wf(),
            self.layers@.len() > 0,
            0 <= relative_position.x < self.size.x,
            0 <= relative_position.y < self.size.y,
        ensures
            *r == self.layers@[self.layers_index@[flat(self.size, relative_position.x as int, relative_position.y as int)] as int],
    {
        let i = flat_index(self.size, relative_position.x, relative_position.y);
        let k = self.layers_index[i];
        &self.layers[k]
    }

    /// The layer id recorded for a tile of the grid.
    pub open spec fn layer_at(&self, t: Tile) -> usize {
        self.layers_index@[flat(self.size, t.x as int, t.y as int)]
    }

    /// The walking intent of an entity at `current` headed for `target` when
    /// only layers are known: toward the target's column while both tiles
    /// (clamped onto the grid) lie on one layer, and nothing otherwise, where
    /// the caller drops the goal.
    pub fn move_intent(&self, current: Tile, target: Tile) -> (r: MoveIntendHorizontal)
        requires
            self.wf(),
        ensures
            r == if self.layer_at(clamp_relative(current, self.position, last_tile(self.size)))
                == self.layer_at(clamp_relative(target, self.position, last_tile(self.size))) {
                horizontal_toward(current.x as int, target.x as int)
            } else {
                MoveIntendHorizontal::Stay
            },
    {
        let src = self.relative_position(current);
        let dst = self.relative_position(target);
        let layer_from = self.layers_index[flat_index(self.size, src.x, src.y)];
        let layer_to = self.layers_index[flat_index(self.size, dst.x, dst.y)];
        if layer_from == layer_to {
            horizontal_intent(current.x as i64, target.x as i64)
        } else {
            MoveIntendHorizontal::Stay
        }
    }

    /// Registers a layer over the tiles from `from` (inclusive) to `to`
    /// (exclusive), relative to the grid and clamped onto it; it takes the
    /// next id and owns those tiles from now on.
    pub fn add_layer(&mut self, from: Tile, to: Tile, x_left: u32, x_right: u32)
        requires
            old(self).wf(),
        ensures
            final(self).wf(),
            final(self).position == old(self).position,
            final(self).size == old(self).size,
            final(self).layers@ == old(self).layers@.push(
                Layer { id: old(self).layers@.len() as usize, x_left, x_right },
            ),
            painted(
                old(self).size,
                old(self).layers_index@,
                final(self).layers_index@,
                clamp_rect(old(self).size, from, to).0,
                clamp_rect(old(self).size, from, to).1,
                old(self).layers@.len() as usize,
            ),
    {
        let id = self.layers.len();
        let (from, to) = clamp_rect_of(self.size, from, to);
        paint_rect(&mut self.layers_index, self.size, from, to, id);
        self.layers.push(Layer { id, x_left, x_right });
    }
}

} // verus!
