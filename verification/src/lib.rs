//! A sparse voxel store: chunks are adaptive octrees that collapse uniform
//! subtrees, with leaf iteration, dense grids and marching-cubes meshing on
//! top.
use vstd::prelude::*;

pub mod direction;
pub mod index_path;
pub mod bounds;
pub mod node;
pub mod chunk;
pub mod voxel;
pub mod iterators;
pub mod world;
pub mod world_builder;
pub mod grid;
pub mod mesher;
pub mod text;

verus! {

/// What a value stored in a chunk has to offer for meshing.
pub trait VoxelData: Clone + Default {
    /// Whether the value stands for empty space.
    fn is_empty(&self) -> bool;
}

} // verus!
