//! Meshes, and what a mesher has to offer.
use vstd::prelude::*;
use crate::world::{ChunkCoordinates, World};

pub mod marching_cubes;
pub mod mc_table;

verus! {

/// A triangle mesh. Each vertex holds twice its coordinates, so that the
/// midpoint of an edge of the unit cube is a vertex of whole numbers; three
/// indices in a row make a triangle.
#[derive(Clone, Debug, PartialEq, Eq)]
pub struct Mesh {
    pub vertices: Vec<(u8, u8, u8)>,
    pub indices: Vec<u32>,
}

/// Builds meshes of the chunks of a world.
pub trait Mesher<'a, T>: Sized {
    /// Whether the mesher can build the mesh of the chunk at
    /// `chunk_location` at the level of detail `lod`.
    spec fn can_build(&self, chunk_location: ChunkCoordinates, lod: u8) -> bool;

    /// A mesher for the chunks of `world` that looks its triangles up in
    /// `table`.
    fn new(world: &'a World<T>, table: &'a mc_table::TriangleTable) -> Self;

    /// The mesh of the chunk at `chunk_location`, laid out as a grid of
    /// `2^lod` cells to the side.
    fn build(&self, chunk_location: &ChunkCoordinates, lod: u8) -> Mesh
        requires
            self.can_build(*chunk_location, lod),
    ;
}

} // verus!
