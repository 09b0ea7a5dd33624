//! A chunk: one octree that covers the unit cube.
use vstd::prelude::*;
use crate::bounds::Bounds;
use crate::direction::Direction;
use crate::index_path::IndexPath;
use crate::node::{lawful_eq, Node};
use crate::voxel::Voxel;

verus! {

/// An octree that covers the unit cube; `root` is its topmost node.
pub struct Chunk<T> {
    pub root: Node<T>,
}

impl<T: Default + Copy + PartialEq> Chunk<T> {
    /// The chunk that holds the default value everywhere.
    pub fn new() -> (chunk: Chunk<T>)
        ensures
            call_ensures(T::default, (), chunk.root.value(Direction::FrontLeftBottom)),
            chunk.root == Node::filled(chunk.root.value(Direction::FrontLeftBottom)),
            chunk.root.collapsed(),
            chunk.root.within_depth(0),
    {
        let item: T = Default::default();
        proof {
            Node::lemma_filled(item);
        }
        Chunk { root: Node::new_all(item) }
    }
}

impl<T> Chunk<T> {
    /// The value found at `index_path`.
    pub fn get(&self, index_path: IndexPath) -> (v: &T)
        requires
            index_path@.len() > 0,
        ensures
            *v == self.root.lookup(index_path@),
    {
        self.root.get(index_path)
    }

    /// The voxel that stands for the whole chunk.
    pub fn get_root(&self) -> (v: Voxel<'_, T>)
        ensures
            v.node() == self.root,
            v.path() == Seq::<Direction>::empty(),
            v.bounds() == Bounds::unit(),
            v.within(self.root),
    {
        Voxel::at_root(&self.root)
    }
}

impl<T: Copy + PartialEq> Chunk<T> {
    /// Stores `value` at `index_path`, subdividing the tree as far as the
    /// path goes and merging every node that the value leaves uniform.
    pub fn set(&mut self, index_path: IndexPath, value: T)
        requires
            index_path@.len() > 0,
            lawful_eq::<T>(),
        ensures
            final(self).root == old(self).root.assign(index_path@, value),
            old(self).root.collapsed() ==> final(self).root.collapsed(),
            old(self).root.collapsed() && old(self).root.reaches(index_path@)
                ==> final(self).root.lookup(index_path@) == value,
            forall|n: nat|
                old(self).root.within_depth(n) && index_path@.len() <= n + 1
                    ==> final(self).root.within_depth(n),
    {
        self.root.set(index_path, value)
    }
}

} // verus!
