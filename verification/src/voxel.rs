//! A view of one octant of a chunk: the node that holds the octant, the
//! path to it and the cube it fills.
use vstd::prelude::*;
use crate::bounds::Bounds;
use crate::direction::Direction;
use crate::index_path::IndexPath;
use crate::node::Node;

verus! {

/// One octant of a chunk, seen through the node that holds it.
pub struct Voxel<'a, T> {
    pub(crate) node: &'a Node<T>,
    pub(crate) index_path: IndexPath,  // when empty, voxel is the root node
    pub(crate) bounds: Bounds,
}

impl<'a, T> Clone for Voxel<'a, T> {
    fn clone(&self) -> (v: Self)
        ensures
            v == *self,
    {
        proof {
            use_type_invariant(self);
        }
        Voxel { node: self.node, index_path: self.index_path, bounds: self.bounds }
    }
}

impl<'a, T> Voxel<'a, T> {
    /// The node that holds the voxel's octant; for the root voxel, the root.
    pub closed spec fn node(self) -> Node<T> {
        *self.node
    }

    /// The octants from the root down to the voxel.
    pub closed spec fn path(self) -> Seq<Direction> {
        self.index_path@
    }

    /// The cube that the voxel fills.
    pub closed spec fn bounds(self) -> Bounds {
        self.bounds
    }

    /// A voxel's cube is the one that its path reaches from the unit cube.
    #[verifier::type_invariant]
    pub closed spec fn wf(self) -> bool {
        self.bounds == Bounds::unit().descend(self.index_path@)
    }

    /// Whether the voxel lies in the tree below `root`: its node is the one
    /// that its path without the last octant leads to.
    pub open spec fn within(self, root: Node<T>) -> bool {
        if self.path().len() == 0 {
            self.node() == root
        } else {
            root.node_at(self.path().drop_last()) == Some(self.node())
        }
    }

    /// The voxel that stands for the whole tree below `root`.
    pub(crate) fn at_root(root: &'a Node<T>) -> (v: Self)
        ensures
            v.node() == *root,
            v.path() == Seq::<Direction>::empty(),
            v.bounds() == Bounds::unit(),
            v.within(*root),
    {
        Voxel { node: root, index_path: IndexPath::new(), bounds: Bounds::new() }
    }

    /// The voxel of octant `dir` of `node`, which stands at `path` and
    /// fills `bounds`.
    pub(crate) fn at_octant(
        node: &'a Node<T>,
        path: IndexPath,
        bounds: Bounds,
        dir: Direction,
    ) -> (v: Self)
        requires
            path@.len() < 21,
            bounds == Bounds::unit().descend(path@),
        ensures
            v.node() == *node,
            v.path() == path@.push(dir),
            v.bounds() == bounds.half_spec(dir),
            v.bounds() == Bounds::unit().descend(path@.push(dir)),
    {
        proof {
            Bounds::lemma_path_bounds(path@);
            assert(path@.push(dir).drop_last() =~= path@);
        }
        Voxel { node, index_path: path.put(dir), bounds: bounds.half(dir) }
    }

    /// Whether the voxel stands for the whole chunk.
    pub fn is_root(&self) -> (b: bool)
        ensures
            b == (self.path().len() == 0),
    {
        self.index_path.is_empty()  // Voxel is root if and only if index path is empty
    }

    /// The value of the voxel's octant.
    pub fn get_value(&self) -> (v: &T)
        requires
            self.path().len() > 0,
        ensures
            *v == self.node().value(self.path().last()),
    {
        &self.node.data.data[self.index_path.get().index() as usize]
    }

    /// Whether the voxel is not subdivided: for the root voxel, whether the
    /// root has no child at all.
    pub fn is_leaf(&self) -> (b: bool)
        ensures
            self.path().len() == 0 ==> b == (forall|d: Direction|
                (#[trigger] self.node().child(d)) is None),
            self.path().len() > 0 ==> b == (self.node().child(self.path().last()) is None),
    {
        if self.is_root() {
            let mut i: usize = 0;
            while i < 8
                invariant
                    i <= 8,
                    self.path().len() == 0,
                    forall|k: int| 0 <= k < i ==> (#[trigger] self.node.children.data@[k]) is None,
                decreases 8 - i,
            {
                if self.node.children.data[i].is_some() {
                    proof {
                        let d = Direction::of(i as nat);
                        assert(self.node().child(d) is Some);
                    }
                    return false;
                }
                i += 1;
            }
            proof {
                assert forall|d: Direction| (#[trigger] self.node().child(d)) is None by {
                    d.lemma_ordinal();
                }
            }
            true
        } else {
            self.node.children.data[self.index_path.get().index() as usize].is_none()
        }
    }

    /// Whether the voxel has a node below it.
    pub fn is_subdivided(&self) -> (b: bool)
        ensures
            self.path().len() == 0 ==> b == (exists|d: Direction|
                (#[trigger] self.node().child(d)) is Some),
            self.path().len() > 0 ==> b == (self.node().child(self.path().last()) is Some),
    {
        !self.is_leaf()
    }

    /// The cube that the voxel fills.
    pub fn get_bounds(&self) -> (b: &Bounds)
        ensures
            *b == self.bounds(),
            *b == Bounds::unit().descend(self.path()),
            b.wf(),
    {
        proof {
            use_type_invariant(self);
            use_type_invariant(&self.index_path);
            crate::index_path::lemma_word_bounds(self.index_path.word());
            Bounds::lemma_path_bounds(self.index_path@);
        }
        &self.bounds
    }

    /// The path from the root down to the voxel.
    pub fn get_index_path(&self) -> (p: IndexPath)
        ensures
            p@ == self.path(),
            p@.len() <= 21,
    {
        proof {
            use_type_invariant(&self.index_path);
            crate::index_path::lemma_word_bounds(self.index_path.word());
        }
        self.index_path
    }

    /// The voxel of octant `dir` below this one. Below the root voxel and
    /// below a subdivided voxel that is the octant `dir` of the node one
    /// level down; a voxel that is not subdivided is uniform, and its child
    /// is the voxel itself.
    pub fn get_child(&self, dir: Direction) -> (v: Voxel<'a, T>)
        requires
            self.path().len() < 21 || self.node().child(self.path().last()) is None,
        ensures
            self.path().len() == 0 ==> v.node() == self.node(),
            self.path().len() > 0 && self.node().child(self.path().last()) is Some ==> v.node()
                == self.node().child(self.path().last())->0,
            self.path().len() == 0 || self.node().child(self.path().last()) is Some ==> v.path()
                == self.path().push(dir) && v.bounds() == self.bounds().half_spec(dir),
            self.path().len() > 0 && self.node().child(self.path().last()) is None ==> v == *self,
            forall|root: Node<T>| self.within(root) ==> v.within(root),
    {
        proof {
            use_type_invariant(self);
            assert(self.path().push(dir).drop_last() =~= self.path());
        }
        if self.is_root() {
            proof {
                assert forall|root: Node<T>| self.within(root) implies root.node_at(
                    self.path(),
                ) == Some(*self.node) by {}
            }
            Voxel::at_octant(self.node, self.index_path, self.bounds, dir)
        } else {
            let last = self.index_path.get();
            if let Some(node) = self.node.children.data[last.index() as usize].as_ref() {
                proof {
                    assert forall|root: Node<T>| self.within(root) implies root.node_at(
                        self.path(),
                    ) == Some(*node) by {
                        root.lemma_node_at_push(self.path().drop_last(), last);
                        assert(self.path().drop_last().push(last) =~= self.path());
                    }
                }
                Voxel::at_octant(node, self.index_path, self.bounds, dir)
            } else {
                Voxel { node: self.node, index_path: self.index_path, bounds: self.bounds }
            }
        }
    }
}

} // verus!
