//! The octree's node: one value and one optional child for each octant.
//!
//! A path of octants names a place in the tree. Where a path runs past the
//! last node, the value of the last octant on the way stands for the whole
//! region below it.
use vstd::prelude::*;
use vstd::std_specs::cmp::PartialEqSpec;
use crate::direction::{Direction, DirectionMapper};
use crate::index_path::IndexPath;

verus! {

/// Whether `==` on `T` in executable code is equality.
pub open spec fn lawful_eq<T: PartialEq>() -> bool {
    &&& T::obeys_eq_spec()
    &&& forall|a: T, b: T| #[trigger] a.eq_spec(&b) <==> a == b
}

/// A node of the octree.
pub struct Node<T> {
    /// The subdivided octants.
    pub children: Box<DirectionMapper<Option<Node<T>>>>,
    /// The value of each octant; for a subdivided octant, the value it had
    /// when it was subdivided.
    pub data: DirectionMapper<T>,
}

impl<T> Node<T> {
    /// The value stored for octant `d`.
    pub open spec fn value(self, d: Direction) -> T {
        self.data[d]
    }

    /// The node that subdivides octant `d`, if there is one.
    pub open spec fn child(self, d: Direction) -> Option<Node<T>> {
        self.children[d]
    }

    /// The value found at `path`: the value of the path's last octant in
    /// the node that the path leads to, or the value of the octant at which
    /// the tree ends above it.
    pub open spec fn lookup(self, path: Seq<Direction>) -> T
        decreases path.len(),
    {
        if path.len() <= 1 {
            self.value(path[0])
        } else {
            match self.child(path[0]) {
                Some(c) => c.lookup(path.drop_first()),
                None => self.value(path[0]),
            }
        }
    }

    /// The node that `path` leads to, if the tree is subdivided that far.
    pub open spec fn node_at(self, path: Seq<Direction>) -> Option<Node<T>>
        decreases path.len(),
    {
        if path.len() == 0 {
            Some(self)
        } else {
            match self.child(path[0]) {
                Some(c) => c.node_at(path.drop_first()),
                None => None,
            }
        }
    }

    /// Whether the node's eight values are equal.
    pub open spec fn uniform(self) -> bool {
        forall|d: Direction| #[trigger] self.value(d) == self.value(Direction::FrontLeftBottom)
    }

    /// Whether no node below this one holds eight equal values.
    pub open spec fn collapsed(self) -> bool {
        forall|p: Seq<Direction>|
            p.len() > 0 ==> match #[trigger] self.node_at(p) {
                Some(c) => !c.uniform(),
                None => true,
            }
    }

    /// Whether no node lies more than `n` levels below this one.
    pub open spec fn within_depth(self, n: nat) -> bool {
        forall|p: Seq<Direction>| (#[trigger] self.node_at(p)) is Some ==> p.len() <= n
    }

    /// Whether the tree is subdivided down to the node that holds the
    /// next-to-last octant of `path`.
    pub open spec fn reaches(self, path: Seq<Direction>) -> bool {
        path.len() <= 1 || self.node_at(path.take(path.len() - 2)) is Some
    }

    /// The node with every value equal to `item` and no child.
    pub open spec fn filled(item: T) -> Node<T> {
        Node {
            children: Box::new(
                DirectionMapper { data: [None, None, None, None, None, None, None, None] },
            ),
            data: DirectionMapper { data: [item, item, item, item, item, item, item, item] },
        }
    }

    /// The node with the value of octant `d` replaced by `v`.
    pub open spec fn with_value(self, d: Direction, v: T) -> Node<T> {
        Node { children: self.children, data: self.data.with(d, v) }
    }

    /// The node with the child of octant `d` replaced by `c`.
    pub open spec fn with_child(self, d: Direction, c: Option<Node<T>>) -> Node<T> {
        Node { children: Box::new(self.children.with(d, c)), data: self.data }
    }

    /// The tree after `v` was stored at `path`.
    ///
    /// With one octant left, the octant's value becomes `v`. Otherwise `v`
    /// is stored below the octant's child, or below a new child filled with
    /// the octant's value where it had none; and if that leaves the child
    /// with eight equal values, the child goes and its value becomes the
    /// octant's.
    pub open spec fn assign(self, path: Seq<Direction>, v: T) -> Node<T>
        decreases path.len(),
    {
        let d = path[0];
        if path.len() <= 1 {
            self.with_value(d, v)
        } else {
            let below = self.branch(d).assign(path.drop_first(), v);
            if below.uniform() {
                self.with_value(d, below.value(Direction::FrontLeftBottom)).with_child(d, None)
            } else {
                self.with_child(d, Some(below))
            }
        }
    }

    /// The child of octant `d`, or where there is none, the node that
    /// stands for the octant: one filled with the octant's value.
    pub open spec fn branch(self, d: Direction) -> Node<T> {
        match self.child(d) {
            Some(c) => c,
            None => Node::filled(self.value(d)),
        }
    }

    /// Get the data on the specified index path. Where the path runs deeper
    /// than the tree, the value of the octant at which the tree ends.
    pub fn get(&self, index_path: IndexPath) -> (v: &T)
        requires
            index_path@.len() > 0,
        ensures
            *v == self.lookup(index_path@),
        decreases index_path@.len(),
    {
        let dir = index_path.peek();
        let index_path = index_path.pop();
        let i = dir.index() as usize;
        if index_path.is_empty() {
            return &self.data.data[i];
        } else if let Some(child) = &self.children.data[i] {
            return child.get(index_path);
        } else {
            // Trying to access a child while the node is already a leaf node.
            return &self.data.data[i];
        }
    }

    /// What the values and children of `with_value` and `with_child` are.
    pub proof fn lemma_with(self, d: Direction, v: T, c: Option<Node<T>>)
        ensures
            self.with_value(d, v).value(d) == v,
            forall|e: Direction|
                e != d ==> #[trigger] self.with_value(d, v).value(e) == self.value(e),
            forall|e: Direction| #[trigger] self.with_value(d, v).child(e) == self.child(e),
            self.with_child(d, c).child(d) == c,
            forall|e: Direction|
                e != d ==> #[trigger] self.with_child(d, c).child(e) == self.child(e),
            forall|e: Direction| #[trigger] self.with_child(d, c).value(e) == self.value(e),
    {
        d.lemma_ordinal();
        assert forall|e: Direction| e != d implies #[trigger] e.ordinal() != d.ordinal() by {
            e.lemma_ordinal();
        }
        assert forall|e: Direction| #[trigger] e.ordinal() < 8 by {
            e.lemma_ordinal();
        }
    }

    /// A filled node has no child, and all its values are the one it was
    /// filled with.
    pub proof fn lemma_filled(item: T)
        ensures
            forall|d: Direction| #[trigger] Node::filled(item).value(d) == item,
            forall|d: Direction| (#[trigger] Node::filled(item).child(d)) is None,
            Node::filled(item).uniform(),
            Node::filled(item).collapsed(),
            Node::filled(item).within_depth(0),
    {
        let n = Node::filled(item);
        assert forall|d: Direction| #[trigger] n.value(d) == item && n.child(d) is None by {
            d.lemma_ordinal();
        }
        assert forall|p: Seq<Direction>| p.len() > 0 implies (#[trigger] n.node_at(p)) is None by {
            assert(n.child(p[0]) is None);
        }
    }

    /// The nodes below a child are the nodes below the parent on the paths
    /// through the child.
    pub proof fn lemma_node_at_child(self, d: Direction, q: Seq<Direction>)
        ensures
            self.node_at(seq![d] + q) == match self.child(d) {
                Some(c) => c.node_at(q),
                None => None,
            },
    {
        let p = seq![d] + q;
        assert(p[0] == d);
        assert(p.drop_first() =~= q);
    }

    /// The node one octant further down a path is the child at that octant
    /// of the node that the path leads to.
    pub proof fn lemma_node_at_push(self, p: Seq<Direction>, d: Direction)
        ensures
            self.node_at(p.push(d)) == match self.node_at(p) {
                Some(n) => n.child(d),
                None => None,
            },
        decreases p.len(),
    {
        let q = p.push(d);
        if p.len() == 0 {
            assert(q.drop_first() =~= p);
            assert(q[0] == d);
            match self.child(d) {
                Some(c) => {
                    assert(c.node_at(p) == Some(c));
                },
                None => {},
            }
            assert(self.node_at(p) == Some(self));
        } else {
            assert(q.drop_first() =~= p.drop_first().push(d));
            assert(q[0] == p[0]);
            match self.child(p[0]) {
                Some(c) => {
                    c.lemma_node_at_push(p.drop_first(), d);
                    assert(self.node_at(p) == c.node_at(p.drop_first()));
                    assert(self.node_at(q) == c.node_at(q.drop_first()));
                },
                None => {},
            }
        }
    }

    /// A child of a collapsed node is collapsed and does not hold eight
    /// equal values; a child of a node within depth `n` is within depth
    /// `n - 1`.
    pub proof fn lemma_child(self, d: Direction)
        requires
            self.child(d) is Some,
        ensures
            self.collapsed() ==> self.child(d)->0.collapsed() && !self.child(d)->0.uniform(),
            forall|n: nat|
                self.within_depth(n) ==> n >= 1 && self.child(d)->0.within_depth((n - 1) as nat),
    {
        let c = self.child(d)->0;
        if self.collapsed() {
            assert forall|q: Seq<Direction>| q.len() > 0 implies match #[trigger] c.node_at(q) {
                Some(g) => !g.uniform(),
                None => true,
            } by {
                self.lemma_node_at_child(d, q);
                assert(self.node_at(seq![d] + q) == c.node_at(q));
            }
            self.lemma_node_at_child(d, Seq::empty());
            assert(self.node_at(seq![d] + Seq::empty()) == Some(c));
        }
        assert forall|n: nat| self.within_depth(n) implies n >= 1 && c.within_depth(
            (n - 1) as nat,
        ) by {
            self.lemma_node_at_child(d, Seq::empty());
            assert(self.node_at(seq![d] + Seq::empty()) is Some);
            assert forall|q: Seq<Direction>| (#[trigger] c.node_at(q)) is Some implies q.len() <= n
                - 1 by {
                self.lemma_node_at_child(d, q);
                assert(self.node_at(seq![d] + q) is Some);
            }
        }
    }

    /// The node that stands for an octant of a collapsed node is collapsed.
    pub proof fn lemma_branch(self, d: Direction)
        ensures
            self.collapsed() ==> self.branch(d).collapsed(),
            forall|n: nat|
                self.within_depth(n) ==> self.branch(d).within_depth(
                    if n >= 1 {
                        (n - 1) as nat
                    } else {
                        0
                    },
                ),
    {
        if self.child(d) is Some {
            self.lemma_child(d);
        } else {
            Node::lemma_filled(self.value(d));
        }
    }

    /// Storing the value that an octant without a child holds leaves the
    /// tree as it is: no child stays behind.
    pub proof fn lemma_assign_same(self, path: Seq<Direction>, v: T)
        requires
            path.len() > 0,
            self.child(path[0]) is None,
            self.value(path[0]) == v,
        ensures
            self.assign(path, v) == self,
        decreases path.len(),
    {
        let d = path[0];
        d.lemma_ordinal();
        let after = self.assign(path, v);
        if path.len() > 1 {
            let base = Node::filled(v);
            Node::lemma_filled(v);
            base.lemma_assign_same(path.drop_first(), v);
            assert(self.branch(d).assign(path.drop_first(), v) == base);
        }
        assert(after.data.data =~= self.data.data);
        assert(after.children.data =~= self.children.data);
    }

    /// Storing a value keeps a collapsed tree collapsed.
    pub proof fn lemma_assign_collapsed(self, path: Seq<Direction>, v: T)
        requires
            self.collapsed(),
            path.len() > 0,
        ensures
            self.assign(path, v).collapsed(),
        decreases path.len(),
    {
        let d = path[0];
        let after = self.assign(path, v);
        if path.len() <= 1 {
            self.lemma_with(d, v, None);
            assert forall|p: Seq<Direction>| p.len() > 0 implies match #[trigger] after.node_at(p) {
                Some(c) => !c.uniform(),
                None => true,
            } by {
                assert(after.child(p[0]) == self.child(p[0]));
                assert(after.node_at(p) == self.node_at(p));
            }
        } else {
            let rest = path.drop_first();
            let below = self.branch(d).assign(rest, v);
            self.lemma_branch(d);
            self.branch(d).lemma_assign_collapsed(rest, v);
            self.lemma_with(d, below.value(Direction::FrontLeftBottom), None);
            self.with_value(d, below.value(Direction::FrontLeftBottom)).lemma_with(
                d,
                v,
                None,
            );
            self.lemma_with(d, v, Some(below));
            assert forall|p: Seq<Direction>| p.len() > 0 implies match #[trigger] after.node_at(p) {
                Some(c) => !c.uniform(),
                None => true,
            } by {
                if p[0] != d {
                    assert(after.child(p[0]) == self.child(p[0]));
                    assert(after.node_at(p) == self.node_at(p));
                } else if !below.uniform() {
                    assert(after.child(d) == Some(below));
                    if p.len() > 1 {
                        assert(after.node_at(p) == below.node_at(p.drop_first()));
                    } else {
                        assert(p.drop_first().len() == 0);
                        assert(after.node_at(p) == Some(below));
                    }
                } else {
                    assert(after.child(d) is None);
                }
            }
        }
    }

    /// Storing a value along a path of at most `n + 1` octants keeps a tree
    /// within depth `n`.
    pub proof fn lemma_assign_depth(self, path: Seq<Direction>, v: T, n: nat)
        requires
            self.within_depth(n),
            0 < path.len() <= n + 1,
        ensures
            self.assign(path, v).within_depth(n),
        decreases path.len(),
    {
        let d = path[0];
        let after = self.assign(path, v);
        if path.len() <= 1 {
            self.lemma_with(d, v, None);
            assert forall|p: Seq<Direction>| (#[trigger] after.node_at(p)) is Some implies p.len()
                <= n by {
                if p.len() > 0 {
                    assert(after.child(p[0]) == self.child(p[0]));
                    assert(after.node_at(p) == self.node_at(p));
                }
            }
        } else {
            let rest = path.drop_first();
            let below = self.branch(d).assign(rest, v);
            self.lemma_branch(d);
            self.branch(d).lemma_assign_depth(rest, v, (n - 1) as nat);
            self.lemma_with(d, below.value(Direction::FrontLeftBottom), None);
            self.with_value(d, below.value(Direction::FrontLeftBottom)).lemma_with(
                d,
                v,
                None,
            );
            self.lemma_with(d, v, Some(below));
            assert forall|p: Seq<Direction>| (#[trigger] after.node_at(p)) is Some implies p.len()
                <= n by {
                if p.len() > 0 {
                    if p[0] != d {
                        assert(after.child(p[0]) == self.child(p[0]));
                        assert(after.node_at(p) == self.node_at(p));
                    } else if !below.uniform() {
                        assert(after.child(d) == Some(below));
                        assert(after.node_at(p) == below.node_at(p.drop_first()));
                    } else {
                        assert(after.child(d) is None);
                    }
                }
            }
        }
    }

    /// A value stored in a collapsed tree is the value found at the same
    /// path afterwards, where the tree was subdivided down to the node that
    /// holds the path's next-to-last octant.
    pub proof fn lemma_assign_lookup(self, path: Seq<Direction>, v: T)
        requires
            self.collapsed(),
            path.len() > 0,
            self.reaches(path),
        ensures
            self.assign(path, v).lookup(path) == v,
            self.assign(path, v).uniform() ==> self.assign(path, v).value(
                Direction::FrontLeftBottom,
            ) == v || (path.len() >= 2 && self.uniform()),
        decreases path.len(),
    {
        let d = path[0];
        let first = Direction::FrontLeftBottom;
        let after = self.assign(path, v);
        if path.len() <= 1 {
            self.lemma_with(d, v, None);
            if after.uniform() {
                assert(after.value(d) == after.value(first));
            }
        } else {
            let n = path.len();
            let rest = path.drop_first();
            let base = self.branch(d);
            let below = base.assign(rest, v);
            self.lemma_branch(d);
            self.lemma_with(d, below.value(first), None);
            self.with_value(d, below.value(first)).lemma_with(d, v, None);
            self.lemma_with(d, v, Some(below));
            // the branch is subdivided as far as the rest of the path needs
            if n >= 3 {
                let up = path.take(n - 2);
                assert(up[0] == d);
                assert(up.drop_first() =~= rest.take(n - 3));
                assert(self.child(d) is Some);
                self.lemma_child(d);
            }
            assert(base.reaches(rest));
            base.lemma_assign_lookup(rest, v);
            if below.uniform() {
                assert(after.child(d) is None);
                assert(after.value(d) == below.value(first));
                assert(below.value(first) == v);
                if after.uniform() {
                    assert(after.value(d) == after.value(first));
                }
            } else {
                assert(after.child(d) == Some(below));
                if after.uniform() {
                    assert forall|e: Direction| #[trigger] self.value(e) == self.value(first) by {
                        assert(after.value(e) == after.value(first));
                    }
                }
            }
        }
    }
}

impl<T: Copy + PartialEq> Node<T> {
    /// The node with every value equal to `item` and no child.
    pub fn new_all(item: T) -> (n: Node<T>)
        ensures
            n == Node::filled(item),
    {
        let n = Node {
            children: Box::new(
                DirectionMapper::new([None, None, None, None, None, None, None, None]),
            ),
            data: DirectionMapper::new([item;8]),
        };
        assert(n.data.data =~= Node::filled(item).data.data);
        n
    }

    /// Whether the node's eight values are equal.
    fn is_uniform(&self) -> (b: bool)
        requires
            lawful_eq::<T>(),
        ensures
            b == self.uniform(),
    {
        let mut i: usize = 0;
        while i < 7
            invariant
                i <= 7,
                lawful_eq::<T>(),
                forall|k: int| 0 <= k <= i ==> #[trigger] self.data.data@[k] == self.data.data@[0],
            decreases 7 - i,
        {
            if !(self.data.data[i] == self.data.data[i + 1]) {
                proof {
                    let a = Direction::of(i as nat);
                    let b = Direction::of((i + 1) as nat);
                    assert(self.value(a) == self.data.data[i as int]);
                    assert(self.value(b) == self.data.data[i + 1]);
                }
                return false;
            }
            i += 1;
        }
        proof {
            assert forall|d: Direction| #[trigger] self.value(d) == self.value(
                Direction::FrontLeftBottom,
            ) by {
                d.lemma_ordinal();
            }
        }
        true
    }

    /// Set location on the index path to data.
    /// If the index path goes deeper than the tree does, new subnodes will be created as needed.
    /// A subnode left with eight equal values is merged into its octant.
    pub fn set(&mut self, index_path: IndexPath, data: T)
        requires
            index_path@.len() > 0,
            lawful_eq::<T>(),
        ensures
            *final(self) == old(self).assign(index_path@, data),
            old(self).collapsed() ==> final(self).collapsed(),
            old(self).collapsed() && old(self).reaches(index_path@) ==> final(self).lookup(
                index_path@,
            ) == data,
            forall|n: nat|
                old(self).within_depth(n) && index_path@.len() <= n + 1
                    ==> final(self).within_depth(n),
        decreases index_path@.len(),
    {
        let ghost before = *self;
        let ghost path = index_path@;
        proof {
            if before.collapsed() {
                before.lemma_assign_collapsed(path, data);
                if before.reaches(path) {
                    before.lemma_assign_lookup(path, data);
                }
            }
            assert forall|n: nat| before.within_depth(n) && path.len() <= n + 1 implies before.assign(
                path,
                data,
            ).within_depth(n) by {
                before.lemma_assign_depth(path, data, n);
            }
        }
        let dir = index_path.peek();
        let index_path = index_path.pop();
        let i = dir.index() as usize;
        if index_path.is_empty() {
            self.data.data[i] = data;
            return ;
        } else if let Some(child) = &mut self.children.data[i] {
            child.set(index_path, data);
        } else {
            // Trying to access a child while the node is already a leaf node.
            let mut child = Node::<T>::new_all(self.data.data[i]);
            child.set(index_path, data);
            self.children.data[i] = Some(child);
        }
        let ghost below = before.branch(dir).assign(path.drop_first(), data);
        assert(self.children.data[i as int] == Some(below));
        assert(self.data == before.data);
        let merged = match &self.children.data[i] {
            Some(child) => if child.is_uniform() {
                Some(child.data.data[0])
            } else {
                None
            },
            None => None,
        };
        if let Some(value) = merged {
            // Merge child cell
            self.data.data[i] = value;
            self.children.data[i] = None;
            proof {
                let expect = before.with_value(dir, below.value(Direction::FrontLeftBottom)).with_child(
                    dir,
                    None,
                );
                assert(self.data.data =~= expect.data.data);
                assert(self.children.data =~= expect.children.data);
            }
        } else {
            proof {
                let expect = before.with_child(dir, Some(below));
                assert(self.children.data =~= expect.children.data);
            }
        }
    }
}

} // verus!
