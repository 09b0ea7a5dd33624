//! The walk over a chunk's leaves: the octants that are not subdivided,
//! depth first and in the order of the octants' numbers.
use vstd::prelude::*;
use crate::bounds::Bounds;
use crate::chunk::Chunk;
use crate::direction::Direction;
use crate::index_path::IndexPath;
use crate::node::Node;
use crate::voxel::Voxel;

verus! {

/// The deepest level at which a node can stand, so that the paths to its
/// octants fit an `IndexPath`.
pub const MAX_DEPTH: u8 = 20;

impl<T> Node<T> {
    /// The leaves below the octants `from..8` of a node that stands at
    /// `prefix`, each with its path and value, depth first and in the order
    /// of the octants' numbers. Nodes more than `depth` levels down are not
    /// entered: their octants count as leaves.
    pub open spec fn leaves_from(self, prefix: Seq<Direction>, from: nat, depth: nat) -> Seq<
        (Seq<Direction>, T),
    >
        decreases depth, 8 - from,
    {
        if from >= 8 {
            Seq::empty()
        } else {
            let d = Direction::of(from);
            let here = match self.child(d) {
                Some(c) => if depth > 0 {
                    c.leaves_from(prefix.push(d), 0, (depth - 1) as nat)
                } else {
                    seq![(prefix.push(d), self.value(d))]
                },
                None => seq![(prefix.push(d), self.value(d))],
            };
            here + self.leaves_from(prefix, from + 1, depth)
        }
    }

    /// All leaves of a tree that stands at the root and is within depth 20.
    pub open spec fn leaves(self) -> Seq<(Seq<Direction>, T)> {
        self.leaves_from(Seq::empty(), 0, MAX_DEPTH as nat)
    }
}

impl<T> Node<T> {
    /// Every item of `leaves_from` is a leaf: its path goes on from
    /// `prefix` through one of the octants `from..8` to an octant without a
    /// child, and its value is that octant's value, which is the value
    /// found at the path.
    pub proof fn lemma_leaves_are_leaves(self, prefix: Seq<Direction>, from: nat, depth: nat, i: int)
        requires
            self.within_depth(depth),
            0 <= i < self.leaves_from(prefix, from, depth).len(),
        ensures
            ({
                let (p, v) = self.leaves_from(prefix, from, depth)[i];
                let q = p.skip(prefix.len() as int);
                &&& p.len() > prefix.len()
                &&& p.take(prefix.len() as int) == prefix
                &&& from <= q[0].ordinal()
                &&& self.node_at(q.drop_last()) matches Some(n) && n.child(q.last()) is None
                    && n.value(q.last()) == v
                &&& self.lookup(q) == v
            }),
        decreases depth, 8 - from,
    {
        let all = self.leaves_from(prefix, from, depth);
        let d = Direction::of(from);
        Direction::lemma_of(from);
        d.lemma_ordinal();
        let down = prefix.push(d);
        let here = match self.child(d) {
            Some(c) => if depth > 0 {
                c.leaves_from(down, 0, (depth - 1) as nat)
            } else {
                seq![(down, self.value(d))]
            },
            None => seq![(down, self.value(d))],
        };
        let after = self.leaves_from(prefix, from + 1, depth);
        assert(all == here + after);
        let (p, v) = all[i];
        let q = p.skip(prefix.len() as int);
        if i < here.len() {
            assert(all[i] == here[i]);
            if self.child(d) is Some {
                self.lemma_child(d);
                let c = self.child(d)->0;
                assert(depth > 0);
                c.lemma_leaves_are_leaves(down, 0, (depth - 1) as nat, i);
                let inner = p.skip(down.len() as int);
                assert(p.take(prefix.len() as int) =~= down.take(prefix.len() as int)) by {
                    assert(p.take(down.len() as int) == down);
                    assert(p.take(down.len() as int).take(prefix.len() as int) =~= p.take(
                        prefix.len() as int,
                    ));
                }
                assert(down.take(prefix.len() as int) =~= prefix);
                assert(q =~= seq![d] + inner) by {
                    assert(p.take(down.len() as int) == down);
                    assert(p[prefix.len() as int] == p.take(down.len() as int)[prefix.len() as int]);
                }
                assert(q.drop_last() =~= seq![d] + inner.drop_last());
                self.lemma_node_at_child(d, inner.drop_last());
                assert(q.drop_first() =~= inner);
                assert(q.last() == inner.last());
            } else {
                assert(p == down);
                assert(q =~= seq![d]);
                assert(p.take(prefix.len() as int) =~= prefix);
                assert(q.drop_last() =~= Seq::<Direction>::empty());
            }
        } else {
            assert(all[i] == after[i - here.len()]);
            self.lemma_leaves_are_leaves(prefix, from + 1, depth, i - here.len());
        }
    }
}

impl<T> Node<T> {
    /// Every leaf is an item of `leaves_from`: an octant without a child,
    /// reached through one of the octants `from..8`, comes with its path
    /// after `prefix` and the value found there.
    pub proof fn lemma_leaves_are_complete(
        self,
        prefix: Seq<Direction>,
        from: nat,
        depth: nat,
        q: Seq<Direction>,
    )
        requires
            self.within_depth(depth),
            q.len() > 0,
            from <= q[0].ordinal(),
            self.node_at(q.drop_last()) matches Some(n) && n.child(q.last()) is None,
        ensures
            exists|i: int|
                0 <= i < self.leaves_from(prefix, from, depth).len() && #[trigger] self.leaves_from(
                    prefix,
                    from,
                    depth,
                )[i] == (prefix + q, self.lookup(q)),
        decreases depth, 8 - from,
    {
        q[0].lemma_ordinal();
        let all = self.leaves_from(prefix, from, depth);
        let d = Direction::of(from);
        Direction::lemma_of(from);
        d.lemma_ordinal();
        let down = prefix.push(d);
        let here = match self.child(d) {
            Some(c) => if depth > 0 {
                c.leaves_from(down, 0, (depth - 1) as nat)
            } else {
                seq![(down, self.value(d))]
            },
            None => seq![(down, self.value(d))],
        };
        let after = self.leaves_from(prefix, from + 1, depth);
        assert(all == here + after);
        if q[0] == d {
            if q.len() == 1 {
                assert(q.drop_last() =~= Seq::<Direction>::empty());
                assert(self.child(d) is None);
                assert(prefix + q =~= down);
                assert(all[0] == here[0]);
            } else {
                let up = q.drop_last();
                assert(up[0] == d);
                assert(self.child(d) is Some);
                self.lemma_child(d);
                let c = self.child(d)->0;
                let inner = q.drop_first();
                assert(inner.drop_last() =~= up.drop_first());
                assert(inner.last() == q.last());
                inner[0].lemma_ordinal();
                c.lemma_leaves_are_complete(down, 0, (depth - 1) as nat, inner);
                let j = choose|j: int|
                    0 <= j < here.len() && #[trigger] here[j] == (down + inner, c.lookup(inner));
                assert(down + inner =~= prefix + q);
                assert(all[j] == here[j]);
            }
        } else {
            assert(q[0].ordinal() != d.ordinal());
            self.lemma_leaves_are_complete(prefix, from + 1, depth, q);
            let j = choose|j: int|
                0 <= j < after.len() && #[trigger] after[j] == (prefix + q, self.lookup(q));
            assert(all[here.len() + j] == after[j]);
        }
    }
}

/// The leaves still to come when the walk stands in the node on top of
/// `stack`, at `path`, before that node's octant `dir`.
pub open spec fn pending<T>(stack: Seq<(Direction, &Node<T>)>, path: Seq<Direction>, dir: nat) -> Seq<
    (Seq<Direction>, T),
>
    decreases stack.len(),
{
    if stack.len() == 0 {
        Seq::empty()
    } else {
        let (from, node) = stack.last();
        let here = node.leaves_from(path, dir, (21 - stack.len()) as nat);
        if stack.len() == 1 {
            here
        } else {
            here + pending(stack.drop_last(), path.drop_last(), from.ordinal() + 1)
        }
    }
}

/// Whether `stack` holds the nodes along `path`, from `root` down, each
/// with the octant that leads to it.
pub open spec fn along<T>(root: Node<T>, stack: Seq<(Direction, &Node<T>)>, path: Seq<Direction>) -> bool {
    &&& path.len() == stack.len() - 1
    &&& forall|k: int|
        0 <= k < stack.len() ==> root.node_at(path.take(k)) == Some(*(#[trigger] stack[k]).1)
    &&& forall|k: int| 0 < k < stack.len() ==> (#[trigger] stack[k]).0 == path[k - 1]
}

/// The node on top of the stack is the one that the path leads to, and
/// lies within the tree's depth.
proof fn lemma_along_top<T>(root: Node<T>, stack: Seq<(Direction, &Node<T>)>, path: Seq<Direction>)
    requires
        stack.len() > 0,
        along(root, stack, path),
        root.within_depth(MAX_DEPTH as nat),
    ensures
        root.node_at(path) == Some(*stack.last().1),
        path.len() <= MAX_DEPTH,
        stack.len() > 1 ==> stack.last().0 == path.last(),
{
    assert(path.take(stack.len() - 1) =~= path);
    assert(root.node_at(path) == Some(*stack[stack.len() - 1].1));
}

/// Leaving the node on top of the stack keeps the stack along the path.
proof fn lemma_along_pop<T>(root: Node<T>, stack: Seq<(Direction, &Node<T>)>, path: Seq<Direction>)
    requires
        stack.len() > 1,
        along(root, stack, path),
    ensures
        along(root, stack.drop_last(), path.drop_last()),
{
    let up = path.drop_last();
    let below = stack.drop_last();
    assert forall|k: int| 0 <= k < below.len() implies root.node_at(up.take(k)) == Some(
        *(#[trigger] below[k]).1,
    ) by {
        assert(up.take(k) =~= path.take(k));
        assert(below[k] == stack[k]);
    }
    assert forall|k: int| 0 < k < below.len() implies (#[trigger] below[k]).0 == up[k - 1] by {
        assert(below[k] == stack[k]);
    }
}

/// Entering a child of the node on top of the stack keeps the stack along
/// the path.
proof fn lemma_along_push<T>(
    root: Node<T>,
    stack: Seq<(Direction, &Node<T>)>,
    path: Seq<Direction>,
    d: Direction,
    child: &Node<T>,
)
    requires
        stack.len() > 0,
        along(root, stack, path),
        stack.last().1.child(d) == Some(*child),
    ensures
        along(root, stack.push((d, child)), path.push(d)),
        root.node_at(path.push(d)) == Some(*child),
{
    let down = path.push(d);
    let above = stack.push((d, child));
    assert(path.take(stack.len() - 1) =~= path);
    assert(root.node_at(path) == Some(*stack[stack.len() - 1].1));
    root.lemma_node_at_push(path, d);
    assert forall|k: int| 0 <= k < above.len() implies root.node_at(down.take(k)) == Some(
        *(#[trigger] above[k]).1,
    ) by {
        if k < stack.len() {
            assert(down.take(k) =~= path.take(k));
            assert(above[k] == stack[k]);
        } else {
            assert(down.take(k) =~= down);
        }
    }
    assert forall|k: int| 0 < k < above.len() implies (#[trigger] above[k]).0 == down[k - 1] by {
        if k < stack.len() {
            assert(above[k] == stack[k]);
        }
    }
}

/// Once a node's last octant is done, the leaves to come are those that
/// follow the node in its parent.
proof fn lemma_pending_ascend<T>(stack: Seq<(Direction, &Node<T>)>, path: Seq<Direction>)
    requires
        stack.len() > 0,
    ensures
        stack.len() == 1 ==> pending(stack, path, 8).len() == 0,
        stack.len() > 1 ==> pending(stack, path, 8) == pending(
            stack.drop_last(),
            path.drop_last(),
            stack.last().0.ordinal() + 1,
        ),
{
    let node = stack.last().1;
    let here = node.leaves_from(path, 8, (21 - stack.len()) as nat);
    assert(here =~= Seq::empty());
    if stack.len() > 1 {
        let tail = pending(stack.drop_last(), path.drop_last(), stack.last().0.ordinal() + 1);
        assert(here + tail =~= tail);
    }
}

/// Before a subdivided octant, the leaves to come are those of the child,
/// then those after the octant.
proof fn lemma_pending_descend<T>(
    stack: Seq<(Direction, &Node<T>)>,
    path: Seq<Direction>,
    d: Direction,
    child: &Node<T>,
)
    requires
        0 < stack.len() <= MAX_DEPTH,
        stack.last().1.child(d) == Some(*child),
    ensures
        pending(stack.push((d, child)), path.push(d), 0) == pending(stack, path, d.ordinal()),
{
    d.lemma_ordinal();
    let node = stack.last().1;
    let fuel = (21 - stack.len()) as nat;
    let above = stack.push((d, child));
    let down = path.push(d);
    assert(above.drop_last() =~= stack);
    assert(down.drop_last() =~= path);
    assert(above.last() == (d, child));
    let inner = child.leaves_from(down, 0, (fuel - 1) as nat);
    let after = node.leaves_from(path, d.ordinal() + 1, fuel);
    assert(node.leaves_from(path, d.ordinal(), fuel) == inner + after);
    assert(pending(above, down, 0) == inner + pending(stack, path, d.ordinal() + 1));
    if stack.len() == 1 {
        assert(pending(stack, path, d.ordinal() + 1) == after);
        assert(pending(stack, path, d.ordinal()) == inner + after);
    } else {
        let tail = pending(stack.drop_last(), path.drop_last(), stack.last().0.ordinal() + 1);
        assert(pending(stack, path, d.ordinal() + 1) == after + tail);
        assert(pending(stack, path, d.ordinal()) == (inner + after) + tail);
        assert((inner + after) + tail =~= inner + (after + tail));
    }
}

/// Before an octant that is not subdivided, the first leaf to come is the
/// octant itself.
proof fn lemma_pending_emit<T>(stack: Seq<(Direction, &Node<T>)>, path: Seq<Direction>, d: Direction)
    requires
        0 < stack.len(),
        stack.last().1.child(d) is None,
    ensures
        pending(stack, path, d.ordinal()).len() > 0,
        pending(stack, path, d.ordinal()).first() == (path.push(d), stack.last().1.value(d)),
        pending(stack, path, d.ordinal()).drop_first() == pending(stack, path, d.ordinal() + 1),
{
    d.lemma_ordinal();
    let node = stack.last().1;
    let fuel = (21 - stack.len()) as nat;
    let leaf = (path.push(d), node.value(d));
    let after = node.leaves_from(path, d.ordinal() + 1, fuel);
    assert(node.leaves_from(path, d.ordinal(), fuel) == seq![leaf] + after);
    if stack.len() == 1 {
        assert(pending(stack, path, d.ordinal() + 1) == after);
        assert((seq![leaf] + after).drop_first() =~= after);
    } else {
        let tail = pending(stack.drop_last(), path.drop_last(), stack.last().0.ordinal() + 1);
        assert(pending(stack, path, d.ordinal() + 1) == after + tail);
        assert(pending(stack, path, d.ordinal()) == (seq![leaf] + after) + tail);
        assert(((seq![leaf] + after) + tail).drop_first() =~= after + tail);
    }
}

/// A walk over the leaves of a chunk.
pub struct ChunkLeafIterator<'a, T> {
    chunk: &'a Chunk<T>,
    stack: Vec<(Direction, &'a Node<T>)>,
    index_path: IndexPath,
    bounds: Bounds,
    dir: u8,  // Next voxel to emit
}

impl<'a, T> ChunkLeafIterator<'a, T> {
    /// The chunk that is walked.
    pub closed spec fn chunk(self) -> Chunk<T> {
        *self.chunk
    }

    /// The leaves still to come, each with its path and value.
    pub closed spec fn remaining(self) -> Seq<(Seq<Direction>, T)> {
        pending(self.stack@, self.index_path@, self.dir as nat)
    }

    /// The walk's invariant: the stack holds the nodes along the current
    /// path, from the root down, and the cube is the one that the path
    /// reaches.
    pub closed spec fn wf(self) -> bool {
        &&& self.dir <= 8
        &&& self.chunk.root.within_depth(MAX_DEPTH as nat)
        &&& self.stack@.len() > 0 ==> {
            &&& self.bounds == Bounds::unit().descend(self.index_path@)
            &&& along(self.chunk.root, self.stack@, self.index_path@)
        }
    }

    /// Iterates all leaf nodes: the next leaf's voxel, or `None` once every
    /// leaf was handed out.
    pub fn next(&mut self) -> (item: Option<Voxel<'a, T>>)
        requires
            old(self).wf(),
        ensures
            final(self).wf(),
            final(self).chunk() == old(self).chunk(),
            old(self).remaining().len() == 0 ==> item is None && final(self).remaining().len()
                == 0,
            old(self).remaining().len() > 0 ==> item is Some
                && final(self).remaining() == old(self).remaining().drop_first(),
            item matches Some(v) ==> {
                let leaf = old(self).remaining().first();
                &&& v.path() == leaf.0
                &&& v.node().value(leaf.0.last()) == leaf.1
                &&& v.node().child(leaf.0.last()) is None
                &&& v.bounds() == Bounds::unit().descend(leaf.0)
                &&& v.within(old(self).chunk().root)
            },
    {
        loop
            invariant
                self.wf(),
                self.chunk == old(self).chunk,
                self.remaining() == old(self).remaining(),
            decreases
                    (if self.dir >= 8 {
                        100 + self.stack@.len() as int
                    } else {
                        21 - self.stack@.len() as int
                    }),
        {
            let depth = self.stack.len();
            if depth > 0 {
                // Peek the last node on the stack, which stores the indice to that arena node,
                // as well as how we get to this node (from the parent node)
                let (fromdir, node) = self.stack[depth - 1];
                let ghost path = self.index_path@;
                let ghost stack = self.stack@;
                let ghost root = self.chunk.root;
                proof {
                    lemma_along_top(root, stack, path);
                }
                if self.dir >= 8 {
                    // We've finished iterating all dirs on this node.
                    // Pop from stack, and continue from where we left off on the parent node
                    self.stack.pop();
                    proof {
                        assert(self.stack@ =~= stack.drop_last());
                        lemma_pending_ascend(stack, path);
                    }
                    if self.stack.is_empty() {
                        return None;  // If we just popped the last item from the stack, fromdir is actually meaningless. Return directly.
                    }
                    proof {
                        let up = path.drop_last();
                        assert(up.push(fromdir) =~= path);
                        Bounds::lemma_path_bounds(up);
                        Bounds::unit().descend(up).lemma_half_then_merge(fromdir);
                        fromdir.lemma_ordinal();
                        lemma_along_pop(root, stack, path);
                    }
                    self.index_path = self.index_path.del();
                    self.bounds = self.bounds.merge(fromdir);
                    self.dir = fromdir.index() + 1;
                    continue ;
                }
                let dir: Direction = Direction::from(self.dir);
                proof {
                    Direction::lemma_of(self.dir as nat);
                    Bounds::lemma_path_bounds(path);
                    assert(path.push(dir).drop_last() =~= path);
                }
                if let Some(subnode) = &node.children.data[self.dir as usize] {
                    // Has a child on that dir, needs to go deeper
                    proof {
                        assert(node.child(dir) == Some(*subnode));
                        lemma_along_push(root, stack, path, dir, subnode);
                        lemma_pending_descend(stack, path, dir, subnode);
                    }
                    self.stack.push((dir, subnode));
                    self.index_path = self.index_path.put(dir);
                    self.bounds = self.bounds.half(dir);
                    self.dir = 0;
                    continue ;
                } else {
                    proof {
                        assert(node.child(dir) is None);
                        lemma_pending_emit(stack, path, dir);
                    }
                    let voxel = Voxel::at_octant(node, self.index_path, self.bounds, dir);
                    self.dir += 1;
                    return Some(voxel);
                }
            } else {
                // The stack is empty meaning that there is no more nodes.
                return None;
            }
        }
    }
}

impl<T> Chunk<T> {
    /// The walk over the chunk's leaves, standing before the first one.
    pub fn iter_leaf(&self) -> (iter: ChunkLeafIterator<'_, T>)
        requires
            self.root.within_depth(MAX_DEPTH as nat),
        ensures
            iter.wf(),
            iter.chunk() == *self,
            iter.remaining() == self.root.leaves(),
    {
        let mut stack = Vec::new();
        stack.push((Direction::from(0), &self.root));
        let iter = ChunkLeafIterator {
            chunk: &self,
            stack,
            index_path: IndexPath::new(),
            bounds: Bounds::new(),
            dir: 0,
        };
        proof {
            assert(iter.index_path@.take(0) =~= Seq::<Direction>::empty());
            assert(iter.stack@.len() == 1);
            assert(iter.stack@[0].1 == &self.root);
        }
        iter
    }
}

} // verus!
