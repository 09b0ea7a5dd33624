//! Builds a chunk from an oracle that says, for any cube of the chunk,
//! whether one value fills it or a surface runs through it.
use vstd::prelude::*;
use vstd::arithmetic::power2::pow2;
use crate::bounds::Bounds;
use crate::chunk::Chunk;
use crate::direction::Direction;
use crate::iterators::leaf::MAX_DEPTH;
use crate::node::Node;
use crate::world::ChunkCoordinates;

verus! {

/// What the oracle says of a cube.
pub enum Isosurface<T> {
    Uniform(T),  // Everything within the bounding box is T
    Surface,  // There exist multiple materials within this bounding box
}

/// An oracle behind a pointer, for builders whose oracle is chosen at run
/// time.
pub type WorldBuildIsosurfaceOracle<T> = Box<dyn Fn(&ChunkCoordinates, &Bounds) -> Isosurface<T>>;

/// Builds chunks by asking `oracle` about their cubes.
#[verifier::reject_recursive_types(T)]
pub struct WorldBuilder<T, ORACLE: Fn(&ChunkCoordinates, &Bounds) -> Isosurface<T>> {
    oracle: ORACLE,
}

/// Whether octant `d` of a node `level` levels below the root is as the
/// oracle's `answer` for the octant's cube asks; `deeper` says whether the
/// octant's child, if it has one, is built as it should be.
///
/// Where the answer is `Uniform`, the octant holds that value and has no
/// child. Where it is `Surface`, the octant keeps its value and has a
/// child; at the deepest level, where no child can stand, the octant holds
/// `fill` instead and has no child.
pub open spec fn answered<T>(
    level: nat,
    fill: T,
    before: Node<T>,
    after: Node<T>,
    d: Direction,
    answer: Isosurface<T>,
    deeper: bool,
) -> bool {
    match answer {
        Isosurface::Uniform(v) => after.value(d) == v && after.child(d) is None,
        Isosurface::Surface => if level < MAX_DEPTH {
            after.value(d) == before.value(d) && after.child(d) is Some && deeper
        } else {
            after.value(d) == fill && after.child(d) is None
        },
    }
}

/// Whether octant `d` is as some answer of the oracle for its cube asks.
pub open spec fn settled<T, F: Fn(&ChunkCoordinates, &Bounds) -> Isosurface<T>>(
    oracle: F,
    coords: ChunkCoordinates,
    cube: Bounds,
    level: nat,
    fill: T,
    before: Node<T>,
    after: Node<T>,
    d: Direction,
    deeper: bool,
) -> bool {
    exists|answer: Isosurface<T>|
        {
            &&& #[trigger] call_ensures(oracle, (&coords, &cube), answer)
            &&& answered(level, fill, before, after, d, answer, deeper)
        }
}

/// The node from which the builder builds the child of octant `d`: the
/// child that is there, or a node filled with `fill`.
pub open spec fn seed<T>(before: Node<T>, d: Direction, fill: T) -> Node<T> {
    match before.child(d) {
        Some(b) => b,
        None => Node::filled(fill),
    }
}

/// Whether `after` is what the builder makes of the node `before`, which
/// stands `level` levels below the root and covers `bounds`: each octant is
/// settled by an answer that the oracle gave for the octant's cube, and
/// each child is what the builder makes of the child that was there, or of
/// a node filled with `fill`.
pub open spec fn grown<T, F: Fn(&ChunkCoordinates, &Bounds) -> Isosurface<T>>(
    oracle: F,
    coords: ChunkCoordinates,
    bounds: Bounds,
    level: nat,
    fill: T,
    before: Node<T>,
    after: Node<T>,
) -> bool
    decreases 21 - level,
{
    level <= MAX_DEPTH && forall|d: Direction|
        #![trigger bounds.half_spec(d)]
        settled(
            oracle,
            coords,
            bounds.half_spec(d),
            level,
            fill,
            before,
            after,
            d,
            level < MAX_DEPTH && after.child(d) is Some ==> grown(
                oracle,
                coords,
                bounds.half_spec(d),
                level + 1,
                fill,
                seed(before, d, fill),
                after.child(d)->0,
            ),
        )
}

/// What the builder knows of an octant once it has dealt with it: the
/// oracle gave `answer`, the octant is as the answer asks, and a child that
/// was built is built as it should be and stays within the depth left.
pub open spec fn octant_grown<T, F: Fn(&ChunkCoordinates, &Bounds) -> Isosurface<T>>(
    oracle: F,
    coords: ChunkCoordinates,
    bounds: Bounds,
    level: nat,
    fill: T,
    before: Node<T>,
    after: Node<T>,
    d: Direction,
    answer: Isosurface<T>,
) -> bool {
    &&& call_ensures(oracle, (&coords, &bounds.half_spec(d)), answer)
    &&& answered(level, fill, before, after, d, answer, true)
    &&& after.child(d) matches Some(c) ==> level < MAX_DEPTH && c.within_depth(
        (MAX_DEPTH - level - 1) as nat,
    ) && grown(oracle, coords, bounds.half_spec(d), level + 1, fill, seed(before, d, fill), c)
}

impl<T: Copy + Default + PartialEq, ORACLE> WorldBuilder<T, ORACLE> where
    ORACLE: Fn(&ChunkCoordinates, &Bounds) -> Isosurface<T>,
 {
    /// The oracle that the builder asks.
    pub closed spec fn oracle(self) -> ORACLE {
        self.oracle
    }

    /// The builder that asks `oracle`.
    pub fn new(oracle: ORACLE) -> (builder: WorldBuilder<T, ORACLE>)
        ensures
            builder.oracle() == oracle,
    {
        WorldBuilder { oracle }
    }

    /// The chunk at `chunk_coords`, as the oracle describes it: built from
    /// the root down, asking the oracle about each octant's cube and going
    /// deeper where it says `Surface`, down to the deepest level.
    pub fn build(&self, chunk_coords: &ChunkCoordinates) -> (chunk: Chunk<T>)
        requires
            forall|c: &ChunkCoordinates, b: &Bounds|
                b.wf() ==> #[trigger] call_requires(self.oracle(), (c, b)),
        ensures
            chunk.root.within_depth(MAX_DEPTH as nat),
            exists|fill: T|
                #![trigger call_ensures(T::default, (), fill)]
                call_ensures(T::default, (), fill) && grown(
                    self.oracle(),
                    *chunk_coords,
                    Bounds::unit(),
                    0,
                    fill,
                    Node::filled(fill),
                    chunk.root,
                ),
    {
        let fill: T = Default::default();
        let mut chunk: Chunk<T> = Chunk { root: Node::new_all(fill) };
        proof {
            Bounds::lemma_path_bounds(Seq::empty());
        }
        self.build_recurse(chunk_coords, &Bounds::new(), &mut chunk.root, 0, fill);
        chunk
    }

    /// Asks the oracle about each octant of `node`, which stands `level`
    /// levels below the root and covers `bounds`, and settles the octant as
    /// the answer asks.
    fn build_recurse(
        &self,
        chunk_coords: &ChunkCoordinates,
        bounds: &Bounds,
        node: &mut Node<T>,
        level: u8,
        fill: T,
    )
        requires
            forall|c: &ChunkCoordinates, b: &Bounds|
                b.wf() ==> #[trigger] call_requires(self.oracle(), (c, b)),
            level <= MAX_DEPTH,
            bounds.wf(),
            bounds.width as nat == pow2((31 - level) as nat),
        ensures
            grown(
                self.oracle(),
                *chunk_coords,
                *bounds,
                level as nat,
                fill,
                *old(node),
                *final(node),
            ),
            final(node).within_depth((MAX_DEPTH - level) as nat),
        decreases MAX_DEPTH - level, 1nat,
    {
        let ghost before = *node;
        let ghost answers: Seq<Isosurface<T>> = Seq::empty();
        proof {
            vstd::arithmetic::power2::lemma2_to64();
            if level < MAX_DEPTH {
                vstd::arithmetic::power2::lemma_pow2_strictly_increases(11, (31 - level) as nat);
            }
        }
        let mut i: usize = 0;
        while i < 8
            invariant
                i <= 8,
                forall|c: &ChunkCoordinates, b: &Bounds|
                    b.wf() ==> #[trigger] call_requires(self.oracle(), (c, b)),
                level <= MAX_DEPTH,
                bounds.wf(),
                bounds.width >= 2048,
                bounds.width as nat == pow2((31 - level) as nat),
                answers.len() == i,
                forall|d: Direction|
                    d.ordinal() < i ==> octant_grown(
                        self.oracle(),
                        *chunk_coords,
                        *bounds,
                        level as nat,
                        fill,
                        before,
                        *node,
                        d,
                        #[trigger] answers[d.ordinal() as int],
                    ),
                forall|d: Direction|
                    d.ordinal() >= i ==> #[trigger] node.value(d) == before.value(d),
                forall|d: Direction|
                    d.ordinal() >= i ==> #[trigger] node.child(d) == before.child(d),
            decreases 8 - i,
        {
            let dir = Direction::from(i as u8);
            let ghost entering = *node;
            proof {
                Direction::lemma_of(i as nat);
                bounds.lemma_half(dir);
                vstd::arithmetic::power2::lemma_pow2_unfold((31 - level) as nat);
            }
            let subbounds = bounds.half(dir);
            assert(call_requires(self.oracle(), (chunk_coords, &subbounds)));
            let answer = (self.oracle)(chunk_coords, &subbounds);
            self.settle(chunk_coords, &subbounds, node, dir, answer, level, fill);
            proof {
                let past = answers;
                answers = answers.push(answer);
                assert forall|d: Direction| d.ordinal() < i + 1 implies octant_grown(
                    self.oracle(),
                    *chunk_coords,
                    *bounds,
                    level as nat,
                    fill,
                    before,
                    *node,
                    d,
                    #[trigger] answers[d.ordinal() as int],
                ) by {
                    d.lemma_ordinal();
                    dir.lemma_ordinal();
                    if d.ordinal() < i {
                        assert(answers[d.ordinal() as int] == past[d.ordinal() as int]);
                        assert(octant_grown(
                            self.oracle(),
                            *chunk_coords,
                            *bounds,
                            level as nat,
                            fill,
                            before,
                            entering,
                            d,
                            past[d.ordinal() as int],
                        ));
                        assert(node.value(d) == entering.value(d));
                        assert(node.child(d) == entering.child(d));
                    } else {
                        assert(d == dir);
                        assert(entering.value(d) == before.value(d));
                        assert(entering.child(d) == before.child(d));
                    }
                }
            }
            i += 1;
        }
        proof {
            let after = *node;
            assert forall|d: Direction| #![trigger bounds.half_spec(d)]
                settled(
                    self.oracle(),
                    *chunk_coords,
                    bounds.half_spec(d),
                    level as nat,
                    fill,
                    before,
                    after,
                    d,
                    level < MAX_DEPTH && after.child(d) is Some ==> grown(
                        self.oracle(),
                        *chunk_coords,
                        bounds.half_spec(d),
                        (level + 1) as nat,
                        fill,
                        seed(before, d, fill),
                        after.child(d)->0,
                    ),
                ) by {
                d.lemma_ordinal();
                let answer = answers[d.ordinal() as int];
                assert(octant_grown(
                    self.oracle(),
                    *chunk_coords,
                    *bounds,
                    level as nat,
                    fill,
                    before,
                    after,
                    d,
                    answer,
                ));
            }
            assert forall|p: Seq<Direction>| (#[trigger] after.node_at(p)) is Some implies p.len()
                <= MAX_DEPTH - level by {
                if p.len() > 0 {
                    let d = p[0];
                    d.lemma_ordinal();
                    let answer = answers[d.ordinal() as int];
                    assert(octant_grown(
                        self.oracle(),
                        *chunk_coords,
                        *bounds,
                        level as nat,
                        fill,
                        before,
                        after,
                        d,
                        answer,
                    ));
                    assert(after.child(d) is Some);
                    let c = after.child(d)->0;
                    assert(c.node_at(p.drop_first()) is Some);
                    assert(c.within_depth((MAX_DEPTH - level - 1) as nat));
                }
            }
        }
    }

    /// Settles octant `dir` of `node`, which stands `level` levels below
    /// the root, as `answer` asks; `cube` is the octant's cube, for which
    /// the oracle gave the answer.
    ///
    /// For `Uniform`, the octant gets the value and loses its child. For
    /// `Surface`, the octant's child is built from the child that is there,
    /// or from a node filled with `fill`; at the deepest level, where no
    /// child can stand, the octant gets `fill` instead and loses its child.
    /// The other octants stay as they are.
    pub fn settle(
        &self,
        chunk_coords: &ChunkCoordinates,
        cube: &Bounds,
        node: &mut Node<T>,
        dir: Direction,
        answer: Isosurface<T>,
        level: u8,
        fill: T,
    )
        requires
            forall|c: &ChunkCoordinates, b: &Bounds|
                b.wf() ==> #[trigger] call_requires(self.oracle(), (c, b)),
            level <= MAX_DEPTH,
            cube.wf(),
            cube.width as nat == pow2((30 - level) as nat),
        ensures
            answered(
                level as nat,
                fill,
                *old(node),
                *final(node),
                dir,
                answer,
                final(node).child(dir) is Some ==> grown(
                    self.oracle(),
                    *chunk_coords,
                    *cube,
                    (level + 1) as nat,
                    fill,
                    seed(*old(node), dir, fill),
                    final(node).child(dir)->0,
                ),
            ),
            final(node).child(dir) matches Some(c) ==> level < MAX_DEPTH && c.within_depth(
                (MAX_DEPTH - level - 1) as nat,
            ),
            forall|d: Direction|
                d != dir ==> #[trigger] final(node).value(d) == old(node).value(d),
            forall|d: Direction|
                d != dir ==> #[trigger] final(node).child(d) == old(node).child(d),
        decreases MAX_DEPTH - level, 0nat,
    {
        let i = dir.index() as usize;
        let ghost entering = *node;
        proof {
            entering.lemma_with(dir, fill, None);
        }
        match answer {
            Isosurface::Uniform(value) => {
                node.data.data[i] = value;
                node.children.data[i] = None;
            },
            Isosurface::Surface => {
                if level < MAX_DEPTH {
                    if let Some(subnode) = &mut node.children.data[i] {
                        self.build_recurse(chunk_coords, cube, subnode, level + 1, fill);
                    } else {
                        let mut newnode = Node::new_all(fill);
                        self.build_recurse(chunk_coords, cube, &mut newnode, level + 1, fill);
                        node.children.data[i] = Some(newnode);
                    }
                } else {
                    node.data.data[i] = fill;
                    node.children.data[i] = None;
                }
            },
        }
        proof {
            assert forall|d: Direction| d != dir implies #[trigger] node.value(d) == entering.value(
                d,
            ) by {
                d.lemma_ordinal();
                dir.lemma_ordinal();
            }
            assert forall|d: Direction| d != dir implies #[trigger] node.child(d) == entering.child(
                d,
            ) by {
                d.lemma_ordinal();
                dir.lemma_ordinal();
            }
        }
    }
}

} // verus!
