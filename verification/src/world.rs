//! The world: chunks kept by their integer coordinates.
use vstd::prelude::*;
use crate::chunk::Chunk;

verus! {

/// The place of a chunk in the world, in whole chunks along each axis.
#[derive(Copy, Clone, Eq, PartialEq, Structural, Hash, Debug)]
pub struct ChunkCoordinates(pub i64, pub i64, pub i64);

impl ChunkCoordinates {
    /// The coordinates of the chunk at the origin.
    pub fn new() -> (c: Self)
        ensures
            c == ChunkCoordinates(0, 0, 0),
    {
        Self(0, 0, 0)
    }
}

/// Whether some entry names `place`.
pub open spec fn has_entry<T>(
    entries: Seq<(ChunkCoordinates, Chunk<T>)>,
    place: ChunkCoordinates,
) -> bool {
    exists|i: int| 0 <= i < entries.len() && (#[trigger] entries[i]).0 == place
}

/// The index of an entry that names `place`.
pub open spec fn entry_of<T>(
    entries: Seq<(ChunkCoordinates, Chunk<T>)>,
    place: ChunkCoordinates,
) -> int {
    choose|i: int| 0 <= i < entries.len() && (#[trigger] entries[i]).0 == place
}

/// Whether no two entries name the same place.
pub open spec fn distinct<T>(entries: Seq<(ChunkCoordinates, Chunk<T>)>) -> bool {
    forall|i: int, j: int|
        0 <= i < j < entries.len() ==> (#[trigger] entries[i]).0 != (#[trigger] entries[j]).0
}

/// The chunks that `entries` hold, by their places.
pub open spec fn chunks_of<T>(entries: Seq<(ChunkCoordinates, Chunk<T>)>) -> Map<
    ChunkCoordinates,
    Chunk<T>,
> {
    Map::new(
        |place: ChunkCoordinates| has_entry(entries, place),
        |place: ChunkCoordinates| entries[entry_of(entries, place)].1,
    )
}

/// The chunks of the world. No place is named twice.
pub struct World<T> {
    nodes: Vec<(ChunkCoordinates, Chunk<T>)>,
}

impl<T> View for World<T> {
    type V = Map<ChunkCoordinates, Chunk<T>>;

    /// The chunk at each place that has one.
    closed spec fn view(&self) -> Map<ChunkCoordinates, Chunk<T>> {
        chunks_of(self.nodes@)
    }
}

impl<T> World<T> {
    /// No place is named twice.
    #[verifier::type_invariant]
    closed spec fn wf(self) -> bool {
        distinct(self.nodes@)
    }

    /// The world without any chunk.
    pub fn new() -> (world: Self)
        ensures
            world@ == Map::<ChunkCoordinates, Chunk<T>>::empty(),
    {
        let world = World { nodes: Vec::new() };
        assert(world@ =~= Map::<ChunkCoordinates, Chunk<T>>::empty());
        world
    }

    /// Puts `chunk` at `location` and hands back the chunk that was there.
    pub fn insert(&mut self, location: ChunkCoordinates, chunk: Chunk<T>) -> (old_chunk: Option<
        Chunk<T>,
    >)
        ensures
            final(self)@ == old(self)@.insert(location, chunk),
            old_chunk == (if old(self)@.contains_key(location) {
                Some(old(self)@[location])
            } else {
                None
            }),
    {
        proof {
            use_type_invariant(&*self);
        }
        let ghost before = self.nodes@;
        let mut nodes = Vec::new();
        std::mem::swap(&mut self.nodes, &mut nodes);
        let mut i: usize = 0;
        while i < nodes.len()
            invariant
                i <= nodes.len(),
                nodes@ == before,
                before == old(self).nodes@,
                distinct(before),
                forall|j: int| 0 <= j < i ==> (#[trigger] before[j]).0 != location,
            decreases nodes.len() - i,
        {
            if nodes[i].0 == location {
                let mut entry = (location, chunk);
                proof {
                    lemma_replace(before, i as int, chunk);
                }
                std::mem::swap(&mut nodes[i], &mut entry);
                assert(nodes@ =~= before.update(i as int, (location, chunk)));
                self.nodes = nodes;
                return Some(entry.1);
            }
            i += 1;
        }
        proof {
            lemma_append(before, location, chunk);
        }
        nodes.push((location, chunk));
        self.nodes = nodes;
        None
    }
}

/// The entry that names a place is the only one that does.
proof fn lemma_entry_of<T>(entries: Seq<(ChunkCoordinates, Chunk<T>)>, i: int)
    requires
        distinct(entries),
        0 <= i < entries.len(),
    ensures
        has_entry(entries, entries[i].0),
        entry_of(entries, entries[i].0) == i,
        chunks_of(entries).contains_key(entries[i].0),
        chunks_of(entries)[entries[i].0] == entries[i].1,
{
    let k = entry_of(entries, entries[i].0);
    if k < i {
        assert(entries[k].0 != entries[i].0);
    } else if i < k {
        assert(entries[i].0 != entries[k].0);
    }
}

/// Replacing the chunk of an entry replaces the chunk at its place.
proof fn lemma_replace<T>(entries: Seq<(ChunkCoordinates, Chunk<T>)>, i: int, chunk: Chunk<T>)
    requires
        distinct(entries),
        0 <= i < entries.len(),
    ensures
        distinct(entries.update(i, (entries[i].0, chunk))),
        chunks_of(entries.update(i, (entries[i].0, chunk))) == chunks_of(entries).insert(
            entries[i].0,
            chunk,
        ),
        chunks_of(entries).contains_key(entries[i].0),
        chunks_of(entries)[entries[i].0] == entries[i].1,
{
    let location = entries[i].0;
    let after = entries.update(i, (location, chunk));
    lemma_entry_of(entries, i);
    assert(distinct(after)) by {
        assert forall|a: int, b: int| 0 <= a < b < after.len() implies (#[trigger] after[a]).0 != (
        #[trigger] after[b]).0 by {
            assert(after[a].0 == entries[a].0);
            assert(after[b].0 == entries[b].0);
        }
    }
    assert forall|place: ChunkCoordinates|
        #[trigger] has_entry(after, place) == has_entry(entries, place) by {
        if has_entry(after, place) {
            let k = entry_of(after, place);
            assert(entries[k].0 == place);
        }
        if has_entry(entries, place) {
            let k = entry_of(entries, place);
            assert(after[k].0 == place);
        }
    }
    assert forall|place: ChunkCoordinates| has_entry(after, place) implies #[trigger] chunks_of(
        after,
    )[place] == chunks_of(entries).insert(location, chunk)[place] by {
        let k = entry_of(after, place);
        lemma_entry_of(after, k);
        assert(entries[k].0 == place);
        lemma_entry_of(entries, k);
    }
    assert(chunks_of(after) =~= chunks_of(entries).insert(location, chunk));
}

/// Adding an entry for a place that none names adds the chunk at that
/// place.
proof fn lemma_append<T>(
    entries: Seq<(ChunkCoordinates, Chunk<T>)>,
    location: ChunkCoordinates,
    chunk: Chunk<T>,
)
    requires
        distinct(entries),
        forall|j: int| 0 <= j < entries.len() ==> (#[trigger] entries[j]).0 != location,
    ensures
        distinct(entries.push((location, chunk))),
        chunks_of(entries.push((location, chunk))) == chunks_of(entries).insert(location, chunk),
        !chunks_of(entries).contains_key(location),
{
    let after = entries.push((location, chunk));
    assert(distinct(after)) by {
        assert forall|a: int, b: int| 0 <= a < b < after.len() implies (#[trigger] after[a]).0 != (
        #[trigger] after[b]).0 by {
            assert(after[a] == entries[a]);
            if b < entries.len() {
                assert(after[b] == entries[b]);
            }
        }
    }
    assert forall|place: ChunkCoordinates|
        #[trigger] has_entry(after, place) == (has_entry(entries, place) || place == location) by {
        if has_entry(after, place) {
            let k = entry_of(after, place);
            if k < entries.len() {
                assert(entries[k].0 == place);
            }
        }
        if has_entry(entries, place) {
            let k = entry_of(entries, place);
            assert(after[k].0 == place);
        }
        if place == location {
            assert(after[entries.len() as int].0 == place);
        }
    }
    assert forall|place: ChunkCoordinates| has_entry(after, place) implies #[trigger] chunks_of(
        after,
    )[place] == chunks_of(entries).insert(location, chunk)[place] by {
        let k = entry_of(after, place);
        lemma_entry_of(after, k);
        if k < entries.len() {
            assert(entries[k] == after[k]);
            lemma_entry_of(entries, k);
        }
    }
    assert(chunks_of(after) =~= chunks_of(entries).insert(location, chunk));
}

impl<T: crate::VoxelData> World<T> {
    /// The chunk at `location`, if the world has one there.
    pub fn get_chunk_ref(&self, location: &ChunkCoordinates) -> (chunk: Option<&Chunk<T>>)
        ensures
            chunk == (if self@.contains_key(*location) {
                Some(&self@[*location])
            } else {
                None
            }),
    {
        proof {
            use_type_invariant(self);
        }
        let mut i: usize = 0;
        while i < self.nodes.len()
            invariant
                i <= self.nodes.len(),
                distinct(self.nodes@),
                forall|j: int| 0 <= j < i ==> (#[trigger] self.nodes@[j]).0 != *location,
            decreases self.nodes.len() - i,
        {
            if self.nodes[i].0 == *location {
                proof {
                    lemma_entry_of(self.nodes@, i as int);
                }
                return Some(&self.nodes[i].1);
            }
            i += 1;
        }
        None
    }
}

} // verus!
