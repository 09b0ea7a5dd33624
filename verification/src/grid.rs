//! A chunk laid out as a dense cube of cells, `2^lod` cells to the side.
//!
//! This is an n x n x n array where n is 2^lod, so there are 2^(3*lod)
//! cells, and a cell's place in the array is a binary number of 3*lod
//! digits: the digits of x, then those of y, then those of z.
use vstd::prelude::*;
use vstd::arithmetic::power2::pow2;
use crate::chunk::Chunk;
use crate::direction::{Direction, DirectionMapper};
use crate::node::Node;

verus! {

/// The place in the array of the cell `(x, y, z)` of a grid of `2^lod`
/// cells to the side.
pub open spec fn offset(lod: nat, x: nat, y: nat, z: nat) -> nat {
    z + y * pow2(lod) + x * pow2(2 * lod)
}

/// The cell `(x, y, z)` that stands at the place `at` of the array.
pub open spec fn coords(lod: nat, at: nat) -> (nat, nat, nat) {
    (at / pow2(2 * lod), (at / pow2(lod)) % pow2(lod), at % pow2(lod))
}

/// The powers of two that the grid's arithmetic uses.
pub proof fn lemma_sides(lod: nat)
    ensures
        pow2(lod) > 0,
        pow2(2 * lod) == pow2(lod) * pow2(lod),
        pow2(3 * lod) == pow2(lod) * pow2(2 * lod),
        lod >= 1 ==> pow2(lod) == 2 * pow2((lod - 1) as nat),
{
    vstd::arithmetic::power2::lemma_pow2_pos(lod);
    vstd::arithmetic::power2::lemma_pow2_adds(lod, lod);
    vstd::arithmetic::power2::lemma_pow2_adds(lod, 2 * lod);
    if lod >= 1 {
        vstd::arithmetic::power2::lemma_pow2_unfold(lod);
    }
}

/// The cell at the place of a cell is that cell, and the place lies in the
/// array.
pub proof fn lemma_offset_round_trip(lod: nat, x: nat, y: nat, z: nat)
    requires
        x < pow2(lod),
        y < pow2(lod),
        z < pow2(lod),
    ensures
        offset(lod, x, y, z) < pow2(3 * lod),
        coords(lod, offset(lod, x, y, z)) == (x, y, z),
{
    lemma_sides(lod);
    let s = pow2(lod) as int;
    let square = pow2(2 * lod) as int;
    let at = offset(lod, x, y, z) as int;
    let row = y + x * s;
    assert(at == row * s + z && at == x * square + (z + y * s) && z + y * s < square && at < s * square && row
        == x * s + y) by (nonlinear_arith)
        requires
            at == z + y * s + x * square,
            square == s * s,
            0 <= x < s,
            0 <= y < s,
            0 <= z < s,
            row == y + x * s,
    ;
    vstd::arithmetic::div_mod::lemma_fundamental_div_mod_converse(at, s, row, z as int);
    vstd::arithmetic::div_mod::lemma_fundamental_div_mod_converse(row, s, x as int, y as int);
    vstd::arithmetic::div_mod::lemma_fundamental_div_mod_converse(at, square, x as int, z + y * s);
}

/// The place of the cell at a place of the array is that place, and the
/// cell lies in the grid.
pub proof fn lemma_coords_round_trip(lod: nat, at: nat)
    requires
        at < pow2(3 * lod),
    ensures
        coords(lod, at).0 < pow2(lod),
        coords(lod, at).1 < pow2(lod),
        coords(lod, at).2 < pow2(lod),
        offset(lod, coords(lod, at).0, coords(lod, at).1, coords(lod, at).2) == at,
{
    lemma_sides(lod);
    let s = pow2(lod) as int;
    let square = pow2(2 * lod) as int;
    let a = at as int;
    let row = a / s;
    vstd::arithmetic::div_mod::lemma_fundamental_div_mod(a, s);
    vstd::arithmetic::div_mod::lemma_fundamental_div_mod(row, s);
    vstd::arithmetic::div_mod::lemma_div_denominator(a, s, s);
    assert(a / square == row / s);
    let x = row / s;
    let y = row % s;
    let z = a % s;
    assert(x < s && a == z + y * s + x * square) by (nonlinear_arith)
        requires
            a == s * row + z,
            row == s * x + y,
            square == s * s,
            a < s * square,
            0 <= y < s,
            0 <= z < s,
            s > 0,
            x >= 0,
    ;
}

/// Written with shifts, the place of a cell is
/// `z | y << lod | x << 2 * lod`.
pub proof fn lemma_offset_bits(lod: u64, x: u64, y: u64, z: u64)
    requires
        3 * lod < 64,
        x < pow2(lod as nat),
        y < pow2(lod as nat),
        z < pow2(lod as nat),
    ensures
        z | (y << lod) | (x << ((2 * lod) as u64)) == offset(lod as nat, x as nat, y as nat, z as nat),
{
    let n = lod as nat;
    lemma_sides(n);
    lemma_offset_round_trip(n, x as nat, y as nat, z as nat);
    vstd::bits::lemma_u64_pow2_no_overflow(3 * n);
    vstd::bits::lemma_u64_pow2_no_overflow(n);
    let s = pow2(n) as int;
    let square = pow2(2 * n) as int;
    assert(y * s < square && x * square < s * square) by (nonlinear_arith)
        requires
            square == s * s,
            0 <= x < s,
            0 <= y < s,
    ;
    vstd::bits::lemma_u64_shl_is_mul(y, lod);
    vstd::bits::lemma_u64_shl_is_mul(x, (2 * lod) as u64);
    vstd::bits::lemma_u64_shl_is_mul(1, lod);
    lemma_or_shifted(lod, x, y, z);
}

/// Fields of `lod` bits each, shifted to their places, do not overlap, so
/// `|` adds them.
proof fn lemma_or_shifted(lod: u64, x: u64, y: u64, z: u64)
    by (bit_vector)
    requires
        lod <= 21,
        x < (1u64 << lod),
        y < (1u64 << lod),
        z < (1u64 << lod),
    ensures
        z | (y << lod) | (x << ((2 * lod) as u64)) == z + (y << lod) + (x << ((2 * lod) as u64)),
{
}


impl<T> Node<T> {
    /// The value of the cell `(x, y, z)` of the grid of `2^lod` cells to the
    /// side that lays out the tree below this node.
    ///
    /// With `lod` above one, the cell lies in the octant whose bit 0 says
    /// whether `x` is in the upper half, bit 1 the same of `y` and bit 2 of
    /// `z`; it has the value that the octant's child gives it, or the
    /// octant's value where there is no child. With `lod` one, the node's
    /// eight values are the eight cells, and a value's cell has the bits of
    /// its octant's number as coordinates, the most significant as `x`.
    pub open spec fn sample(self, lod: nat, x: nat, y: nat, z: nat) -> T
        decreases lod,
    {
        if lod <= 1 {
            self.value(Direction::of(4 * x + 2 * y + z))
        } else {
            let half = pow2((lod - 1) as nat);
            let d = Direction::of(octant_of(half, x, y, z));
            match self.child(d) {
                Some(c) => c.sample((lod - 1) as nat, x % half, y % half, z % half),
                None => self.value(d),
            }
        }
    }
}

/// The number of the octant in which the cell `(x, y, z)` of a cube of
/// `2 * half` cells to the side lies.
pub open spec fn octant_of(half: nat, x: nat, y: nat, z: nat) -> nat {
    (if x >= half {
        1nat
    } else {
        0
    }) + (if y >= half {
        2nat
    } else {
        0
    }) + (if z >= half {
        4nat
    } else {
        0
    })
}

/// Whether the cell `(x, y, z)` lies in the cube of `size` cells to the
/// side whose least corner is `at`.
pub open spec fn in_block(at: (usize, usize, usize), size: nat, x: nat, y: nat, z: nat) -> bool {
    &&& at.0 <= x < at.0 + size
    &&& at.1 <= y < at.1 + size
    &&& at.2 <= z < at.2 + size
}

/// A cube of `2^lod` cells to the side, held as one array.
pub struct Grid<T> {
    data: Vec<T>,
    lod: u8,
}

impl<T> Grid<T> {
    /// The grid has `2^lod` cells to the side.
    pub closed spec fn lod(self) -> nat {
        self.lod as nat
    }

    /// The number of cells to the side.
    pub open spec fn side(self) -> nat {
        pow2(self.lod())
    }

    /// The grid's invariant: the array holds the `2^(3 * lod)` cells.
    pub closed spec fn wf(self) -> bool {
        &&& 1 <= self.lod
        &&& 3 * self.lod < usize::BITS
        &&& self.data@.len() == pow2(3 * self.lod as nat)
    }

    /// The values in the order in which the array holds them: `x` counts
    /// slowest, `z` fastest.
    pub closed spec fn cells(self) -> Seq<T> {
        self.data@
    }

    /// The value of the cell `(x, y, z)`.
    pub open spec fn cell(self, x: nat, y: nat, z: nat) -> T {
        self.cells()[offset(self.lod(), x, y, z) as int]
    }

    /// Whether `(x, y, z)` is a cell of the grid.
    pub open spec fn holds(self, x: nat, y: nat, z: nat) -> bool {
        x < self.side() && y < self.side() && z < self.side()
    }

    /// What holds of every grid.
    pub proof fn lemma_wf(self)
        requires
            self.wf(),
        ensures
            1 <= self.lod() <= 21,
            3 * self.lod() < usize::BITS,
            self.cells().len() == pow2(3 * self.lod()),
            self.cells().len() <= usize::MAX,
            2 <= self.side() <= usize::MAX,
    {
        lemma_sides(self.lod());
        vstd::bits::lemma_usize_pow2_no_overflow(3 * self.lod());
        vstd::arithmetic::power2::lemma2_to64();
        if self.lod() > 1 {
            vstd::arithmetic::power2::lemma_pow2_strictly_increases(1, self.lod());
        }
        if self.lod() < 3 * self.lod() {
            vstd::arithmetic::power2::lemma_pow2_strictly_increases(self.lod(), 3 * self.lod());
        }
    }

    /// The number of cells to the side.
    fn size(&self) -> (n: usize)
        requires
            self.wf(),
        ensures
            n == self.side(),
    {
        proof {
            self.lemma_wf();
            vstd::bits::lemma_u64_pow2_no_overflow(self.lod());
            vstd::bits::lemma_u64_shl_is_mul(1, self.lod as u64);
        }
        (1u64 << (self.lod as u64)) as usize
    }

    /// The place of the cell `index` in the array:
    /// `z | y << lod | x << 2 * lod`.
    fn place(&self, index: (usize, usize, usize)) -> (at: usize)
        requires
            self.wf(),
            self.holds(index.0 as nat, index.1 as nat, index.2 as nat),
        ensures
            at == offset(self.lod(), index.0 as nat, index.1 as nat, index.2 as nat),
            at < self.cells().len(),
    {
        proof {
            self.lemma_wf();
            lemma_offset_bits(self.lod as u64, index.0 as u64, index.1 as u64, index.2 as u64);
            lemma_offset_round_trip(self.lod(), index.0 as nat, index.1 as nat, index.2 as nat);
        }
        let lod = self.lod as u64;
        ((index.2 as u64) | ((index.1 as u64) << lod) | ((index.0 as u64) << (2 * lod))) as usize
    }

    /// The value of the cell `index`.
    pub fn at(&self, index: (usize, usize, usize)) -> (value: &T)
        requires
            self.wf(),
            self.holds(index.0 as nat, index.1 as nat, index.2 as nat),
        ensures
            *value == self.cell(index.0 as nat, index.1 as nat, index.2 as nat),
    {
        &self.data[self.place(index)]
    }

    /// Stores `value` in the cell `index`.
    fn put(&mut self, index: (usize, usize, usize), value: T)
        requires
            old(self).wf(),
            old(self).holds(index.0 as nat, index.1 as nat, index.2 as nat),
        ensures
            final(self).wf(),
            final(self).lod() == old(self).lod(),
            final(self).cell(index.0 as nat, index.1 as nat, index.2 as nat) == value,
            forall|x: nat, y: nat, z: nat|
                old(self).holds(x, y, z) && (x, y, z) != (
                    index.0 as nat,
                    index.1 as nat,
                    index.2 as nat,
                ) ==> #[trigger] final(self).cell(x, y, z) == old(self).cell(x, y, z),
    {
        let at = self.place(index);
        let ghost before = *self;
        self.data[at] = value;
        proof {
            let lod = self.lod();
            assert forall|x: nat, y: nat, z: nat|
                before.holds(x, y, z) && (x, y, z) != (
                    index.0 as nat,
                    index.1 as nat,
                    index.2 as nat,
                ) implies #[trigger] self.cell(x, y, z) == before.cell(x, y, z) by {
                lemma_offset_round_trip(lod, x, y, z);
                lemma_offset_round_trip(lod, index.0 as nat, index.1 as nat, index.2 as nat);
                assert(offset(lod, x, y, z) != at);
            }
        }
    }
}

/// Whether the flood fill of the block at `at` has reached the cell
/// `(x, y, z)` of the block when it stands before the cell `(i, j, k)`.
pub open spec fn flooded(
    at: (usize, usize, usize),
    x: nat,
    y: nat,
    z: nat,
    i: nat,
    j: nat,
    k: nat,
) -> bool {
    x - at.0 < i || (x - at.0 == i && (y - at.1 < j || (y - at.1 == j && z - at.2 < k)))
}

/// Whether `now` is the right value for the cell `(x, y, z)` while the tree
/// below `node` is laid out in the cube of `2^lod` cells at `at` and the
/// octants below `next` are done: the tree's value in those octants, and
/// the value `was` that the cell had in the others and outside the cube.
pub open spec fn laid_out<T: Clone>(
    node: Node<T>,
    lod: nat,
    at: (usize, usize, usize),
    next: nat,
    x: nat,
    y: nat,
    z: nat,
    was: T,
    now: T,
) -> bool {
    let rx = (x - at.0) as nat;
    let ry = (y - at.1) as nat;
    let rz = (z - at.2) as nat;
    let octant = if lod <= 1 {
        4 * rx + 2 * ry + rz
    } else {
        octant_of(pow2((lod - 1) as nat), rx, ry, rz)
    };
    if in_block(at, pow2(lod), x, y, z) && octant < next {
        cloned(node.sample(lod, rx, ry, rz), now)
    } else {
        now == was
    }
}

/// The cells of one octant of a cube are the cells of the cube's half-wide
/// block at the octant's corner, and they keep their place within it.
proof fn lemma_octant_block(
    at: (usize, usize, usize),
    corner: (usize, usize, usize),
    half: nat,
    d: Direction,
    x: nat,
    y: nat,
    z: nat,
)
    requires
        half > 0,
        corner.0 == at.0 + d.x_bit() * half,
        corner.1 == at.1 + d.y_bit() * half,
        corner.2 == at.2 + d.z_bit() * half,
    ensures
        in_block(corner, half, x, y, z) <==> in_block(at, 2 * half, x, y, z) && octant_of(
            half,
            (x - at.0) as nat,
            (y - at.1) as nat,
            (z - at.2) as nat,
        ) == d.ordinal(),
        in_block(corner, half, x, y, z) ==> ((x - at.0) as nat) % half == x - corner.0 && ((y
            - at.1) as nat) % half == y - corner.1 && ((z - at.2) as nat) % half == z - corner.2,
{
    d.lemma_ordinal();
    assert(d.x_bit() * half == (if d.x_bit() == 1 { half } else { 0 })) by (nonlinear_arith)
        requires
            d.x_bit() < 2,
    ;
    assert(d.y_bit() * half == (if d.y_bit() == 1 { half } else { 0 })) by (nonlinear_arith)
        requires
            d.y_bit() < 2,
    ;
    assert(d.z_bit() * half == (if d.z_bit() == 1 { half } else { 0 })) by (nonlinear_arith)
        requires
            d.z_bit() < 2,
    ;
    if in_block(corner, half, x, y, z) {
        lemma_small_mod((x - at.0) as nat, half);
        lemma_small_mod((y - at.1) as nat, half);
        lemma_small_mod((z - at.2) as nat, half);
    }
}

/// Below `2 * half`, the remainder by `half` takes `half` off the upper
/// half.
proof fn lemma_small_mod(r: nat, half: nat)
    requires
        half > 0,
        r < 2 * half,
    ensures
        r % half == (if r >= half {
            r - half
        } else {
            r as int
        }),
{
    if r >= half {
        vstd::arithmetic::div_mod::lemma_fundamental_div_mod_converse(
            r as int,
            half as int,
            1,
            r - half,
        );
    } else {
        vstd::arithmetic::div_mod::lemma_fundamental_div_mod_converse(
            r as int,
            half as int,
            0,
            r as int,
        );
    }
}

impl<T: Clone> Grid<T> {
    /// The grid of `2^lod` cells to the side that lays out `chunk`.
    pub fn new(chunk: &Chunk<T>, lod: u8) -> (grid: Grid<T>)
        requires
            1 <= lod,
            3 * lod < usize::BITS,
        ensures
            grid.wf(),
            grid.lod() == lod,
            forall|x: nat, y: nat, z: nat|
                grid.holds(x, y, z) ==> cloned(
                    chunk.root.sample(lod as nat, x, y, z),
                    #[trigger] grid.cell(x, y, z),
                ),
    {
        proof {
            lemma_sides(lod as nat);
            vstd::bits::lemma_usize_pow2_no_overflow(3 * lod as nat);
            vstd::bits::lemma_u64_pow2_no_overflow(3 * lod as nat);
            vstd::bits::lemma_u64_shl_is_mul(1, (3 * lod) as u64);
        }
        let capacity: usize = (1u64 << (3 * lod as u64)) as usize;
        let first = &chunk.root.data.data[0];
        let mut data: Vec<T> = Vec::new();
        while data.len() < capacity
            invariant
                data@.len() <= capacity,
            decreases capacity - data@.len(),
        {
            data.push(first.clone());
        }
        let mut grid = Self { data, lod };
        grid.build_chunk_recursive(&chunk.root, lod, (0, 0, 0));
        proof {
            assert forall|x: nat, y: nat, z: nat| grid.holds(x, y, z) implies cloned(
                chunk.root.sample(lod as nat, x, y, z),
                #[trigger] grid.cell(x, y, z),
            ) by {
                assert(in_block((0usize, 0usize, 0usize), pow2(lod as nat), x, y, z));
                lemma_octant_bound(lod as nat, x, y, z);
            }
        }
        grid
    }

    /// Fills the block of `size` cells to the side at `location` with
    /// `value`.
    fn fill_block(&mut self, location: (usize, usize, usize), size: usize, value: &T)
        requires
            old(self).wf(),
            location.0 + size <= old(self).side(),
            location.1 + size <= old(self).side(),
            location.2 + size <= old(self).side(),
        ensures
            final(self).wf(),
            final(self).lod() == old(self).lod(),
            forall|x: nat, y: nat, z: nat|
                old(self).holds(x, y, z) ==> if in_block(location, size as nat, x, y, z) {
                    cloned(*value, #[trigger] final(self).cell(x, y, z))
                } else {
                    final(self).cell(x, y, z) == old(self).cell(x, y, z)
                },
    {
        let ghost before = *self;
        proof {
            before.lemma_wf();
        }
        let mut i: usize = 0;
        while i < size
            invariant
                self.wf(),
                self.lod() == before.lod(),
                before.side() <= usize::MAX,
                i <= size,
                location.0 + size <= before.side(),
                location.1 + size <= before.side(),
                location.2 + size <= before.side(),
                forall|x: nat, y: nat, z: nat|
                    before.holds(x, y, z) ==> if in_block(location, size as nat, x, y, z)
                        && flooded(location, x, y, z, i as nat, 0, 0) {
                        cloned(*value, #[trigger] self.cell(x, y, z))
                    } else {
                        self.cell(x, y, z) == before.cell(x, y, z)
                    },
            decreases size - i,
        {
            let mut j: usize = 0;
            while j < size
                invariant
                    self.wf(),
                    self.lod() == before.lod(),
                    before.side() <= usize::MAX,
                    i < size,
                    j <= size,
                    location.0 + size <= before.side(),
                    location.1 + size <= before.side(),
                    location.2 + size <= before.side(),
                    forall|x: nat, y: nat, z: nat|
                        before.holds(x, y, z) ==> if in_block(location, size as nat, x, y, z)
                            && flooded(location, x, y, z, i as nat, j as nat, 0) {
                            cloned(*value, #[trigger] self.cell(x, y, z))
                        } else {
                            self.cell(x, y, z) == before.cell(x, y, z)
                        },
                decreases size - j,
            {
                let mut k: usize = 0;
                while k < size
                    invariant
                        self.wf(),
                        self.lod() == before.lod(),
                        before.side() <= usize::MAX,
                        i < size,
                        j < size,
                        k <= size,
                        location.0 + size <= before.side(),
                        location.1 + size <= before.side(),
                        location.2 + size <= before.side(),
                        forall|x: nat, y: nat, z: nat|
                            before.holds(x, y, z) ==> if in_block(location, size as nat, x, y, z)
                                && flooded(location, x, y, z, i as nat, j as nat, k as nat) {
                                cloned(*value, #[trigger] self.cell(x, y, z))
                            } else {
                                self.cell(x, y, z) == before.cell(x, y, z)
                            },
                    decreases size - k,
                {
                    let mut newlocation = location;
                    newlocation.0 += i;
                    newlocation.1 += j;
                    newlocation.2 += k;
                    let ghost entering = *self;
                    self.put(newlocation, value.clone());
                    proof {
                        assert forall|x: nat, y: nat, z: nat| before.holds(x, y, z) implies if in_block(
                            location,
                            size as nat,
                            x,
                            y,
                            z,
                        ) && flooded(location, x, y, z, i as nat, j as nat, (k + 1) as nat) {
                            cloned(*value, #[trigger] self.cell(x, y, z))
                        } else {
                            self.cell(x, y, z) == before.cell(x, y, z)
                        } by {
                            if (x, y, z) != (
                                newlocation.0 as nat,
                                newlocation.1 as nat,
                                newlocation.2 as nat,
                            ) {
                                assert(self.cell(x, y, z) == entering.cell(x, y, z));
                            }
                        }
                    }
                    k += 1;
                }
                j += 1;
            }
            i += 1;
        }
    }

    /// Lays out the tree below `node` in the cube of `2^lod` cells to the
    /// side at `location`.
    fn build_chunk_recursive(&mut self, node: &Node<T>, lod: u8, location: (usize, usize, usize))
        requires
            old(self).wf(),
            1 <= lod <= old(self).lod(),
            location.0 + pow2(lod as nat) <= old(self).side(),
            location.1 + pow2(lod as nat) <= old(self).side(),
            location.2 + pow2(lod as nat) <= old(self).side(),
        ensures
            final(self).wf(),
            final(self).lod() == old(self).lod(),
            forall|x: nat, y: nat, z: nat|
                old(self).holds(x, y, z) ==> laid_out(
                    *node,
                    lod as nat,
                    location,
                    8,
                    x,
                    y,
                    z,
                    old(self).cell(x, y, z),
                    #[trigger] final(self).cell(x, y, z),
                ),
        decreases lod,
    {
        let ghost before = *self;
        proof {
            before.lemma_wf();
            lemma_sides(lod as nat);
            vstd::arithmetic::power2::lemma2_to64();
        }
        if lod == 1 {  // base case
            // Copy data into the grid
            let mut cursor = node.data.enumerate();
            loop
                invariant
                    self.wf(),
                    self.lod() == before.lod(),
                    before.side() <= usize::MAX,
                    lod == 1,
                    cursor.mapper() == node.data,
                    cursor.position() <= 8,
                    location.0 + 2 <= before.side(),
                    location.1 + 2 <= before.side(),
                    location.2 + 2 <= before.side(),
                    forall|x: nat, y: nat, z: nat|
                        before.holds(x, y, z) ==> laid_out(
                            *node,
                            1,
                            location,
                            cursor.position(),
                            x,
                            y,
                            z,
                            before.cell(x, y, z),
                            #[trigger] self.cell(x, y, z),
                        ),
                ensures
                    self.wf(),
                    self.lod() == before.lod(),
                    forall|x: nat, y: nat, z: nat|
                        before.holds(x, y, z) ==> laid_out(
                            *node,
                            1,
                            location,
                            8,
                            x,
                            y,
                            z,
                            before.cell(x, y, z),
                            #[trigger] self.cell(x, y, z),
                        ),
                decreases 8 - cursor.position(),
            {
                let ghost pos = cursor.position();
                let ghost entering = *self;
                match cursor.next() {
                    Some((dir, data)) => {
                        let offset = dir.breakdown();
                        let coords = (
                            location.0 + offset.0 as usize,
                            location.1 + offset.1 as usize,
                            location.2 + offset.2 as usize,
                        );
                        self.put(coords, data.clone());
                        proof {
                            dir.lemma_ordinal();
                            Direction::lemma_of(pos);
                            vstd::arithmetic::power2::lemma2_to64();
                            assert(*data == node.value(dir));
                            assert(node.sample(
                                1,
                                dir.z_bit(),
                                dir.y_bit(),
                                dir.x_bit(),
                            ) == node.value(dir));
                            assert forall|x: nat, y: nat, z: nat|
                                before.holds(x, y, z) implies laid_out(
                                *node,
                                1,
                                location,
                                pos + 1,
                                x,
                                y,
                                z,
                                before.cell(x, y, z),
                                #[trigger] self.cell(x, y, z),
                            ) by {
                                assert(laid_out(
                                    *node,
                                    1,
                                    location,
                                    pos,
                                    x,
                                    y,
                                    z,
                                    before.cell(x, y, z),
                                    entering.cell(x, y, z),
                                ));
                                if (x, y, z) != (coords.0 as nat, coords.1 as nat, coords.2 as nat) {
                                    assert(self.cell(x, y, z) == entering.cell(x, y, z));
                                    if in_block(location, 2, x, y, z) {
                                        let rx = (x - location.0) as nat;
                                        let ry = (y - location.1) as nat;
                                        let rz = (z - location.2) as nat;
                                        assert(4 * rx + 2 * ry + rz != pos);
                                    }
                                } else {
                                    assert(cloned(*data, self.cell(x, y, z)));
                                }
                            }
                        }
                    },
                    None => {
                        break ;
                    },
                }
            }
            return ;
        }
        // Inductive steps.

        let new_lod = lod - 1;
        proof {
            vstd::bits::lemma_u64_pow2_no_overflow(new_lod as nat);
            vstd::bits::lemma_u64_shl_is_mul(1, new_lod as u64);
            lemma_sides(new_lod as nat);
        }
        let size: usize = (1u64 << (new_lod as u64)) as usize;
        let mut cursor = node.children.enumerate();
        loop
            invariant
                self.wf(),
                self.lod() == before.lod(),
                before.side() <= usize::MAX,
                2 <= lod <= before.lod(),
                new_lod == lod - 1,
                size == pow2(new_lod as nat),
                size > 0,
                pow2(lod as nat) == 2 * size,
                cursor.mapper() == *node.children,
                cursor.position() <= 8,
                location.0 + pow2(lod as nat) <= before.side(),
                location.1 + pow2(lod as nat) <= before.side(),
                location.2 + pow2(lod as nat) <= before.side(),
                forall|x: nat, y: nat, z: nat|
                    before.holds(x, y, z) ==> laid_out(
                        *node,
                        lod as nat,
                        location,
                        cursor.position(),
                        x,
                        y,
                        z,
                        before.cell(x, y, z),
                        #[trigger] self.cell(x, y, z),
                    ),
            ensures
                self.wf(),
                self.lod() == before.lod(),
                forall|x: nat, y: nat, z: nat|
                    before.holds(x, y, z) ==> laid_out(
                        *node,
                        lod as nat,
                        location,
                        8,
                        x,
                        y,
                        z,
                        before.cell(x, y, z),
                        #[trigger] self.cell(x, y, z),
                    ),
            decreases 8 - cursor.position(),
        {
            let ghost pos = cursor.position();
            let ghost entering = *self;
            match cursor.next() {
                Some((dir, child)) => {
                    let mut newlocation = location;
                    if dir.is_max_x() {
                        newlocation.0 += size;
                    }
                    if dir.is_max_y() {
                        newlocation.1 += size;
                    }
                    if dir.is_max_z() {
                        newlocation.2 += size;
                    }
                    proof {
                        dir.lemma_ordinal();
                        Direction::lemma_of(pos);
                        assert(*child == node.child(dir));
                    }
                    if let Some(child) = child {
                        self.build_chunk_recursive(child, new_lod, newlocation);
                    } else {
                        // Fill area
                        let fakedata = &node.data.data[dir.index() as usize];
                        self.fill_block(newlocation, size, fakedata);
                    }
                    proof {
                        assert forall|x: nat, y: nat, z: nat| before.holds(x, y, z) implies laid_out(
                            *node,
                            lod as nat,
                            location,
                            pos + 1,
                            x,
                            y,
                            z,
                            before.cell(x, y, z),
                            #[trigger] self.cell(x, y, z),
                        ) by {
                            lemma_octant_block(location, newlocation, size as nat, dir, x, y, z);
                            assert(laid_out(
                                *node,
                                lod as nat,
                                location,
                                pos,
                                x,
                                y,
                                z,
                                before.cell(x, y, z),
                                entering.cell(x, y, z),
                            ));
                            if let Some(c) = node.child(dir) {
                                assert(laid_out(
                                    c,
                                    new_lod as nat,
                                    newlocation,
                                    8,
                                    x,
                                    y,
                                    z,
                                    entering.cell(x, y, z),
                                    self.cell(x, y, z),
                                ));
                                if in_block(newlocation, size as nat, x, y, z) {
                                    lemma_octant_bound(
                                        new_lod as nat,
                                        (x - newlocation.0) as nat,
                                        (y - newlocation.1) as nat,
                                        (z - newlocation.2) as nat,
                                    );
                                }
                            }
                        }
                    }
                },
                None => {
                    break ;
                },
            }
        }
    }
}

/// Every cell of a cube lies in one of the cube's eight octants.
proof fn lemma_octant_bound(lod: nat, rx: nat, ry: nat, rz: nat)
    requires
        lod >= 1,
        rx < pow2(lod),
        ry < pow2(lod),
        rz < pow2(lod),
    ensures
        lod == 1 ==> 4 * rx + 2 * ry + rz < 8,
        lod > 1 ==> octant_of(pow2((lod - 1) as nat), rx, ry, rz) < 8,
{
    vstd::arithmetic::power2::lemma2_to64();
}

impl<T> std::ops::Index<(usize, usize, usize)> for Grid<T> {
    type Output = T;

    fn index(&self, index: (usize, usize, usize)) -> (value: &T)
        ensures
            *value == self.cell(index.0 as nat, index.1 as nat, index.2 as nat),
    {
        self.at(index)
    }
}

impl<T> vstd::std_specs::core::IndexSpecImpl<(usize, usize, usize)> for Grid<T> {
    open spec fn index_req(&self, index: &(usize, usize, usize)) -> bool {
        self.wf() && self.holds(index.0 as nat, index.1 as nat, index.2 as nat)
    }
}

/// Whether the cell at the place `at` of the array has a neighbour in the
/// grid towards greater `x`, `y` and `z`.
pub open spec fn interior(lod: nat, at: nat) -> bool {
    let (x, y, z) = coords(lod, at);
    x + 1 < pow2(lod) && y + 1 < pow2(lod) && z + 1 < pow2(lod)
}

/// The coordinates of the cell at the place `at`, taken from the place with
/// shifts and a mask.
fn cell_at(lod: u8, at: usize) -> (c: (usize, usize, usize))
    requires
        1 <= lod,
        3 * lod < usize::BITS,
        at < pow2(3 * lod as nat),
    ensures
        (c.0 as nat, c.1 as nat, c.2 as nat) == coords(lod as nat, at as nat),
        c.0 < pow2(lod as nat),
        c.1 < pow2(lod as nat),
        c.2 < pow2(lod as nat),
{
    let shift = lod as u64;
    let location = at as u64;
    proof {
        let n = lod as nat;
        lemma_sides(n);
        lemma_coords_round_trip(n, at as nat);
        vstd::bits::lemma_u64_pow2_no_overflow(n);
        vstd::bits::lemma_u64_pow2_no_overflow(2 * n);
        vstd::bits::lemma_u64_shl_is_mul(1, shift);
        vstd::bits::lemma_u64_shr_is_div(location, shift);
        vstd::bits::lemma_u64_shr_is_div(location, (2 * shift) as u64);
        vstd::bits::lemma_u64_low_bits_mask_is_mod(location, n);
        vstd::bits::lemma_u64_low_bits_mask_is_mod(location >> shift, n);
    }
    let mask = (1u64 << shift) - 1;
    let z = location & mask;
    let y = (location >> shift) & mask;
    let x = location >> (shift * 2);
    proof {
        let n = lod as nat;
        vstd::bits::lemma_usize_pow2_no_overflow(n);
        assert(mask == vstd::bits::low_bits_mask(n));
    }
    (x as usize, y as usize, z as usize)
}

/// A cursor over the cells of a grid, in the order of the array.
pub struct GridIterator<'a, T> {
    grid: &'a Grid<T>,
    location: usize,
}

impl<'a, T> GridIterator<'a, T> {
    /// The grid that the cursor walks.
    pub closed spec fn grid(self) -> Grid<T> {
        *self.grid
    }

    /// The place in the array of the next cell.
    pub closed spec fn position(self) -> nat {
        self.location as nat
    }

    /// The grid that is walked is well formed.
    #[verifier::type_invariant]
    closed spec fn wf(self) -> bool {
        self.grid.wf()
    }

    /// The next cell with its coordinates, or `None` after the last cell.
    pub fn next(&mut self) -> (item: Option<((usize, usize, usize), &'a T)>)
        ensures
            final(self).grid() == old(self).grid(),
            old(self).position() >= old(self).grid().cells().len() ==> item is None
                && final(self).position() == old(self).position(),
            old(self).position() < old(self).grid().cells().len() ==> final(self).position()
                == old(self).position() + 1 && item is Some,
            item matches Some((c, v)) ==> (c.0 as nat, c.1 as nat, c.2 as nat) == coords(
                old(self).grid().lod(),
                old(self).position(),
            ) && *v == old(self).grid().cells()[old(self).position() as int],
    {
        proof {
            use_type_invariant(&*self);
            self.grid.lemma_wf();
        }
        let lod = self.grid.lod;
        let capacity = self.grid.data.len();
        if self.location >= capacity {
            None
        } else {
            let item = &self.grid.data[self.location];
            let c = cell_at(lod, self.location);
            self.location += 1;
            Some((c, item))
        }
    }
}

/// A cursor over the cells of a grid that have a neighbour towards greater
/// `x`, `y` and `z`, in the order of the array; each comes with the eight
/// corners of the unit cube that it starts.
pub struct GridGroupedIterator<'a, T> {
    grid: &'a Grid<T>,
    location: usize,
}

impl<'a, T> GridGroupedIterator<'a, T> {
    /// The grid that the cursor walks.
    pub closed spec fn grid(self) -> Grid<T> {
        *self.grid
    }

    /// The place in the array at which the search for the next cell starts.
    pub closed spec fn position(self) -> nat {
        self.location as nat
    }

    /// The grid that is walked is well formed.
    #[verifier::type_invariant]
    closed spec fn wf(self) -> bool {
        self.grid.wf()
    }

    /// The next cell that starts a unit cube inside the grid, with the
    /// cube's eight corners: the corner for an octant lies one cell further
    /// along each axis whose bit the octant has set, the most significant
    /// bit standing for `x`. `None` once no such cell is left.
    pub fn next(&mut self) -> (item: Option<((usize, usize, usize), DirectionMapper<&'a T>)>)
        ensures
            final(self).grid() == old(self).grid(),
            old(self).position() <= final(self).position(),
            forall|at: nat|
                old(self).position() <= at && at + 1 < final(self).position() ==> !#[trigger] interior(
                    old(self).grid().lod(),
                    at,
                ),
            item is None ==> final(self).position() >= old(self).grid().cells().len() && (
            final(self).position() > old(self).position() ==> !interior(
                old(self).grid().lod(),
                (final(self).position() - 1) as nat,
            )),
            item matches Some((c, corners)) ==> {
                let at = (final(self).position() - 1) as nat;
                &&& final(self).position() > old(self).position()
                &&& at < old(self).grid().cells().len()
                &&& interior(old(self).grid().lod(), at)
                &&& (c.0 as nat, c.1 as nat, c.2 as nat) == coords(old(self).grid().lod(), at)
                &&& forall|d: Direction|
                    *#[trigger] corners[d] == old(self).grid().cell(
                        c.0 as nat + d.z_bit(),
                        c.1 as nat + d.y_bit(),
                        c.2 as nat + d.x_bit(),
                    )
            },
    {
        proof {
            use_type_invariant(&*self);
            self.grid.lemma_wf();
        }
        let grid = self.grid;
        let lod = grid.lod;
        let size = grid.size();
        let capacity = grid.data.len();
        let ghost start = self.location as nat;
        loop
            invariant
                grid == self.grid,
                grid == old(self).grid,
                grid.wf(),
                lod == grid.lod,
                size == grid.side(),
                capacity == grid.data@.len(),
                capacity == pow2(3 * lod as nat),
                1 <= lod,
                3 * lod < usize::BITS,
                start == old(self).position(),
                start <= self.location,
                forall|at: nat|
                    start <= at < self.location ==> !#[trigger] interior(lod as nat, at),
            decreases capacity - self.location,
        {
            if self.location >= capacity {
                return None;
            }
            let (x, y, z) = cell_at(lod, self.location);
            self.location += 1;
            if z + 1 >= size || y + 1 >= size || x + 1 >= size {
                continue ;
            }
            let corner_of = |dir: Direction| -> (corner: &'a T)
                ensures
                    *corner == grid.cell(
                        x as nat + dir.z_bit(),
                        y as nat + dir.y_bit(),
                        z as nat + dir.x_bit(),
                    ),
                {
                    let offset = dir.breakdown();
                    proof {
                        dir.lemma_ordinal();
                    }
                    let new_location: (usize, usize, usize) = (
                        x + offset.0 as usize,
                        y + offset.1 as usize,
                        z + offset.2 as usize,
                    );
                    grid.at(new_location)
                };
            let mapper = Direction::map(corner_of);
            return Some(((x, y, z), mapper));
        }
    }
}

impl<'a, T> Grid<T> {
    /// A cursor over all cells, standing before the first.
    pub fn iter(&'a self) -> (cursor: GridIterator<'a, T>)
        requires
            self.wf(),
        ensures
            cursor.grid() == *self,
            cursor.position() == 0,
    {
        GridIterator { grid: self, location: 0 }
    }

    /// A cursor over the cells that start a unit cube inside the grid,
    /// standing before the first.
    pub fn iter_grouped(&'a self) -> (cursor: GridGroupedIterator<'a, T>)
        requires
            self.wf(),
        ensures
            cursor.grid() == *self,
            cursor.position() == 0,
    {
        GridGroupedIterator { grid: self, location: 0 }
    }
}

} // verus!
