//! Octants of a cube, the cube's twelve edges, and a fixed table with one
//! slot per octant.
//!
//! ```text
//!          Cell Corners                      Cell Edges
//!
//!       6-------------------7           o--------4----------o
//!      /|                  /|          /|                  /|
//!     / |                 / |         7 |                 5 |
//!    /  |                /  |        /  |                /  |
//!   4-------------------5   |       o--------6----------o   |
//!   |   |               |   |       |   8               |   9
//!   |   |               |   |       |   |               |   |
//!   |   |               |   |       11  |               10  |
//!   |   2---------------|---3       |   o--------0------|---o
//!   |  /                |  /        |  /                |  /
//!   | /                 | /         | 3                 | 1
//!   |/                  |/          |/                  |/
//!   0-------------------1           o--------2----------o
//! ```
use vstd::prelude::*;
use vstd::std_specs::convert::FromSpecImpl;

verus! {

/// One of the eight octants of a cube. Bit 0 of the octant's number selects
/// the upper half along x, bit 1 along y and bit 2 along z.
#[derive(Copy, Clone, Debug, PartialEq, Eq, Structural)]
pub enum Direction {
    FrontLeftBottom,
    FrontRightBottom,
    RearLeftBottom,
    RearRightBottom,
    FrontLeftTop,
    FrontRightTop,
    RearLeftTop,
    RearRightTop,
}

impl Direction {
    /// The octant's number, `0..=7`.
    pub open spec fn ordinal(self) -> nat {
        match self {
            Direction::FrontLeftBottom => 0,
            Direction::FrontRightBottom => 1,
            Direction::RearLeftBottom => 2,
            Direction::RearRightBottom => 3,
            Direction::FrontLeftTop => 4,
            Direction::FrontRightTop => 5,
            Direction::RearLeftTop => 6,
            Direction::RearRightTop => 7,
        }
    }

    /// The octant whose number is `n` modulo 8.
    pub open spec fn of(n: nat) -> Direction {
        let k = n % 8;
        if k == 0 {
            Direction::FrontLeftBottom
        } else if k == 1 {
            Direction::FrontRightBottom
        } else if k == 2 {
            Direction::RearLeftBottom
        } else if k == 3 {
            Direction::RearRightBottom
        } else if k == 4 {
            Direction::FrontLeftTop
        } else if k == 5 {
            Direction::FrontRightTop
        } else if k == 6 {
            Direction::RearLeftTop
        } else {
            Direction::RearRightTop
        }
    }

    /// Bit 0 of the octant's number.
    pub open spec fn x_bit(self) -> nat {
        self.ordinal() % 2
    }

    /// Bit 1 of the octant's number.
    pub open spec fn y_bit(self) -> nat {
        (self.ordinal() / 2) % 2
    }

    /// Bit 2 of the octant's number.
    pub open spec fn z_bit(self) -> nat {
        self.ordinal() / 4
    }

    /// The octant's number as a byte.
    pub fn index(self) -> (n: u8)
        ensures
            n == self.ordinal(),
            n < 8,
    {
        match self {
            Direction::FrontLeftBottom => 0,
            Direction::FrontRightBottom => 1,
            Direction::RearLeftBottom => 2,
            Direction::RearRightBottom => 3,
            Direction::FrontLeftTop => 4,
            Direction::FrontRightTop => 5,
            Direction::RearLeftTop => 6,
            Direction::RearRightTop => 7,
        }
    }

    /// Whether the octant lies in the upper half along x.
    #[inline]
    pub fn is_max_x(&self) -> (b: bool)
        ensures
            b == (self.x_bit() == 1),
    {
        let n = self.index();
        proof {
            lemma_octant_bits(n);
        }
        n & 0b001 != 0
    }

    /// Whether the octant lies in the lower half along x.
    #[inline]
    pub fn is_min_x(&self) -> (b: bool)
        ensures
            b == (self.x_bit() == 0),
    {
        let n = self.index();
        proof {
            lemma_octant_bits(n);
        }
        n & 0b001 == 0
    }

    /// Whether the octant lies in the upper half along y.
    #[inline]
    pub fn is_max_y(&self) -> (b: bool)
        ensures
            b == (self.y_bit() == 1),
    {
        let n = self.index();
        proof {
            lemma_octant_bits(n);
        }
        n & 0b010 != 0
    }

    /// Whether the octant lies in the lower half along y.
    #[inline]
    pub fn is_min_y(&self) -> (b: bool)
        ensures
            b == (self.y_bit() == 0),
    {
        let n = self.index();
        proof {
            lemma_octant_bits(n);
        }
        n & 0b010 == 0
    }

    /// Whether the octant lies in the upper half along z.
    #[inline]
    pub fn is_max_z(&self) -> (b: bool)
        ensures
            b == (self.z_bit() == 1),
    {
        let n = self.index();
        proof {
            lemma_octant_bits(n);
        }
        n & 0b100 != 0
    }

    /// Whether the octant lies in the lower half along z.
    #[inline]
    pub fn is_min_z(&self) -> (b: bool)
        ensures
            b == (self.z_bit() == 0),
    {
        let n = self.index();
        proof {
            lemma_octant_bits(n);
        }
        n & 0b100 == 0
    }

    /// The octant across the cube's centre: its number is seven less this
    /// octant's.
    pub open spec fn flipped(self) -> Direction {
        Direction::of((7 - self.ordinal()) as nat)
    }

    /// The octant across the cube's centre.
    #[inline]
    pub fn opposite(&self) -> (d: Self)
        ensures
            d == self.flipped(),
            d.ordinal() == 7 - self.ordinal(),
    {
        Direction::from(7 - self.index())
    }

    /// A table filled by calling `f` once for each octant, in the order of
    /// the octants' numbers.
    pub fn map<T, F>(f: F) -> (m: DirectionMapper<T>) where F: Fn(Self) -> T
        requires
            forall|d: Direction| call_requires(f, (d,)),
        ensures
            forall|d: Direction| call_ensures(f, (d,), #[trigger] m[d]),
    {
        let m = DirectionMapper::new(
            [
                f(Self::FrontLeftBottom),
                f(Self::FrontRightBottom),
                f(Self::RearLeftBottom),
                f(Self::RearRightBottom),
                f(Self::FrontLeftTop),
                f(Self::FrontRightTop),
                f(Self::RearLeftTop),
                f(Self::RearRightTop),
            ],
        );
        assert forall|d: Direction| call_ensures(f, (d,), #[trigger] m[d]) by {
            match d {
                Direction::FrontLeftBottom => {},
                Direction::FrontRightBottom => {},
                Direction::RearLeftBottom => {},
                Direction::RearRightBottom => {},
                Direction::FrontLeftTop => {},
                Direction::FrontRightTop => {},
                Direction::RearLeftTop => {},
                Direction::RearRightTop => {},
            }
        }
        m
    }

    /// The three bits of the octant's number, the most significant first.
    pub fn breakdown(&self) -> (bits: (u8, u8, u8))
        ensures
            bits.0 == self.z_bit(),
            bits.1 == self.y_bit(),
            bits.2 == self.x_bit(),
    {
        let val = self.index();
        proof {
            lemma_octant_bits(val);
        }
        let z = val & 0b001;
        let y = (val >> 1) & 0b001;
        let x = val >> 2;
        (x, y, z)
    }

    /// An octant is the opposite of its opposite.
    pub proof fn lemma_opposite_involution(self)
        ensures
            self.flipped().flipped() == self,
    {
    }

    /// An octant's number names the octant, and the three bits make up the
    /// number.
    pub proof fn lemma_ordinal(self)
        ensures
            self.ordinal() < 8,
            Direction::of(self.ordinal()) == self,
            self.ordinal() == self.x_bit() + 2 * self.y_bit() + 4 * self.z_bit(),
            self.x_bit() < 2,
            self.y_bit() < 2,
            self.z_bit() < 2,
    {
    }

    /// Every number below eight is the number of its octant.
    pub proof fn lemma_of(n: nat)
        ensures
            Direction::of(n).ordinal() == n % 8,
    {
    }
}

/// The bits of a byte, each said as arithmetic.
proof fn lemma_octant_bits(n: u8)
    by (bit_vector)
    ensures
        n & 0b111 == n % 8,
        n & 0b001 == n % 2,
        (n & 0b010 != 0) == ((n / 2) % 2 == 1),
        n < 8 ==> ((n & 0b100 != 0) == (n / 4 == 1)),
        (n >> 1) & 0b001 == (n / 2) % 2,
        n >> 2 == n / 4,
{
}

impl From<u8> for Direction {
    /// The octant named by the low three bits of `val`.
    fn from(val: u8) -> (d: Self)
        ensures
            d == Direction::of(val as nat),
    {
        proof {
            lemma_octant_bits(val);
        }
        let val = val & 0b111;
        if val == 0 {
            Direction::FrontLeftBottom
        } else if val == 1 {
            Direction::FrontRightBottom
        } else if val == 2 {
            Direction::RearLeftBottom
        } else if val == 3 {
            Direction::RearRightBottom
        } else if val == 4 {
            Direction::FrontLeftTop
        } else if val == 5 {
            Direction::FrontRightTop
        } else if val == 6 {
            Direction::RearLeftTop
        } else {
            Direction::RearRightTop
        }
    }
}

impl FromSpecImpl<u8> for Direction {
    open spec fn obeys_from_spec() -> bool {
        true
    }

    open spec fn from_spec(val: u8) -> Self {
        Direction::of(val as nat)
    }
}

/// One value for each octant.
#[derive(Clone, Default)]
pub struct DirectionMapper<T> {
    pub data: [T; 8],
}

impl<T> DirectionMapper<T> {
    /// The value stored for octant `d`.
    pub open spec fn spec_index(self, d: Direction) -> T {
        self.data[d.ordinal() as int]
    }

    /// The table with the value for octant `d` replaced by `v`.
    pub open spec fn with(self, d: Direction, v: T) -> DirectionMapper<T> {
        DirectionMapper { data: vstd::array::spec_array_update(self.data, d.ordinal() as int, v) }
    }

    /// The table that holds `data`, in the order of the octants' numbers.
    pub fn new(data: [T; 8]) -> (m: Self)
        ensures
            m.data == data,
    {
        DirectionMapper { data }
    }

    /// A walk over the eight values, in the order of the octants' numbers.
    pub fn iter(&self) -> (values: std::slice::Iter<'_, T>)
        ensures
            values == vstd::std_specs::slice::spec_slice_iter(
                vstd::array::spec_array_as_slice(&self.data),
            ),
    {
        self.data.iter()
    }

    /// A cursor over the pairs of octant and value, standing before the
    /// first octant.
    pub fn enumerate(&self) -> (e: DirectionMapperEnumerator<'_, T>)
        ensures
            e.mapper() == *self,
            e.position() == 0,
    {
        DirectionMapperEnumerator { mapper: self, index: 0 }
    }
}

impl<T> DirectionMapper<T> {
    /// A cursor over the pairs of octant and slot, standing before the
    /// first octant.
    pub fn enumerate_mut(&mut self) -> (e: DirectionMapperEnumeratorMut<'_, T>)
        ensures
            e.position() == 0,
            e.mapper() == *old(self),
            *final(e.mapper) == *final(self),
    {
        DirectionMapperEnumeratorMut { mapper: self, index: 0 }
    }
}

impl<T> std::ops::Index<Direction> for DirectionMapper<T> {
    type Output = T;

    #[inline]
    fn index(&self, index: Direction) -> (value: &T)
        ensures
            *value == self[index],
    {
        &self.data[index.index() as usize]
    }
}

impl<T> vstd::std_specs::core::IndexSpecImpl<Direction> for DirectionMapper<T> {
    open spec fn index_req(&self, index: &Direction) -> bool {
        true
    }
}

impl<T> std::ops::IndexMut<Direction> for DirectionMapper<T> {
    #[inline]
    fn index_mut(&mut self, index: Direction) -> (value: &mut T)
        ensures
            *value == old(self)[index],
            *final(self) == old(self).with(index, *final(value)),
    {
        &mut self.data[index.index() as usize]
    }
}

/// A cursor over the pairs of octant and value of a table.
pub struct DirectionMapperEnumerator<'a, T> {
    mapper: &'a DirectionMapper<T>,
    index: u8,
}

impl<'a, T> DirectionMapperEnumerator<'a, T> {
    /// The table that the cursor walks.
    pub closed spec fn mapper(self) -> DirectionMapper<T> {
        *self.mapper
    }

    /// How many pairs the cursor has handed out.
    pub closed spec fn position(self) -> nat {
        self.index as nat
    }

    /// The next pair, or `None` once all eight were handed out.
    pub fn next(&mut self) -> (item: Option<(Direction, &'a T)>)
        ensures
            final(self).mapper() == old(self).mapper(),
            old(self).position() >= 8 ==> item is None
                && final(self).position() == old(self).position(),
            old(self).position() < 8 ==> final(self).position() == old(self).position() + 1
                && item == Some(
                (
                    Direction::of(old(self).position()),
                    &old(self).mapper().data[old(self).position() as int],
                ),
            ),
    {
        if self.index >= 8 {
            None
        } else {
            let val = &self.mapper.data[self.index as usize];
            let result = Some((Direction::from(self.index), val));
            self.index += 1;
            result
        }
    }
}

/// A cursor over the pairs of octant and slot of a table, to write to the
/// slots.
pub struct DirectionMapperEnumeratorMut<'a, T> {
    pub mapper: &'a mut DirectionMapper<T>,
    pub index: u8,
}

impl<'a, T> DirectionMapperEnumeratorMut<'a, T> {
    /// How many pairs the cursor has handed out.
    pub open spec fn position(self) -> nat {
        self.index as nat
    }

    /// The table as it stands.
    pub open spec fn mapper(self) -> DirectionMapper<T> {
        *self.mapper
    }

    /// The next octant with its slot, or `None` once all eight were handed
    /// out. What is written to the slot is written to the table.
    pub fn next(&mut self) -> (item: Option<(Direction, &mut T)>)
        ensures
            *final(final(self).mapper) == *final(old(self).mapper),
            old(self).position() >= 8 ==> item is None
                && final(self).position() == old(self).position()
                && final(self).mapper() == old(self).mapper(),
            old(self).position() < 8 ==> final(self).position() == old(self).position() + 1
                && item is Some,
            item matches Some((d, slot)) ==> d == Direction::of(old(self).position())
                && *slot == old(self).mapper()[d]
                && final(self).mapper() == old(self).mapper().with(d, *final(slot)),
    {
        if self.index >= 8 {
            None
        } else {
            let d = Direction::from(self.index);
            proof {
                Direction::lemma_of(self.index as nat);
            }
            let i = self.index as usize;
            self.index += 1;
            Some((d, &mut self.mapper.data[i]))
        }
    }
}

/// One of the twelve edges of a cube.
#[derive(Copy, Clone, Debug, PartialEq, Eq, Structural)]
pub enum Edge {
    LowerFar,
    LowerRight,
    LowerNear,
    LowerLeft,
    UpperFar,
    UpperRight,
    UpperNear,
    UpperLeft,
    VerticalRearLeft,
    VerticalRearRight,
    VerticalFrontRight,
    VerticalFrontLeft,
}

impl Edge {
    /// The edge's number, `0..=11`.
    pub open spec fn ordinal(self) -> nat {
        match self {
            Edge::LowerFar => 0,
            Edge::LowerRight => 1,
            Edge::LowerNear => 2,
            Edge::LowerLeft => 3,
            Edge::UpperFar => 4,
            Edge::UpperRight => 5,
            Edge::UpperNear => 6,
            Edge::UpperLeft => 7,
            Edge::VerticalRearLeft => 8,
            Edge::VerticalRearRight => 9,
            Edge::VerticalFrontRight => 10,
            Edge::VerticalFrontLeft => 11,
        }
    }

    /// The edge whose number is `n`; the last edge for any greater number.
    pub open spec fn of(n: nat) -> Edge {
        if n == 0 {
            Edge::LowerFar
        } else if n == 1 {
            Edge::LowerRight
        } else if n == 2 {
            Edge::LowerNear
        } else if n == 3 {
            Edge::LowerLeft
        } else if n == 4 {
            Edge::UpperFar
        } else if n == 5 {
            Edge::UpperRight
        } else if n == 6 {
            Edge::UpperNear
        } else if n == 7 {
            Edge::UpperLeft
        } else if n == 8 {
            Edge::VerticalRearLeft
        } else if n == 9 {
            Edge::VerticalRearRight
        } else if n == 10 {
            Edge::VerticalFrontRight
        } else {
            Edge::VerticalFrontLeft
        }
    }

    /// The two corners that the edge joins.
    pub open spec fn endpoints(self) -> (Direction, Direction) {
        match self {
            Edge::LowerFar => (Direction::RearLeftBottom, Direction::RearRightBottom),
            Edge::LowerRight => (Direction::RearRightBottom, Direction::FrontRightBottom),
            Edge::LowerNear => (Direction::FrontRightBottom, Direction::FrontLeftBottom),
            Edge::LowerLeft => (Direction::FrontLeftBottom, Direction::RearLeftBottom),
            Edge::UpperFar => (Direction::RearLeftTop, Direction::RearRightTop),
            Edge::UpperRight => (Direction::RearRightTop, Direction::FrontRightTop),
            Edge::UpperNear => (Direction::FrontRightTop, Direction::FrontLeftTop),
            Edge::UpperLeft => (Direction::FrontLeftTop, Direction::RearLeftTop),
            Edge::VerticalRearLeft => (Direction::RearLeftBottom, Direction::RearLeftTop),
            Edge::VerticalRearRight => (Direction::RearRightBottom, Direction::RearRightTop),
            Edge::VerticalFrontRight => (Direction::FrontRightBottom, Direction::FrontRightTop),
            Edge::VerticalFrontLeft => (Direction::FrontLeftBottom, Direction::FrontLeftTop),
        }
    }

    /// The edge with the number `val`.
    pub fn from(val: u8) -> (e: Edge)
        requires
            val < 12,
        ensures
            e == Edge::of(val as nat),
            e.ordinal() == val,
    {
        if val == 0 {
            Edge::LowerFar
        } else if val == 1 {
            Edge::LowerRight
        } else if val == 2 {
            Edge::LowerNear
        } else if val == 3 {
            Edge::LowerLeft
        } else if val == 4 {
            Edge::UpperFar
        } else if val == 5 {
            Edge::UpperRight
        } else if val == 6 {
            Edge::UpperNear
        } else if val == 7 {
            Edge::UpperLeft
        } else if val == 8 {
            Edge::VerticalRearLeft
        } else if val == 9 {
            Edge::VerticalRearRight
        } else if val == 10 {
            Edge::VerticalFrontRight
        } else {
            Edge::VerticalFrontLeft
        }
    }

    /// The two corners that the edge joins.
    pub fn vertices(&self) -> (ends: (Direction, Direction))
        ensures
            ends == self.endpoints(),
    {
        match self {
            Edge::LowerFar => (Direction::RearLeftBottom, Direction::RearRightBottom),
            Edge::LowerRight => (Direction::RearRightBottom, Direction::FrontRightBottom),
            Edge::LowerNear => (Direction::FrontRightBottom, Direction::FrontLeftBottom),
            Edge::LowerLeft => (Direction::FrontLeftBottom, Direction::RearLeftBottom),
            Edge::UpperFar => (Direction::RearLeftTop, Direction::RearRightTop),
            Edge::UpperRight => (Direction::RearRightTop, Direction::FrontRightTop),
            Edge::UpperNear => (Direction::FrontRightTop, Direction::FrontLeftTop),
            Edge::UpperLeft => (Direction::FrontLeftTop, Direction::RearLeftTop),
            Edge::VerticalRearLeft => (Direction::RearLeftBottom, Direction::RearLeftTop),
            Edge::VerticalRearRight => (Direction::RearRightBottom, Direction::RearRightTop),
            Edge::VerticalFrontRight => (Direction::FrontRightBottom, Direction::FrontRightTop),
            Edge::VerticalFrontLeft => (Direction::FrontLeftBottom, Direction::FrontLeftTop),
        }
    }

    /// The two corners of an edge differ in exactly one of their three bits.
    pub proof fn lemma_endpoints_adjacent(self)
        ensures
            ({
                let (a, b) = self.endpoints();
                let dx: nat = if a.x_bit() == b.x_bit() { 0 } else { 1 };
                let dy: nat = if a.y_bit() == b.y_bit() { 0 } else { 1 };
                let dz: nat = if a.z_bit() == b.z_bit() { 0 } else { 1 };
                dx + dy + dz == 1
            }),
    {
    }
}

} // verus!
