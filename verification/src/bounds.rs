//! Axis-aligned cubes inside the unit cube, in fixed-point coordinates.
//!
//! A coordinate counts units of `1 / MAX_WIDTH`, so that halving a cube along
//! a path of octants never rounds.
use vstd::prelude::*;
use vstd::arithmetic::power2::pow2;
use vstd::std_specs::convert::FromSpecImpl;
use vstd::string::StringExecFns;
use crate::direction::Direction;
use crate::index_path::IndexPath;
use crate::text::{decimal, push_decimal};

verus! {

/// The width of the unit cube.
pub const MAX_WIDTH: u32 = 0x8000_0000;

/// A cube with its corner of least coordinates at `(x, y, z)`.
#[derive(Copy, Clone, Debug, PartialEq, Eq, Structural)]
pub struct Bounds {
    pub x: u32,
    pub y: u32,
    pub z: u32,
    pub width: u32,
}

/// How a second cube lies with respect to a first one.
#[derive(Copy, Clone, Debug, PartialEq, Eq, Structural)]
pub enum BoundsSpacialRelationship {
    /// The two cubes share no point; cubes that only touch are disjoint.
    Disjoint,
    /// The second cube lies inside the first.
    Contain,
    /// The cubes overlap and the second is not inside the first.
    Intersect,
}

/// Whether the half-open intervals `[a, a + aw)` and `[b, b + bw)` share no
/// point.
pub open spec fn apart(a: u32, aw: u32, b: u32, bw: u32) -> bool {
    a + aw <= b || b + bw <= a
}

/// Whether the interval `[b, b + bw)` lies inside `[a, a + aw)`.
pub open spec fn within(a: u32, aw: u32, b: u32, bw: u32) -> bool {
    b >= a && b + bw <= a + aw
}

/// A length of `v` cells of a grid with `gridsize` cells to the side, in
/// fixed-point units, rounded down.
pub open spec fn to_fixed(v: u64, gridsize: u64) -> nat {
    (v as nat * MAX_WIDTH as nat) / gridsize as nat
}

/// A fixed-point length in cells of a grid with `gridsize` cells to the
/// side, rounded down.
pub open spec fn to_grid(c: u32, gridsize: u64) -> nat {
    (c as nat * gridsize as nat) / MAX_WIDTH as nat
}

/// Whether `width` cells from the cell `location` on make a cube of the
/// octree of a grid of `gridsize` cells to the side: the grid's size and
/// the width are powers of two, and the cube lies in the grid at a multiple
/// of its width.
pub open spec fn grid_cube(location: (u64, u64, u64), width: u64, gridsize: u64) -> bool {
    &&& exists|e: nat, g: nat|
        e <= g <= 31 && width == #[trigger] pow2(e) && gridsize == #[trigger] pow2(g)
    &&& location.0 % width == 0
    &&& location.1 % width == 0
    &&& location.2 % width == 0
    &&& location.0 + width <= gridsize
    &&& location.1 + width <= gridsize
    &&& location.2 + width <= gridsize
}

/// The text of a cube: its corner and, in square brackets, its width, in
/// cells of a grid of 256 cells to the side.
pub open spec fn bounds_text(b: Bounds) -> Seq<char> {
    "Bounds("@ + decimal(to_grid(b.x, 256)) + ", "@ + decimal(to_grid(b.y, 256)) + ", "@ + decimal(
        to_grid(b.z, 256),
    ) + ")["@ + decimal(to_grid(b.width, 256)) + "]"@
}

impl Bounds {
    /// The cube's invariant: the width is a power of two, the corner is a
    /// multiple of the width on each axis, and the cube lies in the unit
    /// cube.
    pub open spec fn wf(self) -> bool {
        &&& exists|e: nat| e <= 31 && self.width == #[trigger] pow2(e)
        &&& self.x % self.width == 0
        &&& self.y % self.width == 0
        &&& self.z % self.width == 0
        &&& self.x + self.width <= MAX_WIDTH
        &&& self.y + self.width <= MAX_WIDTH
        &&& self.z + self.width <= MAX_WIDTH
    }

    /// The unit cube.
    pub open spec fn unit() -> Bounds {
        Bounds { x: 0, y: 0, z: 0, width: MAX_WIDTH }
    }

    /// Octant `d` of the cube.
    pub open spec fn half_spec(self, d: Direction) -> Bounds {
        let w = self.width / 2;
        Bounds {
            x: (self.x + d.x_bit() * w) as u32,
            y: (self.y + d.y_bit() * w) as u32,
            z: (self.z + d.z_bit() * w) as u32,
            width: w as u32,
        }
    }

    /// Whether the cube is octant `d` of the cube of twice its width that
    /// holds it.
    pub open spec fn is_octant(self, d: Direction) -> bool {
        &&& self.width > 0
        &&& (self.x / self.width) % 2 == d.x_bit()
        &&& (self.y / self.width) % 2 == d.y_bit()
        &&& (self.z / self.width) % 2 == d.z_bit()
    }

    /// The cube of twice the width of which this cube is octant `d`.
    pub open spec fn merge_spec(self, d: Direction) -> Bounds {
        Bounds {
            x: (self.x - d.x_bit() * self.width) as u32,
            y: (self.y - d.y_bit() * self.width) as u32,
            z: (self.z - d.z_bit() * self.width) as u32,
            width: (2 * self.width) as u32,
        }
    }

    /// The cube reached from this one by taking the octants of `path` in
    /// turn.
    pub open spec fn descend(self, path: Seq<Direction>) -> Bounds
        decreases path.len(),
    {
        if path.len() == 0 {
            self
        } else {
            self.descend(path.drop_last()).half_spec(path.last())
        }
    }

    /// How `other` lies with respect to this cube.
    pub open spec fn relationship(self, other: Bounds) -> BoundsSpacialRelationship {
        if apart(self.x, self.width, other.x, other.width) || apart(
            self.y,
            self.width,
            other.y,
            other.width,
        ) || apart(self.z, self.width, other.z, other.width) {
            BoundsSpacialRelationship::Disjoint
        } else if within(self.x, self.width, other.x, other.width) && within(
            self.y,
            self.width,
            other.y,
            other.width,
        ) && within(self.z, self.width, other.z, other.width) {
            BoundsSpacialRelationship::Contain
        } else {
            BoundsSpacialRelationship::Intersect
        }
    }

    /// The unit cube.
    pub fn new() -> (b: Self)
        ensures
            b == Bounds::unit(),
            b.wf(),
    {
        let b = Bounds { x: 0, y: 0, z: 0, width: MAX_WIDTH };
        proof {
            vstd::arithmetic::power2::lemma2_to64();
            assert(b.width == pow2(31));
        }
        b
    }

    /// The cube that covers `width` cells from the cell `location` on, in a
    /// grid of `gridsize` cells to the side that fills the unit cube.
    pub fn from_discrete_grid(location: (u64, u64, u64), width: u64, gridsize: u64) -> (b: Self)
        requires
            gridsize > 0,
            to_fixed(location.0, gridsize) <= u32::MAX,
            to_fixed(location.1, gridsize) <= u32::MAX,
            to_fixed(location.2, gridsize) <= u32::MAX,
            to_fixed(width, gridsize) <= u32::MAX,
        ensures
            b.x == to_fixed(location.0, gridsize),
            b.y == to_fixed(location.1, gridsize),
            b.z == to_fixed(location.2, gridsize),
            b.width == to_fixed(width, gridsize),
            grid_cube(location, width, gridsize) ==> b.wf(),
    {
        let b = Bounds {
            x: scale_to_fixed(location.0, gridsize),
            y: scale_to_fixed(location.1, gridsize),
            z: scale_to_fixed(location.2, gridsize),
            width: scale_to_fixed(width, gridsize),
        };
        proof {
            if grid_cube(location, width, gridsize) {
                b.lemma_grid_cube(location, width, gridsize);
            }
        }
        b
    }

    /// The cube's corner in cells of a grid with `gridsize` cells to the
    /// side.
    pub fn get_position_with_gridsize(&self, gridsize: u64) -> (p: (u64, u64, u64))
        requires
            to_grid(self.x, gridsize) <= u64::MAX,
            to_grid(self.y, gridsize) <= u64::MAX,
            to_grid(self.z, gridsize) <= u64::MAX,
        ensures
            p.0 == to_grid(self.x, gridsize),
            p.1 == to_grid(self.y, gridsize),
            p.2 == to_grid(self.z, gridsize),
    {
        (
            scale_to_grid(self.x, gridsize),
            scale_to_grid(self.y, gridsize),
            scale_to_grid(self.z, gridsize),
        )
    }

    /// The cube's width in cells of a grid with `gridsize` cells to the
    /// side.
    pub fn get_width_with_gridsize(&self, gridsize: u64) -> (w: u64)
        requires
            to_grid(self.width, gridsize) <= u64::MAX,
        ensures
            w == to_grid(self.width, gridsize),
    {
        scale_to_grid(self.width, gridsize)
    }

    /// Octant `dir` of the cube.
    pub fn half(&self, dir: Direction) -> (b: Bounds)
        requires
            self.wf(),
        ensures
            b == self.half_spec(dir),
            self.width >= 2 ==> b.wf() && b.is_octant(dir),
    {
        proof {
            self.lemma_half(dir);
        }
        proof {
            vstd::bits::lemma_u32_shr_is_div(self.width, 1);
            vstd::arithmetic::power2::lemma2_to64();
        }
        let mut bounds = *self;
        bounds.width >>= 1;  // half the width
        if dir.is_max_x() {
            bounds.x += bounds.width;
        }
        if dir.is_max_y() {
            bounds.y += bounds.width;
        }
        if dir.is_max_z() {
            bounds.z += bounds.width;
        }
        bounds
    }

    /// The cube of twice the width of which this cube is octant `dir`.
    pub fn merge(&self, dir: Direction) -> (b: Bounds)
        requires
            self.wf(),
            self.width < MAX_WIDTH,
            self.is_octant(dir),
        ensures
            b == self.merge_spec(dir),
            b.wf(),
    {
        proof {
            self.lemma_merge(dir);
        }
        let mut bounds = *self;
        if dir.is_max_x() {
            bounds.x -= bounds.width;
        }
        if dir.is_max_y() {
            bounds.y -= bounds.width;
        }
        if dir.is_max_z() {
            bounds.z -= bounds.width;
        }
        proof {
            vstd::arithmetic::power2::lemma2_to64();
            vstd::bits::lemma_u32_shl_is_mul(self.width, 1);
        }
        bounds.width <<= 1;
        bounds
    }

    /// How `other` lies with respect to this cube: disjoint from it, inside
    /// it, or neither.
    pub fn intersects(&self, other: &Self) -> (r: BoundsSpacialRelationship)
        ensures
            r == self.relationship(*other),
    {
        let (sx, sy, sz, sw) = (self.x as u64, self.y as u64, self.z as u64, self.width as u64);
        let (ox, oy, oz, ow) = (
            other.x as u64,
            other.y as u64,
            other.z as u64,
            other.width as u64,
        );
        // Check for disjoint
        if (sx + sw <= ox || ox + ow <= sx) || (sy + sw <= oy || oy + ow <= sy) || (sz + sw <= oz
            || oz + ow <= sz) {
            return BoundsSpacialRelationship::Disjoint;
        }
        // Other is smaller

        if (ox >= sx && ox + ow <= sx + sw) && (oy >= sy && oy + ow <= sy + sw) && (oz >= sz && oz
            + ow <= sz + sw) {
            return BoundsSpacialRelationship::Contain;
        }
        return BoundsSpacialRelationship::Intersect;
    }

    /// The cube as text, such as `Bounds(64, 0, 128)[64]`.
    pub fn to_string(&self) -> (text: String)
        ensures
            text@ == bounds_text(*self),
    {
        let pos = self.get_position_with_gridsize(256);
        let width = self.get_width_with_gridsize(256);
        let mut text = String::from_str("Bounds(");
        push_decimal(&mut text, pos.0);
        text.append(", ");
        push_decimal(&mut text, pos.1);
        text.append(", ");
        push_decimal(&mut text, pos.2);
        text.append(")[");
        push_decimal(&mut text, width);
        text.append("]");
        text
    }

    /// A cube is disjoint from this one exactly where the two are apart
    /// along some axis, and, if its width is not zero, contained exactly
    /// where it lies within this one along every axis; it intersects where
    /// neither holds.
    pub proof fn lemma_relationship(self, other: Bounds)
        ensures
            self.relationship(other) == BoundsSpacialRelationship::Disjoint <==> apart(
                self.x,
                self.width,
                other.x,
                other.width,
            ) || apart(self.y, self.width, other.y, other.width) || apart(
                self.z,
                self.width,
                other.z,
                other.width,
            ),
            other.width > 0 ==> (self.relationship(other) == BoundsSpacialRelationship::Contain
                <==> within(self.x, self.width, other.x, other.width) && within(
                self.y,
                self.width,
                other.y,
                other.width,
            ) && within(self.z, self.width, other.z, other.width)),
    {
    }

    /// A cube of whole cells of a grid is well formed where the cells make a
    /// cube of the grid's octree.
    pub proof fn lemma_grid_cube(self, location: (u64, u64, u64), width: u64, gridsize: u64)
        requires
            grid_cube(location, width, gridsize),
            self.x == to_fixed(location.0, gridsize),
            self.y == to_fixed(location.1, gridsize),
            self.z == to_fixed(location.2, gridsize),
            self.width == to_fixed(width, gridsize),
        ensures
            self.wf(),
    {
        let (e, g) = choose|e: nat, g: nat|
            e <= g <= 31 && width == #[trigger] pow2(e) && gridsize == #[trigger] pow2(g);
        vstd::arithmetic::power2::lemma2_to64();
        vstd::arithmetic::power2::lemma_pow2_pos(e);
        vstd::arithmetic::power2::lemma_pow2_pos(g);
        let k = pow2((31 - g) as nat) as int;
        vstd::arithmetic::power2::lemma_pow2_pos((31 - g) as nat);
        vstd::arithmetic::power2::lemma_pow2_adds(g, (31 - g) as nat);
        vstd::arithmetic::power2::lemma_pow2_adds(e, (31 - g) as nat);
        assert(MAX_WIDTH == gridsize * k);
        lemma_to_fixed(location.0, gridsize, k);
        lemma_to_fixed(location.1, gridsize, k);
        lemma_to_fixed(location.2, gridsize, k);
        lemma_to_fixed(width, gridsize, k);
        assert(self.width == pow2(e + (31 - g) as nat));
        lemma_scaled_cell(location.0 as int, width as int, gridsize as int, k);
        lemma_scaled_cell(location.1 as int, width as int, gridsize as int, k);
        lemma_scaled_cell(location.2 as int, width as int, gridsize as int, k);
    }

    /// An octant of a well-formed cube of width two or more is well formed,
    /// and is that octant of the cube.
    pub proof fn lemma_half(self, d: Direction)
        requires
            self.wf(),
        ensures
            self.half_spec(d).x == self.x + (if d.x_bit() == 1 {
                self.width / 2
            } else {
                0
            }),
            self.half_spec(d).y == self.y + (if d.y_bit() == 1 {
                self.width / 2
            } else {
                0
            }),
            self.half_spec(d).z == self.z + (if d.z_bit() == 1 {
                self.width / 2
            } else {
                0
            }),
            self.half_spec(d).width == self.width / 2,
            self.width >= 2 ==> self.half_spec(d).wf() && self.half_spec(d).is_octant(d),
            self.width >= 2 ==> 2 * (self.width / 2) == self.width,
    {
        d.lemma_ordinal();
        let e = choose|e: nat| e <= 31 && self.width == #[trigger] pow2(e);
        let w = self.width as int;
        let h = w / 2;
        vstd::arithmetic::power2::lemma2_to64();
        lemma_bit_times(d.x_bit() as int, h);
        lemma_bit_times(d.y_bit() as int, h);
        lemma_bit_times(d.z_bit() as int, h);
        if w >= 2 {
            assert(e >= 1);
            vstd::arithmetic::power2::lemma_pow2_unfold(e);
            assert(w == 2 * h);
            assert(h == pow2((e - 1) as nat));
            lemma_octant_of_multiple(self.x as int, h, d.x_bit() as int);
            lemma_octant_of_multiple(self.y as int, h, d.y_bit() as int);
            lemma_octant_of_multiple(self.z as int, h, d.z_bit() as int);
            let b = self.half_spec(d);
            assert(b.width == pow2((e - 1) as nat));
        }
    }

    /// Merging an octant gives a well-formed cube.
    pub proof fn lemma_merge(self, d: Direction)
        requires
            self.wf(),
            self.width < MAX_WIDTH,
            self.is_octant(d),
        ensures
            self.merge_spec(d).x == self.x - (if d.x_bit() == 1 {
                self.width
            } else {
                0
            }),
            self.merge_spec(d).y == self.y - (if d.y_bit() == 1 {
                self.width
            } else {
                0
            }),
            self.merge_spec(d).z == self.z - (if d.z_bit() == 1 {
                self.width
            } else {
                0
            }),
            d.x_bit() == 1 ==> self.x >= self.width,
            d.y_bit() == 1 ==> self.y >= self.width,
            d.z_bit() == 1 ==> self.z >= self.width,
            self.merge_spec(d).width == 2 * self.width,
            self.merge_spec(d).wf(),
    {
        d.lemma_ordinal();
        let e = choose|e: nat| e <= 31 && self.width == #[trigger] pow2(e);
        let w = self.width as int;
        vstd::arithmetic::power2::lemma2_to64();
        if e == 31 {
            assert(false);
        }
        vstd::arithmetic::power2::lemma_pow2_unfold(e + 1);
        vstd::arithmetic::power2::lemma_pow2_pos(e);
        assert(2 * w == pow2(e + 1));
        lemma_bit_times(d.x_bit() as int, w);
        lemma_bit_times(d.y_bit() as int, w);
        lemma_bit_times(d.z_bit() as int, w);
        lemma_parent_of_octant(self.x as int, w, d.x_bit() as int);
        lemma_parent_of_octant(self.y as int, w, d.y_bit() as int);
        lemma_parent_of_octant(self.z as int, w, d.z_bit() as int);
        let b = self.merge_spec(d);
        assert(b.width == pow2(e + 1));
        // the unit cube's width is a multiple of the merged width, so a
        // multiple of the merged width below it leaves room for the cube
        let k = pow2((30 - e) as nat) as int;
        vstd::arithmetic::power2::lemma_pow2_adds(e + 1, (30 - e) as nat);
        vstd::arithmetic::power2::lemma_pow2_pos((30 - e) as nat);
        assert(MAX_WIDTH == (2 * w) * k);
        lemma_multiple_below(b.x as int, 2 * w, k);
        lemma_multiple_below(b.y as int, 2 * w, k);
        lemma_multiple_below(b.z as int, 2 * w, k);
    }

    /// Merging the octant `d` of a cube gives the cube back.
    pub proof fn lemma_half_then_merge(self, d: Direction)
        requires
            self.wf(),
            self.width >= 2,
        ensures
            self.half_spec(d).wf(),
            self.half_spec(d).width < MAX_WIDTH,
            self.half_spec(d).is_octant(d),
            self.half_spec(d).merge_spec(d) == self,
    {
        self.lemma_half(d);
        self.half_spec(d).lemma_merge(d);
    }

    /// Taking one octant more at the end of a path halves the cube that the
    /// path reaches, and a path of `n` octants divides the width `n` times
    /// by two.
    pub proof fn lemma_descend(self, path: Seq<Direction>)
        requires
            self.wf(),
            exists|e: nat| path.len() <= e <= 31 && self.width == #[trigger] pow2(e),
        ensures
            self.descend(path).wf(),
            exists|e: nat|
                path.len() <= e <= 31 && self.width == #[trigger] pow2(e) && self.descend(
                    path,
                ).width == pow2((e - path.len()) as nat),
        decreases path.len(),
    {
        let e = choose|e: nat| path.len() <= e <= 31 && self.width == #[trigger] pow2(e);
        if path.len() > 0 {
            let up = path.drop_last();
            self.lemma_descend(up);
            let e1 = choose|e: nat|
                up.len() <= e <= 31 && self.width == #[trigger] pow2(e) && self.descend(up).width
                    == pow2((e - up.len()) as nat);
            if e1 != e {
                if e1 < e {
                    vstd::arithmetic::power2::lemma_pow2_strictly_increases(e1, e);
                } else {
                    vstd::arithmetic::power2::lemma_pow2_strictly_increases(e, e1);
                }
            }
            let parent = self.descend(up);
            let k = (e - up.len()) as nat;
            assert(k >= 1);
            vstd::arithmetic::power2::lemma_pow2_unfold(k);
            vstd::arithmetic::power2::lemma_pow2_pos((k - 1) as nat);
            parent.lemma_half(path.last());
            assert(self.descend(path).width == pow2((e - path.len()) as nat));
        } else {
            assert(self.descend(path).width == pow2((e - path.len()) as nat));
        }
    }

    /// The cube that a path of at most 21 octants reaches from the unit cube
    /// is well formed and at least `2^10` wide.
    pub proof fn lemma_path_bounds(path: Seq<Direction>)
        requires
            path.len() <= 21,
        ensures
            Bounds::unit().descend(path).wf(),
            Bounds::unit().descend(path).width == pow2((31 - path.len()) as nat),
            Bounds::unit().descend(path).width >= 1024,
    {
        vstd::arithmetic::power2::lemma2_to64();
        let u = Bounds::unit();
        assert(u.width == pow2(31));
        assert(u.wf());
        u.lemma_descend(path);
        let e = choose|e: nat|
            path.len() <= e <= 31 && u.width == #[trigger] pow2(e) && u.descend(path).width
                == pow2((e - path.len()) as nat);
        if e < 31 {
            vstd::arithmetic::power2::lemma_pow2_strictly_increases(e, 31);
        }
        let k = (31 - path.len()) as nat;
        if k > 10 {
            vstd::arithmetic::power2::lemma_pow2_strictly_increases(10, k);
        }
    }
}

/// Going from grid cells to fixed point and back gives the cells again,
/// where the grid's size divides the unit cube's width.
pub proof fn lemma_grid_round_trip(v: u64, gridsize: u64)
    requires
        gridsize > 0,
        MAX_WIDTH as nat % gridsize as nat == 0,
        to_fixed(v, gridsize) <= u32::MAX,
    ensures
        to_grid(to_fixed(v, gridsize) as u32, gridsize) == v,
{
    let m = MAX_WIDTH as int;
    let g = gridsize as int;
    let k = m / g;
    assert(m == g * k) by {
        vstd::arithmetic::div_mod::lemma_fundamental_div_mod(m, g);
    }
    assert(v * m == g * (v * k)) by (nonlinear_arith)
        requires
            m == g * k,
    ;
    assert((v * m) / g == v * k) by {
        vstd::arithmetic::div_mod::lemma_div_multiples_vanish(v * k, g);
    }
    assert((v * k) * g == m * v) by (nonlinear_arith)
        requires
            m == g * k,
    ;
    assert(((v * k) * g) / m == v) by {
        vstd::arithmetic::div_mod::lemma_div_multiples_vanish(v as int, m);
    }
}

/// Where the unit cube is `k` times as wide as the grid has cells, a cell
/// is `k` units wide.
proof fn lemma_to_fixed(v: u64, gridsize: u64, k: int)
    requires
        gridsize > 0,
        MAX_WIDTH == gridsize * k,
    ensures
        to_fixed(v, gridsize) == v * k,
{
    let g = gridsize as int;
    assert(v * MAX_WIDTH == g * (v * k)) by (nonlinear_arith)
        requires
            MAX_WIDTH == g * k,
    ;
    vstd::arithmetic::div_mod::lemma_div_multiples_vanish(v * k, g);
}

/// Cells scaled by `k` keep their places: a multiple of the width stays
/// one, and what lies in the grid stays in the scaled grid.
proof fn lemma_scaled_cell(x: int, w: int, g: int, k: int)
    by (nonlinear_arith)
    requires
        w > 0,
        k > 0,
        x >= 0,
        x % w == 0,
        x + w <= g,
    ensures
        (x * k) % (w * k) == 0,
        x * k + w * k <= g * k,
{
    let q = x / w;
    assert(x == w * q + x % w);
    assert(x * k == (w * k) * q);
    assert(((w * k) * q) % (w * k) == 0) by {
        vstd::arithmetic::div_mod::lemma_fundamental_div_mod_converse(
            (w * k) * q,
            w * k,
            q,
            0,
        );
    }
    assert((x + w) * k <= g * k);
}

/// A bit times a number is the number or zero.
proof fn lemma_bit_times(bit: int, n: int)
    by (nonlinear_arith)
    requires
        0 <= bit <= 1,
    ensures
        bit * n == (if bit == 1 {
            n
        } else {
            0
        }),
{
}

/// A multiple of `m` below `m * k` is at most `m * (k - 1)`.
proof fn lemma_multiple_below(x: int, m: int, k: int)
    by (nonlinear_arith)
    requires
        m > 0,
        x >= 0,
        x % m == 0,
        x < m * k,
    ensures
        x + m <= m * k,
{
    let q = x / m;
    assert(x == m * q + x % m);
    assert(q < k);
    assert(m * (q + 1) <= m * k);
}

/// A multiple of `2 * h`, moved up by `bit * h`, is a multiple of `h` whose
/// quotient by `h` has `bit` as its lowest bit.
proof fn lemma_octant_of_multiple(x: int, h: int, bit: int)
    by (nonlinear_arith)
    requires
        h > 0,
        x >= 0,
        x % (2 * h) == 0,
        0 <= bit <= 1,
    ensures
        (x + bit * h) % h == 0,
        ((x + bit * h) / h) % 2 == bit,
        bit * h == (if bit == 1 { h } else { 0 }),
{
    let q = x / (2 * h);
    assert(x == (2 * h) * q + x % (2 * h));
    assert(x + bit * h == h * (2 * q + bit));
    assert((h * (2 * q + bit)) % h == 0 && (h * (2 * q + bit)) / h == 2 * q + bit) by {
        vstd::arithmetic::div_mod::lemma_fundamental_div_mod_converse(
            h * (2 * q + bit),
            h,
            2 * q + bit,
            0,
        );
    }
}

/// A multiple of `w` whose quotient by `w` has `bit` as its lowest bit,
/// moved down by `bit * w`, is a multiple of `2 * w`.
proof fn lemma_parent_of_octant(x: int, w: int, bit: int)
    by (nonlinear_arith)
    requires
        w > 0,
        x >= 0,
        x % w == 0,
        (x / w) % 2 == bit,
    ensures
        x - bit * w >= 0,
        (x - bit * w) % (2 * w) == 0,
        bit * w == (if bit == 1 { w } else { 0 }),
        0 <= bit <= 1,
{
    let q = x / w;
    assert(x == w * q + x % w);
    let p = q / 2;
    assert(q == 2 * p + bit);
    assert(x - bit * w == (2 * w) * p);
    assert(((2 * w) * p) % (2 * w) == 0) by {
        vstd::arithmetic::div_mod::lemma_fundamental_div_mod_converse(
            (2 * w) * p,
            2 * w,
            p,
            0,
        );
    }
}

/// `v` cells of a grid of `gridsize` cells, in fixed-point units.
fn scale_to_fixed(v: u64, gridsize: u64) -> (c: u32)
    requires
        gridsize > 0,
        to_fixed(v, gridsize) <= u32::MAX,
    ensures
        c == to_fixed(v, gridsize),
{
    assert(v as nat * MAX_WIDTH as nat <= u128::MAX) by (nonlinear_arith)
        requires
            v <= u64::MAX,
            MAX_WIDTH == 0x8000_0000,
    ;
    let scaled: u128 = v as u128 * MAX_WIDTH as u128 / gridsize as u128;
    scaled as u32
}

/// The fixed-point length `c` in cells of a grid of `gridsize` cells.
fn scale_to_grid(c: u32, gridsize: u64) -> (v: u64)
    requires
        to_grid(c, gridsize) <= u64::MAX,
    ensures
        v == to_grid(c, gridsize),
{
    assert(c as nat * gridsize as nat <= u128::MAX) by (nonlinear_arith)
        requires
            c <= u32::MAX,
            gridsize <= u64::MAX,
    ;
    let scaled: u128 = c as u128 * gridsize as u128 / MAX_WIDTH as u128;
    scaled as u64
}

impl From<IndexPath> for Bounds {
    /// The cube that `index_path` reaches from the unit cube.
    fn from(index_path: IndexPath) -> (b: Self)
        ensures
            b == Bounds::unit().descend(index_path@),
            b.wf(),
    {
        let mut rest = index_path;
        let mut bounds = Bounds::new();
        let ghost path = index_path@;
        let ghost mut done: int = 0;
        proof {
            use_type_invariant(index_path);
            crate::index_path::lemma_word_bounds(index_path.word());
            assert(path.take(0) =~= Seq::<Direction>::empty());
            assert(path.skip(0) =~= path);
        }
        loop
            invariant
                path.len() <= 21,
                0 <= done <= path.len(),
                rest@ == path.skip(done),
                bounds == Bounds::unit().descend(path.take(done)),
            ensures
                bounds == Bounds::unit().descend(path),
            decreases path.len() - done,
        {
            proof {
                Bounds::lemma_path_bounds(path.take(done));
            }
            match rest.next() {
                Some(dir) => {
                    proof {
                        assert(path.take(done + 1).drop_last() =~= path.take(done));
                        assert(path.skip(done).drop_first() =~= path.skip(done + 1));
                        done = done + 1;
                    }
                    bounds = bounds.half(dir);
                },
                None => {
                    proof {
                        assert(path.take(done) =~= path);
                    }
                    break ;
                },
            }
        }
        proof {
            Bounds::lemma_path_bounds(path);
        }
        bounds
    }
}

impl FromSpecImpl<IndexPath> for Bounds {
    open spec fn obeys_from_spec() -> bool {
        true
    }

    open spec fn from_spec(index_path: IndexPath) -> Bounds {
        Bounds::unit().descend(index_path@)
    }
}

} // verus!
