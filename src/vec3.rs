use vstd::prelude::*;

verus! {

/// A point or a direction on the integer grid.
#[derive(Clone, Copy, Debug, PartialEq, Eq, Structural)]
pub struct Vec3 {
    pub x: i32,
    pub y: i32,
    pub z: i32,
}

impl Vec3 {
    /// Coordinate `a` (0, 1 or 2) as a mathematical integer.
    pub open spec fn at(self, a: int) -> int {
        if a == 0 {
            self.x as int
        } else if a == 1 {
            self.y as int
        } else {
            self.z as int
        }
    }

    pub fn new(x: i32, y: i32, z: i32) -> (r: Vec3)
        ensures
            r.x == x,
            r.y == y,
            r.z == z,
    {
        Vec3 { x, y, z }
    }

    pub fn get(&self, a: usize) -> (r: i32)
        requires
            a < 3,
        ensures
            r as int == self.at(a as int),
    {
        if a == 0 {
            self.x
        } else if a == 1 {
            self.y
        } else {
            self.z
        }
    }
}

pub open spec fn min_int(a: int, b: int) -> int {
    if a <= b {
        a
    } else {
        b
    }
}

pub open spec fn max_int(a: int, b: int) -> int {
    if a >= b {
        a
    } else {
        b
    }
}

pub open spec fn vmin(a: Vec3, b: Vec3) -> Vec3 {
    Vec3 {
        x: if a.x <= b.x { a.x } else { b.x },
        y: if a.y <= b.y { a.y } else { b.y },
        z: if a.z <= b.z { a.z } else { b.z },
    }
}

pub open spec fn vmax(a: Vec3, b: Vec3) -> Vec3 {
    Vec3 {
        x: if a.x >= b.x { a.x } else { b.x },
        y: if a.y >= b.y { a.y } else { b.y },
        z: if a.z >= b.z { a.z } else { b.z },
    }
}

/// Componentwise minimum.
pub fn min(a: &Vec3, b: &Vec3) -> (r: Vec3)
    ensures
        r == vmin(*a, *b),
        forall|k: int| 0 <= k < 3 ==> #[trigger] r.at(k) == min_int(a.at(k), b.at(k)),
{
    Vec3 {
        x: if a.x <= b.x { a.x } else { b.x },
        y: if a.y <= b.y { a.y } else { b.y },
        z: if a.z <= b.z { a.z } else { b.z },
    }
}

/// Componentwise maximum.
pub fn max(a: &Vec3, b: &Vec3) -> (r: Vec3)
    ensures
        r == vmax(*a, *b),
        forall|k: int| 0 <= k < 3 ==> #[trigger] r.at(k) == max_int(a.at(k), b.at(k)),
{
    Vec3 {
        x: if a.x >= b.x { a.x } else { b.x },
        y: if a.y >= b.y { a.y } else { b.y },
        z: if a.z >= b.z { a.z } else { b.z },
    }
}

/// Dot product.
pub open spec fn dot(a: Vec3, b: Vec3) -> int {
    a.x * b.x + a.y * b.y + a.z * b.z
}

proof fn lemma_product_bound(a: int, b: int)
    requires
        i32::MIN <= a <= i32::MAX,
        i32::MIN <= b <= i32::MAX,
    ensures
        -0x4000_0000_0000_0000 < a * b <= 0x4000_0000_0000_0000,
{
    assert(-0x4000_0000_0000_0000 < a * b <= 0x4000_0000_0000_0000) by (nonlinear_arith)
        requires
            -0x8000_0000 <= a <= 0x7FFF_FFFF,
            -0x8000_0000 <= b <= 0x7FFF_FFFF,
    ;
}

fn dot_exact(a: &Vec3, b: &Vec3) -> (r: i128)
    ensures
        r == dot(*a, *b),
        -0x1_0000_0000_0000_0000 < r < 0x1_0000_0000_0000_0000,
{
    proof {
        lemma_product_bound(a.x as int, b.x as int);
        lemma_product_bound(a.y as int, b.y as int);
        lemma_product_bound(a.z as int, b.z as int);
    }
    (a.x as i128) * (b.x as i128) + (a.y as i128) * (b.y as i128) + (a.z as i128) * (b.z as i128)
}

/// Cross product; each coordinate of the result must be representable.
pub fn cross(lhs: &Vec3, rhs: &Vec3) -> (r: Vec3)
    requires
        fits_i32(lhs.y * rhs.z - rhs.y * lhs.z),
        fits_i32(lhs.z * rhs.x - rhs.z * lhs.x),
        fits_i32(lhs.x * rhs.y - rhs.x * lhs.y),
    ensures
        r.x == lhs.y * rhs.z - rhs.y * lhs.z,
        r.y == lhs.z * rhs.x - rhs.z * lhs.x,
        r.z == lhs.x * rhs.y - rhs.x * lhs.y,
{
    proof {
        lemma_product_bound(lhs.y as int, rhs.z as int);
        lemma_product_bound(rhs.y as int, lhs.z as int);
        lemma_product_bound(lhs.z as int, rhs.x as int);
        lemma_product_bound(rhs.z as int, lhs.x as int);
        lemma_product_bound(lhs.x as int, rhs.y as int);
        lemma_product_bound(rhs.x as int, lhs.y as int);
    }
    let x = (lhs.y as i64) * (rhs.z as i64) - (rhs.y as i64) * (lhs.z as i64);
    let y = (lhs.z as i64) * (rhs.x as i64) - (rhs.z as i64) * (lhs.x as i64);
    let z = (lhs.x as i64) * (rhs.y as i64) - (rhs.x as i64) * (lhs.y as i64);
    Vec3 { x: x as i32, y: y as i32, z: z as i32 }
}

/// Coordinate `k` of `i` reflected about `n`: `i - 2 (i . n) n`.
pub open spec fn reflect_at(i: Vec3, n: Vec3, k: int) -> int {
    i.at(k) - 2 * dot(i, n) * n.at(k)
}

/// `i` reflected about `n`, `i - 2 (i . n) n` (a mirror reflection when `n`
/// has unit length); each coordinate of the result must be representable.
pub fn reflect(i: &Vec3, n: &Vec3) -> (r: Vec3)
    requires
        forall|k: int| 0 <= k < 3 ==> fits_i32(#[trigger] reflect_at(*i, *n, k)),
    ensures
        forall|k: int| 0 <= k < 3 ==> #[trigger] r.at(k) == reflect_at(*i, *n, k),
{
    let d = dot_exact(i, n) * 2;
    assert(fits_i32(reflect_at(*i, *n, 0)));
    assert(fits_i32(reflect_at(*i, *n, 1)));
    assert(fits_i32(reflect_at(*i, *n, 2)));
    let x = reflect_coord(i.x, n.x, d);
    let y = reflect_coord(i.y, n.y, d);
    let z = reflect_coord(i.z, n.z, d);
    Vec3 { x, y, z }
}

fn reflect_coord(c: i32, m: i32, d: i128) -> (r: i32)
    requires
        -0x2_0000_0000_0000_0000 < d < 0x2_0000_0000_0000_0000,
        fits_i32(c - d * m),
    ensures
        r == c - d * m,
{
    assert(-0x2_0000_0000_0000_0000 * 0x8000_0000 <= d * m <= 0x2_0000_0000_0000_0000 * 0x8000_0000)
        by (nonlinear_arith)
        requires
            -0x2_0000_0000_0000_0000 < d < 0x2_0000_0000_0000_0000,
            -0x8000_0000 <= m <= 0x7FFF_FFFF,
    ;
    (c as i128 - d * (m as i128)) as i32
}

/// `wo` and `wi` lie strictly on the same side of the plane normal to `normal`.
pub fn same_hemisphere(wo: &Vec3, wi: &Vec3, normal: &Vec3) -> (r: bool)
    ensures
        r == (dot(*wo, *normal) * dot(*wi, *normal) > 0),
{
    let a = dot_exact(wo, normal);
    let b = dot_exact(wi, normal);
    proof {
        let (x, y) = (a as int, b as int);
        assert(x * y > 0 <==> ((x > 0 && y > 0) || (x < 0 && y < 0))) by (nonlinear_arith);
    }
    (a > 0 && b > 0) || (a < 0 && b < 0)
}

/// An axis-aligned affine map: each coordinate is scaled, then offset.
/// These are the transforms an instance can carry (a position and a scale).
#[derive(Clone, Copy, Debug, PartialEq, Eq, Structural)]
pub struct Transform {
    pub scale: Vec3,
    pub offset: Vec3,
}

/// Coordinate `a` of `p` under `t`.
pub open spec fn apply_at(t: Transform, p: Vec3, a: int) -> int {
    t.scale.at(a) * p.at(a) + t.offset.at(a)
}

/// The image of `p` under `t`, where it is representable.
pub open spec fn apply_point(t: Transform, p: Vec3) -> Vec3 {
    Vec3 {
        x: apply_at(t, p, 0) as i32,
        y: apply_at(t, p, 1) as i32,
        z: apply_at(t, p, 2) as i32,
    }
}

pub open spec fn fits_i32(v: int) -> bool {
    i32::MIN <= v <= i32::MAX
}

/// `t` maps `p` to a point whose coordinates are all representable.
pub open spec fn maps_into_grid(t: Transform, p: Vec3) -> bool {
    forall|a: int| 0 <= a < 3 ==> #[trigger] fits_i32(apply_at(t, p, a))
}

impl Transform {
    pub open spec fn spec_identity() -> Transform {
        Transform { scale: Vec3 { x: 1, y: 1, z: 1 }, offset: Vec3 { x: 0, y: 0, z: 0 } }
    }

    /// The identity transform.
    pub fn new() -> (r: Transform)
        ensures
            r == Transform::spec_identity(),
    {
        Transform { scale: Vec3 { x: 1, y: 1, z: 1 }, offset: Vec3 { x: 0, y: 0, z: 0 } }
    }

    pub fn apply(&self, p: &Vec3) -> (r: Vec3)
        requires
            maps_into_grid(*self, *p),
        ensures
            r == apply_point(*self, *p),
            forall|a: int| 0 <= a < 3 ==> #[trigger] r.at(a) == apply_at(*self, *p, a),
    {
        assert(fits_i32(apply_at(*self, *p, 0)));
        assert(fits_i32(apply_at(*self, *p, 1)));
        assert(fits_i32(apply_at(*self, *p, 2)));
        let x = (self.scale.x as i64) * (p.x as i64) + self.offset.x as i64;
        let y = (self.scale.y as i64) * (p.y as i64) + self.offset.y as i64;
        let z = (self.scale.z as i64) * (p.z as i64) + self.offset.z as i64;
        Vec3 { x: x as i32, y: y as i32, z: z as i32 }
    }
}

} // verus!
