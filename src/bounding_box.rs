use vstd::prelude::*;
use crate::ray::{reciprocal_of, Ray};
use crate::vec3::{apply_at, apply_point, fits_i32, max, max_int, min, min_int, maps_into_grid, Transform, Vec3};

verus! {

/// An axis-aligned box on the integer grid.
#[derive(Clone, Copy, Debug, PartialEq, Eq, Structural)]
pub struct BoundingBox {
    pub min: Vec3,
    pub max: Vec3,
}

/// Lower end of an axis spanned by `p` and `q`, after padding a flat axis.
pub open spec fn padded_lo(p: int, q: int) -> int {
    if p == q && p == i32::MAX {
        p - 1
    } else {
        min_int(p, q)
    }
}

/// Upper end of an axis spanned by `p` and `q`, after padding a flat axis.
pub open spec fn padded_hi(p: int, q: int) -> int {
    if p == q && p < i32::MAX {
        p + 1
    } else {
        max_int(p, q)
    }
}

/// The box spanned by corners `p` and `q`, as `BoundingBox::new` builds it.
pub open spec fn box_of(p: Vec3, q: Vec3) -> BoundingBox {
    BoundingBox {
        min: Vec3 {
            x: padded_lo(p.x as int, q.x as int) as i32,
            y: padded_lo(p.y as int, q.y as int) as i32,
            z: padded_lo(p.z as int, q.z as int) as i32,
        },
        max: Vec3 {
            x: padded_hi(p.x as int, q.x as int) as i32,
            y: padded_hi(p.y as int, q.y as int) as i32,
            z: padded_hi(p.z as int, q.z as int) as i32,
        },
    }
}

/// `b` moved into the space that `t` maps to.
pub open spec fn transformed_box(b: BoundingBox, t: Transform) -> BoundingBox {
    box_of(apply_point(t, b.min), apply_point(t, b.max))
}

/// Cell of `v` along an axis `[lo, lo + len)` cut into 1024 cells, clamped to the grid.
pub open spec fn cell_of(v: int, lo: int, len: int) -> int {
    if v < lo {
        0
    } else if (v - lo) * 1024 / len > 1023 {
        1023
    } else {
        (v - lo) * 1024 / len
    }
}

pub open spec fn min_i32(p: i32, q: i32) -> i32 {
    if p <= q {
        p
    } else {
        q
    }
}

pub open spec fn max_i32(p: i32, q: i32) -> i32 {
    if p >= q {
        p
    } else {
        q
    }
}

/// The smallest box that holds both `a` and `b`.
pub open spec fn union(a: BoundingBox, b: BoundingBox) -> BoundingBox {
    BoundingBox {
        min: Vec3 {
            x: min_i32(a.min.x, b.min.x),
            y: min_i32(a.min.y, b.min.y),
            z: min_i32(a.min.z, b.min.z),
        },
        max: Vec3 {
            x: max_i32(a.max.x, b.max.x),
            y: max_i32(a.max.y, b.max.y),
            z: max_i32(a.max.z, b.max.z),
        },
    }
}

fn pad(lo: i32, hi: i32) -> (r: (i32, i32))
    requires
        lo <= hi,
    ensures
        r.0 == (if lo == hi && lo == i32::MAX { lo - 1 } else { lo as int }),
        r.1 == (if lo == hi && lo < i32::MAX { hi + 1 } else { hi as int }),
{
    if lo == hi {
        if hi < i32::MAX {
            (lo, hi + 1)
        } else {
            (lo - 1, hi)
        }
    } else {
        (lo, hi)
    }
}

fn cell(v: i32, lo: i32, len: u32) -> (r: u32)
    requires
        len > 0,
    ensures
        r == cell_of(v as int, lo as int, len as int),
        r <= 1023,
{
    if v < lo {
        0
    } else {
        let d = (v as i64 - lo as i64) as u64;
        assert(d * 1024 <= 0x1_0000_0000 * 1024) by (nonlinear_arith)
            requires
                d <= 0x1_0000_0000,
        ;
        let q = (d * 1024) / (len as u64);
        if q > 1023 {
            1023
        } else {
            q as u32
        }
    }
}

/// Denominator of the ray parameter at which the ray crosses a slab of axis
/// `a`; axis 3 stands for the query interval itself.
pub open spec fn slab_den(r: Ray, a: int) -> int {
    if a == 3 {
        1
    } else if r.dir.at(a) >= 0 {
        r.dir.at(a)
    } else {
        -r.dir.at(a)
    }
}

/// Numerator of the parameter at which the ray enters slab `a`.
pub open spec fn slab_entry(b: BoundingBox, r: Ray, t_min: int, a: int) -> int {
    if a == 3 {
        t_min
    } else if r.dir.at(a) > 0 {
        b.min.at(a) - r.origin.at(a)
    } else {
        r.origin.at(a) - b.max.at(a)
    }
}

/// Numerator of the parameter at which the ray leaves slab `a`.
pub open spec fn slab_exit(b: BoundingBox, r: Ray, t_max: int, a: int) -> int {
    if a == 3 {
        t_max
    } else if r.dir.at(a) > 0 {
        b.max.at(a) - r.origin.at(a)
    } else {
        r.origin.at(a) - b.min.at(a)
    }
}

/// The ray crosses slab `a` at a finite parameter.
pub open spec fn slab_bounded(r: Ray, a: int) -> bool {
    a == 3 || r.dir.at(a) != 0
}

/// A ray parallel to axis `a` stays inside that slab (boundary included).
pub open spec fn slab_admits(b: BoundingBox, r: Ray, a: int) -> bool {
    r.dir.at(a) != 0 || (b.min.at(a) <= r.origin.at(a) && r.origin.at(a) <= b.max.at(a))
}

/// Slab `i` is entered strictly before slab `j` is left.
pub open spec fn enters_before_exit(
    b: BoundingBox,
    r: Ray,
    t_min: int,
    t_max: int,
    i: int,
    j: int,
) -> bool {
    slab_bounded(r, i) && slab_bounded(r, j) ==> slab_entry(b, r, t_min, i) * slab_den(r, j)
        < slab_exit(b, r, t_max, j) * slab_den(r, i)
}

/// The ray meets the box for some parameters in an interval of positive length
/// inside `[t_min, t_max]`: the latest entry into a slab (or `t_min`) comes
/// strictly before the earliest exit (or `t_max`).
pub open spec fn hits(b: BoundingBox, r: Ray, t_min: int, t_max: int) -> bool {
    &&& forall|a: int| 0 <= a < 3 ==> #[trigger] slab_admits(b, r, a)
    &&& forall|i: int, j: int|
        0 <= i < 4 && 0 <= j < 4 ==> #[trigger] enters_before_exit(b, r, t_min, t_max, i, j)
}

proof fn lemma_scaled_le(a: int, b: int, c: int, d: int, x: int, y: int)
    requires
        a <= b,
        c <= d,
        x >= 0,
        y >= 0,
        b * x < c * y,
    ensures
        a * x < d * y,
{
    assert(a * x <= b * x) by (nonlinear_arith)
        requires
            a <= b,
            x >= 0,
    ;
    assert(c * y <= d * y) by (nonlinear_arith)
        requires
            c <= d,
            y >= 0,
    ;
}

/// A ray that hits a box hits every box around it.
pub proof fn lemma_hits_within(b: BoundingBox, c: BoundingBox, r: Ray, t_min: int, t_max: int)
    requires
        b.within(c),
        hits(b, r, t_min, t_max),
    ensures
        hits(c, r, t_min, t_max),
{
    assert forall|a: int| 0 <= a < 3 implies #[trigger] slab_admits(c, r, a) by {
        assert(slab_admits(b, r, a));
    }
    assert forall|i: int, j: int| 0 <= i < 4 && 0 <= j < 4 implies #[trigger] enters_before_exit(
        c,
        r,
        t_min,
        t_max,
        i,
        j,
    ) by {
        assert(enters_before_exit(b, r, t_min, t_max, i, j));
        if slab_bounded(r, i) && slab_bounded(r, j) {
            lemma_scaled_le(
                slab_entry(c, r, t_min, i),
                slab_entry(b, r, t_min, i),
                slab_exit(b, r, t_max, j),
                slab_exit(c, r, t_max, j),
                slab_den(r, j),
                slab_den(r, i),
            );
        }
    }
}

const BIG: i128 = 0x8000_0000_0000_0000;

const DEN_MAX: i128 = 0x8000_0000;

/// Entry numerator, exit numerator and denominator of slab `a`, if bounded,
/// read off the ray's reciprocal direction.
fn slab(b: &BoundingBox, r: &Ray, t_min: i64, t_max: i64, a: usize) -> (res: (bool, i128, i128, i128))
    requires
        a < 4,
        r.wf(),
    ensures
        res.0 == slab_bounded(*r, a as int),
        res.0 ==> res.1 == slab_entry(*b, *r, t_min as int, a as int) && res.2 == slab_exit(
            *b,
            *r,
            t_max as int,
            a as int,
        ) && res.3 == slab_den(*r, a as int),
        -BIG <= res.1 <= BIG,
        -BIG <= res.2 <= BIG,
        1 <= res.3 <= DEN_MAX,
{
    if a == 3 {
        return (true, t_min as i128, t_max as i128, 1);
    }
    let inv = r.inv_dir.get(a);
    let o = r.origin.get(a) as i128;
    let lo = b.min.get(a) as i128;
    let hi = b.max.get(a) as i128;
    assert(inv == reciprocal_of(r.dir.at(a as int)));
    if inv.den == 0 {
        (false, 0, 0, 1)
    } else if inv.num > 0 {
        (true, lo - o, hi - o, inv.den as i128)
    } else {
        (true, o - hi, o - lo, inv.den as i128)
    }
}

/// `an / ad < bn / bd` for positive denominators.
fn fraction_lt(an: i128, ad: i128, bn: i128, bd: i128) -> (r: bool)
    requires
        -BIG <= an <= BIG,
        -BIG <= bn <= BIG,
        1 <= ad <= DEN_MAX,
        1 <= bd <= DEN_MAX,
    ensures
        r == (an * bd < bn * ad),
{
    assert(-BIG * DEN_MAX <= an * bd <= BIG * DEN_MAX) by (nonlinear_arith)
        requires
            -BIG <= an <= BIG,
            1 <= bd <= DEN_MAX,
    ;
    assert(-BIG * DEN_MAX <= bn * ad <= BIG * DEN_MAX) by (nonlinear_arith)
        requires
            -BIG <= bn <= BIG,
            1 <= ad <= DEN_MAX,
    ;
    an * bd < bn * ad
}

impl BoundingBox {
    /// Every axis has positive thickness.
    pub open spec fn wf(self) -> bool {
        &&& self.min.x < self.max.x
        &&& self.min.y < self.max.y
        &&& self.min.z < self.max.z
    }

    /// `self` lies inside `other`.
    pub open spec fn within(self, other: BoundingBox) -> bool {
        &&& other.min.x <= self.min.x && self.max.x <= other.max.x
        &&& other.min.y <= self.min.y && self.max.y <= other.max.y
        &&& other.min.z <= self.min.z && self.max.z <= other.max.z
    }

    /// The box spanned by two corners: each axis runs from the smaller to the
    /// larger coordinate, and an axis of zero thickness is widened by one unit.
    pub fn new(a: Vec3, b: Vec3) -> (r: BoundingBox)
        ensures
            r.wf(),
            r == box_of(a, b),
            forall|k: int|
                0 <= k < 3 ==> #[trigger] r.min.at(k) == padded_lo(a.at(k), b.at(k))
                    && r.max.at(k) == padded_hi(a.at(k), b.at(k)),
    {
        let lo = min(&a, &b);
        let hi = max(&a, &b);
        assert(lo.at(0) <= hi.at(0) && lo.at(1) <= hi.at(1) && lo.at(2) <= hi.at(2));
        let (x0, x1) = pad(lo.x, hi.x);
        let (y0, y1) = pad(lo.y, hi.y);
        let (z0, z1) = pad(lo.z, hi.z);
        let r = BoundingBox { min: Vec3 { x: x0, y: y0, z: z0 }, max: Vec3 { x: x1, y: y1, z: z1 } };
        assert(r.min.at(0) == padded_lo(a.at(0), b.at(0)));
        assert(r.min.at(1) == padded_lo(a.at(1), b.at(1)));
        assert(r.min.at(2) == padded_lo(a.at(2), b.at(2)));
        r
    }

    /// Side lengths along the three axes.
    pub fn dimensions(&self) -> (r: [u32; 3])
        requires
            self.wf(),
        ensures
            forall|k: int| 0 <= k < 3 ==> #[trigger] r@[k] == self.max.at(k) - self.min.at(k),
    {
        assert(self.min.at(0) < self.max.at(0));
        assert(self.min.at(1) < self.max.at(1));
        assert(self.min.at(2) < self.max.at(2));
        let dx = (self.max.x as i64 - self.min.x as i64) as u32;
        let dy = (self.max.y as i64 - self.min.y as i64) as u32;
        let dz = (self.max.z as i64 - self.min.z as i64) as u32;
        [dx, dy, dz]
    }

    /// Midpoint, rounded down.
    pub fn center(&self) -> (r: Vec3)
        requires
            self.wf(),
        ensures
            forall|k: int|
                0 <= k < 3 ==> #[trigger] r.at(k) == self.min.at(k) + (self.max.at(k)
                    - self.min.at(k)) / 2,
    {
        assert(self.min.at(0) < self.max.at(0));
        assert(self.min.at(1) < self.max.at(1));
        assert(self.min.at(2) < self.max.at(2));
        let x = self.min.x as i64 + (self.max.x as i64 - self.min.x as i64) / 2;
        let y = self.min.y as i64 + (self.max.y as i64 - self.min.y as i64) / 2;
        let z = self.min.z as i64 + (self.max.z as i64 - self.min.z as i64) / 2;
        Vec3 { x: x as i32, y: y as i32, z: z as i32 }
    }

    /// The same box moved so that its lower corner is the origin.
    pub fn to_origin(&self) -> (r: BoundingBox)
        requires
            self.wf(),
            forall|k: int| 0 <= k < 3 ==> fits_i32(#[trigger] self.max.at(k) - self.min.at(k)),
        ensures
            r.wf(),
            forall|k: int|
                0 <= k < 3 ==> #[trigger] r.min.at(k) == 0 && r.max.at(k) == self.max.at(k)
                    - self.min.at(k),
    {
        assert(fits_i32(self.max.at(0) - self.min.at(0)) && self.min.at(0) < self.max.at(0));
        assert(fits_i32(self.max.at(1) - self.min.at(1)) && self.min.at(1) < self.max.at(1));
        assert(fits_i32(self.max.at(2) - self.min.at(2)) && self.min.at(2) < self.max.at(2));
        let max = Vec3 {
            x: self.max.x - self.min.x,
            y: self.max.y - self.min.y,
            z: self.max.z - self.min.z,
        };
        BoundingBox { min: Vec3 { x: 0, y: 0, z: 0 }, max }
    }

    /// The same box moved by `o`.
    pub fn with_offset(self, o: &Vec3) -> (r: BoundingBox)
        requires
            self.wf(),
            forall|k: int|
                0 <= k < 3 ==> fits_i32(#[trigger] self.min.at(k) + o.at(k)) && fits_i32(
                    self.max.at(k) + o.at(k),
                ),
        ensures
            r.wf(),
            forall|k: int|
                0 <= k < 3 ==> #[trigger] r.min.at(k) == self.min.at(k) + o.at(k) && r.max.at(k)
                    == self.max.at(k) + o.at(k),
    {
        assert(fits_i32(self.min.at(0) + o.at(0)) && fits_i32(self.max.at(0) + o.at(0)));
        assert(fits_i32(self.min.at(1) + o.at(1)) && fits_i32(self.max.at(1) + o.at(1)));
        assert(fits_i32(self.min.at(2) + o.at(2)) && fits_i32(self.max.at(2) + o.at(2)));
        assert(self.min.at(0) < self.max.at(0));
        assert(self.min.at(1) < self.max.at(1));
        assert(self.min.at(2) < self.max.at(2));
        let lo = Vec3 { x: self.min.x + o.x, y: self.min.y + o.y, z: self.min.z + o.z };
        let hi = Vec3 { x: self.max.x + o.x, y: self.max.y + o.y, z: self.max.z + o.z };
        let r = BoundingBox::new(lo, hi);
        assert(r.min.at(0) == lo.at(0) && r.min.at(1) == lo.at(1) && r.min.at(2) == lo.at(2));
        assert(r.max.at(0) == hi.at(0) && r.max.at(1) == hi.at(1) && r.max.at(2) == hi.at(2));
        r
    }

    /// The cell of `position` on a grid of 1024 cells per axis laid over the
    /// box; positions outside the box fall in the nearest border cell.
    pub fn relative_position(&self, position: &Vec3) -> (r: [u32; 3])
        requires
            self.wf(),
        ensures
            forall|k: int|
                0 <= k < 3 ==> #[trigger] r@[k] == cell_of(
                    position.at(k),
                    self.min.at(k),
                    self.max.at(k) - self.min.at(k),
                ),
    {
        let d = self.dimensions();
        let cx = cell(position.x, self.min.x, d[0]);
        let cy = cell(position.y, self.min.y, d[1]);
        let cz = cell(position.z, self.min.z, d[2]);
        [cx, cy, cz]
    }

    /// The box spanned by the images of the two corners under `transform`.
    /// Under a negative scale the corners trade places; the result is still
    /// ordered.
    pub fn transformed(&self, transform: &Transform) -> (r: BoundingBox)
        requires
            maps_into_grid(*transform, self.min),
            maps_into_grid(*transform, self.max),
        ensures
            r.wf(),
            r == transformed_box(*self, *transform),
            forall|k: int|
                0 <= k < 3 ==> #[trigger] r.min.at(k) == padded_lo(
                    apply_at(*transform, self.min, k),
                    apply_at(*transform, self.max, k),
                ) && r.max.at(k) == padded_hi(
                    apply_at(*transform, self.min, k),
                    apply_at(*transform, self.max, k),
                ),
    {
        let lo = transform.apply(&self.min);
        let hi = transform.apply(&self.max);
        BoundingBox::new(lo, hi)
    }

    pub fn min(&self) -> (r: &Vec3)
        ensures
            *r == self.min,
    {
        &self.min
    }

    pub fn max(&self) -> (r: &Vec3)
        ensures
            *r == self.max,
    {
        &self.max
    }

    /// Slab test: does the ray pass through the box for parameters in
    /// `[t_min, t_max]`?
    pub fn hit(&self, ray: &Ray, t_min: i64, t_max: i64) -> (r: bool)
        requires
            ray.wf(),
        ensures
            r == hits(*self, *ray, t_min as int, t_max as int),
    {
        let mut a: usize = 0;
        while a < 3
            invariant
                a <= 3,
                forall|k: int| 0 <= k < a ==> #[trigger] slab_admits(*self, *ray, k),
            decreases 3 - a,
        {
            let d = ray.dir.get(a);
            let o = ray.origin.get(a);
            if d == 0 && (o < self.min.get(a) || o > self.max.get(a)) {
                assert(!slab_admits(*self, *ray, a as int));
                return false;
            }
            a += 1;
        }
        let mut i: usize = 0;
        while i < 4
            invariant
                i <= 4,
                ray.wf(),
                forall|k: int| 0 <= k < 3 ==> #[trigger] slab_admits(*self, *ray, k),
                forall|p: int, q: int|
                    0 <= p < i && 0 <= q < 4 ==> #[trigger] enters_before_exit(
                        *self,
                        *ray,
                        t_min as int,
                        t_max as int,
                        p,
                        q,
                    ),
            decreases 4 - i,
        {
            let (bi, en, _, di) = slab(self, ray, t_min, t_max, i);
            let mut j: usize = 0;
            while j < 4
                invariant
                    i < 4,
                    j <= 4,
                    ray.wf(),
                    bi == slab_bounded(*ray, i as int),
                    bi ==> en == slab_entry(*self, *ray, t_min as int, i as int) && di == slab_den(
                        *ray,
                        i as int,
                    ),
                    -BIG <= en <= BIG,
                    1 <= di <= DEN_MAX,
                    forall|k: int| 0 <= k < 3 ==> #[trigger] slab_admits(*self, *ray, k),
                    forall|p: int, q: int|
                        (0 <= p < i && 0 <= q < 4) || (p == i && 0 <= q < j)
                            ==> #[trigger] enters_before_exit(
                            *self,
                            *ray,
                            t_min as int,
                            t_max as int,
                            p,
                            q,
                        ),
                decreases 4 - j,
            {
                let (bj, _, ex, dj) = slab(self, ray, t_min, t_max, j);
                let ok = if bi && bj {
                    fraction_lt(en, di, ex, dj)
                } else {
                    true
                };
                if !ok {
                    assert(!enters_before_exit(
                        *self,
                        *ray,
                        t_min as int,
                        t_max as int,
                        i as int,
                        j as int,
                    ));
                    return false;
                }
                j += 1;
            }
            i += 1;
        }
        true
    }

    /// The smallest box holding both `a` and `b`.
    pub fn surrounding_box(a: &BoundingBox, b: &BoundingBox) -> (r: BoundingBox)
        requires
            a.wf(),
            b.wf(),
        ensures
            r == union(*a, *b),
            r.wf(),
            a.within(r),
            b.within(r),
    {
        let lo = min(&a.min, &b.min);
        let hi = max(&a.max, &b.max);
        assert(lo.at(0) < hi.at(0) && lo.at(1) < hi.at(1) && lo.at(2) < hi.at(2));
        let r = BoundingBox::new(lo, hi);
        assert(r.min.at(0) == lo.at(0) && r.min.at(1) == lo.at(1) && r.min.at(2) == lo.at(2));
        assert(r.max.at(0) == hi.at(0) && r.max.at(1) == hi.at(1) && r.max.at(2) == hi.at(2));
        r
    }
}

} // verus!
