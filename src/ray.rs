use vstd::prelude::*;
use crate::vec3::Vec3;

verus! {

/// The reciprocal `num / den` of a direction coordinate, kept exact: `num` is
/// its sign and `den` its magnitude. A zero coordinate gives `1 / 0`, the
/// infinite reciprocal.
#[derive(Clone, Copy, Debug, PartialEq, Eq, Structural)]
pub struct Reciprocal {
    pub num: i32,
    pub den: u32,
}

pub open spec fn reciprocal_of(d: int) -> Reciprocal {
    if d >= 0 {
        Reciprocal { num: 1, den: d as u32 }
    } else {
        Reciprocal { num: -1i32, den: (-d) as u32 }
    }
}

/// Reciprocals of the three coordinates of a direction.
#[derive(Clone, Copy, Debug, PartialEq, Eq, Structural)]
pub struct Reciprocal3 {
    pub x: Reciprocal,
    pub y: Reciprocal,
    pub z: Reciprocal,
}

impl Reciprocal3 {
    pub open spec fn at(self, a: int) -> Reciprocal {
        if a == 0 {
            self.x
        } else if a == 1 {
            self.y
        } else {
            self.z
        }
    }

    pub fn get(&self, a: usize) -> (r: Reciprocal)
        requires
            a < 3,
        ensures
            r == self.at(a as int),
    {
        if a == 0 {
            self.x
        } else if a == 1 {
            self.y
        } else {
            self.z
        }
    }
}

fn reciprocal(d: i32) -> (r: Reciprocal)
    ensures
        r == reciprocal_of(d as int),
{
    if d >= 0 {
        Reciprocal { num: 1, den: d as u32 }
    } else {
        Reciprocal { num: -1i32, den: (-(d as i64)) as u32 }
    }
}

/// A half-line `origin + t * dir`, queried over an interval of `t`, with the
/// reciprocal of its direction computed once for the slab tests.
#[derive(Clone, Copy, Debug, PartialEq, Eq, Structural)]
pub struct Ray {
    pub origin: Vec3,
    pub dir: Vec3,
    pub inv_dir: Reciprocal3,
}

impl Ray {
    /// `inv_dir` holds the reciprocals of `dir`.
    pub open spec fn wf(self) -> bool {
        &&& self.inv_dir.x == reciprocal_of(self.dir.x as int)
        &&& self.inv_dir.y == reciprocal_of(self.dir.y as int)
        &&& self.inv_dir.z == reciprocal_of(self.dir.z as int)
    }

    pub fn new(origin: &Vec3, direction: &Vec3) -> (r: Ray)
        ensures
            r.wf(),
            r.origin == *origin,
            r.dir == *direction,
    {
        let inv_dir = Reciprocal3 {
            x: reciprocal(direction.x),
            y: reciprocal(direction.y),
            z: reciprocal(direction.z),
        };
        Ray { origin: *origin, dir: *direction, inv_dir }
    }

    pub fn origin(&self) -> (r: &Vec3)
        ensures
            *r == self.origin,
    {
        &self.origin
    }

    pub fn direction(&self) -> (r: &Vec3)
        ensures
            *r == self.dir,
    {
        &self.dir
    }

    pub fn inv_direction(&self) -> (r: &Reciprocal3)
        ensures
            *r == self.inv_dir,
    {
        &self.inv_dir
    }
}

/// A source of primary rays: the ray through pixel `(x, y)`.
pub trait Camera {
    fn ray(x: usize, y: usize) -> Ray;
}

} // verus!
