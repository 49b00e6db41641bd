use vstd::prelude::*;
use crate::blas::{valid_mesh, BottomLevelAccelerationStructure};
use crate::bounding_box::BoundingBox;
use crate::vec3::Vec3;

verus! {

/// A triangle mesh with the bottom-level structure built over it.
#[derive(Debug)]
pub struct TriangleMesh {
    pub positions: Vec<Vec3>,
    pub indices: Vec<u32>,
    pub acceleration_structure: BottomLevelAccelerationStructure,
}

impl TriangleMesh {
    pub fn new(positions: Vec<Vec3>, indices: Vec<u32>) -> (r: TriangleMesh)
        requires
            valid_mesh(positions@, indices@),
        ensures
            r.positions@ == positions@,
            r.indices@ == indices@,
            r.acceleration_structure.built_from(positions@, indices@),
    {
        let acceleration_structure = BottomLevelAccelerationStructure::new(&positions, Some(&indices));
        TriangleMesh { positions, indices, acceleration_structure }
    }

    /// The box of the whole mesh.
    pub fn bounding_box(&self) -> (r: Option<BoundingBox>)
        ensures
            r == Some(self.acceleration_structure.total_bb),
    {
        Some(self.acceleration_structure.bounding_box())
    }
}

} // verus!
