use vstd::prelude::*;
use slotmap::{DefaultKey, SlotMap};
use crate::bounding_box::BoundingBox;
use crate::vec3::{Transform, Vec3};

verus! {

#[verifier::external_type_specification]
#[verifier::external_body]
pub struct ExDefaultKey(DefaultKey);

/// The shared geometries of a scene, each known by its object-space box and
/// reached through a slot-map handle.
#[verifier::external_body]
pub struct GeometryRegistry {
    boxes: SlotMap<DefaultKey, BoundingBox>,
}

/// What a registry holds: the box stored under each live key.
pub uninterp spec fn registry_boxes(m: GeometryRegistry) -> Map<DefaultKey, BoundingBox>;

impl GeometryRegistry {
    /// Relies on `SlotMap::new`: a map with no keys.
    #[verifier::external_body]
    pub fn new() -> (r: GeometryRegistry)
        ensures
            registry_boxes(r).dom().finite() && registry_boxes(r).dom().len() == 0,
    {
        GeometryRegistry { boxes: SlotMap::new() }
    }

    /// Relies on `SlotMap::insert`: stores `bb` under a key that was not live
    /// before and returns that key. With no slot ever freed, the map panics
    /// once it already holds `u32::MAX - 1` values, which the bound excludes.
    #[verifier::external_body]
    pub fn insert(&mut self, bb: BoundingBox) -> (key: DefaultKey)
        requires
            registry_boxes(*old(self)).dom().finite(),
            registry_boxes(*old(self)).len() < 0xFFFF_FFFE,
        ensures
            !registry_boxes(*old(self)).contains_key(key),
            registry_boxes(*final(self)) == registry_boxes(*old(self)).insert(key, bb),
    {
        self.boxes.insert(bb)
    }

    /// Relies on `SlotMap::get`: the value stored under `key` when the key is
    /// live, else nothing.
    #[verifier::external_body]
    pub fn get(&self, key: DefaultKey) -> (r: Option<BoundingBox>)
        ensures
            r == (if registry_boxes(*self).contains_key(key) {
                Some(registry_boxes(*self)[key])
            } else {
                None
            }),
    {
        self.boxes.get(key).copied()
    }
}

/// One placement of a shared geometry in the scene.
#[derive(Clone, Copy, Debug)]
pub struct Instance {
    pub geometry_index: DefaultKey,
    pub instance_id: u32,
    pub hit_shader_id: u32,
    pub material_id: DefaultKey,
    pub transform: Transform,
    pub cull: bool,
}

impl Instance {
    /// An instance at the origin with unit scale.
    pub fn new(geometry_index: DefaultKey, instance_id: u32, material_id: DefaultKey, cull: bool) -> (r: Instance)
        ensures
            r.geometry_index == geometry_index,
            r.instance_id == instance_id,
            r.hit_shader_id == 0,
            r.material_id == material_id,
            r.transform == Transform::spec_identity(),
            r.cull == cull,
    {
        Instance {
            geometry_index,
            instance_id,
            hit_shader_id: 0,
            material_id,
            transform: Transform::new(),
            cull,
        }
    }

    /// The same instance moved to `(x, y, z)`.
    pub fn with_position(self, x: i32, y: i32, z: i32) -> (r: Instance)
        ensures
            r == (Instance { transform: Transform { offset: Vec3 { x, y, z }, ..self.transform }, ..self }),
    {
        let mut r = self;
        r.transform.offset = Vec3 { x, y, z };
        r
    }

    /// The same instance scaled by `(x, y, z)`.
    pub fn with_scale(self, x: i32, y: i32, z: i32) -> (r: Instance)
        ensures
            r == (Instance { transform: Transform { scale: Vec3 { x, y, z }, ..self.transform }, ..self }),
    {
        let mut r = self;
        r.transform.scale = Vec3 { x, y, z };
        r
    }

    /// The same instance scaled by `s` along every axis.
    pub fn with_uniform_scale(self, s: i32) -> (r: Instance)
        ensures
            r == (Instance { transform: Transform { scale: Vec3 { x: s, y: s, z: s }, ..self.transform }, ..self }),
    {
        self.with_scale(s, s, s)
    }
}

} // verus!
