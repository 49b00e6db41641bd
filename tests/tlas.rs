use lbvh::bounding_box::BoundingBox;
use lbvh::ray::Ray;
use lbvh::scene::{GeometryRegistry, Instance};
use lbvh::tlas::{SplitAxis, TopLevelAccelerationStructure};
use lbvh::vec3::{Transform, Vec3};

fn v(x: i32, y: i32, z: i32) -> Vec3 {
    Vec3::new(x, y, z)
}

/// Five unit-cube instances of one geometry, moved apart along x.
fn five_cubes() -> (GeometryRegistry, Vec<Instance>) {
    let mut reg = GeometryRegistry::new();
    let cube = reg.insert(BoundingBox::new(v(0, 0, 0), v(2, 2, 2)));
    let material = reg.insert(BoundingBox::new(v(0, 0, 0), v(1, 1, 1)));
    let mut instances = Vec::new();
    for k in 0..5 {
        instances.push(Instance::new(cube, 100 + k as u32, material, false).with_position(10 * k, 0, 0));
    }
    (reg, instances)
}

#[test]
fn ray_missing_every_instance_finds_none() {
    let (reg, instances) = five_cubes();
    let tlas = TopLevelAccelerationStructure::new(&reg, &instances);
    let ray = Ray::new(&v(-5, 7, 1), &v(1, 0, 0));
    assert_eq!(tlas.intersect_instance(&ray, 0, 1000), Vec::<u32>::new());
}

#[test]
fn ray_through_one_instance_finds_it() {
    let (reg, instances) = five_cubes();
    let tlas = TopLevelAccelerationStructure::new(&reg, &instances);
    let ray = Ray::new(&v(21, -5, 1), &v(0, 1, 0));
    assert_eq!(tlas.intersect_instance(&ray, 0, 1000), vec![102]);
    let along = Ray::new(&v(-5, 1, 1), &v(1, 0, 0));
    let mut all = tlas.intersect_instance(&along, 0, 1000);
    all.sort();
    assert_eq!(all, vec![100, 101, 102, 103, 104]);
    assert_eq!(tlas.intersect_instance(&along, 0, 20), vec![100, 101]);
}

#[test]
fn tlas_agrees_with_linear_scan() {
    let mut reg = GeometryRegistry::new();
    let a = reg.insert(BoundingBox::new(v(0, 0, 0), v(3, 1, 2)));
    let b = reg.insert(BoundingBox::new(v(-1, -1, -1), v(1, 1, 1)));
    let mut instances = Vec::new();
    let spots = [(0, 0, 0), (9, 4, -3), (-7, 12, 5), (15, -8, 2), (4, 4, 4), (-12, -3, 9), (6, 20, -10)];
    for (k, (x, y, z)) in spots.iter().enumerate() {
        let geometry = if k % 2 == 0 { a } else { b };
        let inst = Instance::new(geometry, k as u32, a, false).with_position(*x, *y, *z).with_scale(1 + (k as i32 % 3), 2, 1);
        instances.push(inst);
    }
    for policy in [SplitAxis::X, SplitAxis::Y, SplitAxis::Z, SplitAxis::ByDepth].iter() {
        let tlas = TopLevelAccelerationStructure::with_split_axis(&reg, &instances, *policy);
        for ox in [-30, -5, 0, 8].iter() {
            for dir in [v(1, 0, 0), v(1, 1, 0), v(3, -1, 1), v(0, 1, 1), v(-1, 2, -2)].iter() {
                let ray = Ray::new(&v(*ox, 2, 1), dir);
                let mut found = tlas.intersect_instance(&ray, -100, 100);
                found.sort();
                let mut expected = Vec::new();
                for inst in instances.iter() {
                    let geometry = reg.get(inst.geometry_index).unwrap();
                    if geometry.transformed(&inst.transform).hit(&ray, -100, 100) {
                        expected.push(inst.instance_id);
                    }
                }
                expected.sort();
                assert_eq!(found, expected);
            }
        }
    }
}

#[test]
fn building_tlas_twice_gives_the_same_tree() {
    let (reg, instances) = five_cubes();
    for policy in [SplitAxis::X, SplitAxis::ByDepth].iter() {
        let a = TopLevelAccelerationStructure::with_split_axis(&reg, &instances, *policy);
        let b = TopLevelAccelerationStructure::with_split_axis(&reg, &instances, *policy);
        assert_eq!(a.root_node, b.root_node);
        assert_eq!(a.bounding_box, b.bounding_box);
    }
}

#[test]
fn scene_box_is_union_of_instances() {
    let (reg, instances) = five_cubes();
    let tlas = TopLevelAccelerationStructure::new(&reg, &instances);
    assert_eq!(tlas.bounding_box, BoundingBox::new(v(0, 0, 0), v(42, 2, 2)));
    assert_eq!(tlas.instance(3).instance_id, 103);
}

#[test]
fn instance_builders_set_transform() {
    let mut reg = GeometryRegistry::new();
    let g = reg.insert(BoundingBox::new(v(0, 0, 0), v(1, 1, 1)));
    let inst = Instance::new(g, 4, g, true);
    assert_eq!(inst.transform, Transform::new());
    assert_eq!(inst.hit_shader_id, 0);
    assert!(inst.cull);
    let moved = inst.with_position(1, 2, 3).with_uniform_scale(5);
    assert_eq!(moved.transform, Transform { scale: v(5, 5, 5), offset: v(1, 2, 3) });
    let scaled = inst.with_scale(1, -2, 3);
    assert_eq!(scaled.transform.scale, v(1, -2, 3));
    assert_eq!(scaled.transform.offset, v(0, 0, 0));
    assert!(reg.get(g).is_some());
}

#[test]
fn each_hit_instance_is_reported_once() {
    let (reg, instances) = five_cubes();
    let tlas = TopLevelAccelerationStructure::new(&reg, &instances);
    let along = Ray::new(&v(-5, 1, 1), &v(1, 0, 0));
    let found = tlas.intersect_instance(&along, 0, 1000);
    assert_eq!(found, vec![100, 101, 102, 103, 104]);
}
