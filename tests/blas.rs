use lbvh::blas::{find_range, find_split, BottomLevelAccelerationStructure, SENTINEL};
use lbvh::bounding_box::BoundingBox;
use lbvh::morton::MortonCode;
use lbvh::ray::Ray;
use lbvh::vec3::{Transform, Vec3};

fn v(x: i32, y: i32, z: i32) -> Vec3 {
    Vec3::new(x, y, z)
}

/// A small triangle with its lower corner at `(x, y, z)`.
fn push_triangle(vs: &mut Vec<Vec3>, ix: &mut Vec<u32>, x: i32, y: i32, z: i32) {
    let base = vs.len() as u32;
    vs.push(v(x, y, z));
    vs.push(v(x + 2, y, z));
    vs.push(v(x, y + 2, z + 2));
    ix.push(base);
    ix.push(base + 1);
    ix.push(base + 2);
}

fn scattered_mesh() -> (Vec<Vec3>, Vec<u32>) {
    let mut vs = Vec::new();
    let mut ix = Vec::new();
    let spots = [
        (0, 0, 0),
        (40, 3, 9),
        (-30, 17, 2),
        (12, -25, 30),
        (55, 60, -12),
        (-8, 44, 21),
        (27, 9, -33),
        (-50, -40, 5),
        (3, 31, -20),
        (70, -5, 14),
        (-19, -13, -27),
    ];
    for (x, y, z) in spots.iter() {
        push_triangle(&mut vs, &mut ix, *x, *y, *z);
    }
    (vs, ix)
}

fn leaf_box(vs: &Vec<Vec3>, ix: &Vec<u32>, k: usize) -> BoundingBox {
    let p = |i: usize| vs[ix[3 * k + i] as usize];
    let (a, b, c) = (p(0), p(1), p(2));
    BoundingBox::new(
        v(a.x.min(b.x).min(c.x), a.y.min(b.y).min(c.y), a.z.min(b.z).min(c.z)),
        v(a.x.max(b.x).max(c.x), a.y.max(b.y).max(c.y), a.z.max(b.z).max(c.z)),
    )
}

#[test]
fn single_triangle_is_one_leaf() {
    let mut vs = Vec::new();
    let mut ix = Vec::new();
    push_triangle(&mut vs, &mut ix, 0, 0, 0);
    let blas = BottomLevelAccelerationStructure::new(&vs, Some(&ix));
    assert_eq!(blas.nodes.len(), 1);
    assert_eq!(blas.nodes.iter().filter(|n| !n.is_leaf()).count(), 0);
    assert_eq!(blas.nodes[0].primitive_idx, 0);
    let ray = Ray::new(&v(-5, 1, 1), &v(1, 0, 0));
    assert_eq!(blas.hit_test(&Transform::new(), &ray, 0, 100), vec![0]);
    let miss = Ray::new(&v(-5, 9, 1), &v(1, 0, 0));
    assert_eq!(blas.hit_test(&Transform::new(), &miss, 0, 100), Vec::<u32>::new());
}

#[test]
fn ray_returns_both_boxes_it_passes() {
    let mut vs = Vec::new();
    let mut ix = Vec::new();
    push_triangle(&mut vs, &mut ix, 0, 0, 0);
    push_triangle(&mut vs, &mut ix, 10, 0, 0);
    let blas = BottomLevelAccelerationStructure::new(&vs, Some(&ix));
    assert_eq!(blas.nodes.len(), 3);
    let ray = Ray::new(&v(-5, 1, 1), &v(1, 0, 0));
    let mut hits = blas.hit_test(&Transform::new(), &ray, 0, 100);
    hits.sort();
    assert_eq!(hits, vec![0, 1]);
    assert_eq!(blas.bounding_box(), BoundingBox::new(v(0, 0, 0), v(12, 2, 2)));
}

#[test]
fn leaves_are_a_permutation_of_primitives() {
    let (vs, ix) = scattered_mesh();
    let n = ix.len() / 3;
    let blas = BottomLevelAccelerationStructure::new(&vs, Some(&ix));
    assert_eq!(blas.nodes.len(), 2 * n - 1);
    let mut ids: Vec<u32> = blas.nodes[n - 1..].iter().map(|node| node.primitive_idx).collect();
    ids.sort();
    assert_eq!(ids, (0..n as u32).collect::<Vec<u32>>());
    for node in blas.nodes[..n - 1].iter() {
        assert_eq!(node.primitive_idx, SENTINEL);
    }
    for j in n - 1..2 * n - 1 {
        let p = blas.nodes[j].primitive_idx as usize;
        assert_eq!(blas.bbs[j], leaf_box(&vs, &ix, p));
    }
}

#[test]
fn branch_boxes_are_unions_of_children() {
    let (vs, ix) = scattered_mesh();
    let n = ix.len() / 3;
    let blas = BottomLevelAccelerationStructure::new(&vs, Some(&ix));
    for i in 0..n - 1 {
        let node = blas.nodes[i];
        let l = node.left_child_idx as usize;
        let r = node.right_child_idx as usize;
        assert_eq!(blas.nodes[l].parent_idx as usize, i);
        assert_eq!(blas.nodes[r].parent_idx as usize, i);
        assert_eq!(blas.bbs[i], BoundingBox::surrounding_box(&blas.bbs[l], &blas.bbs[r]));
    }
    assert_eq!(blas.bbs[0], blas.bounding_box());
}

#[test]
fn hit_test_misses_no_primitive_box() {
    let (vs, ix) = scattered_mesh();
    let n = ix.len() / 3;
    let blas = BottomLevelAccelerationStructure::new(&vs, Some(&ix));
    let transforms = [Transform::new(), Transform { scale: v(2, 1, -1), offset: v(5, -3, 7) }];
    let mut seen = 0;
    for t in transforms.iter() {
        for ox in [-90, -10, 0, 35].iter() {
            for dir in [v(1, 0, 0), v(1, 1, 0), v(2, -1, 1), v(0, 1, 3), v(-1, 2, -2)].iter() {
                for oy in [-20, 0, 10].iter() {
                    let ray = Ray::new(&v(*ox, *oy, 3), dir);
                    let found = blas.hit_test(t, &ray, -200, 200);
                    for k in 0..n {
                        if leaf_box(&vs, &ix, k).transformed(t).hit(&ray, -200, 200) {
                            assert!(found.contains(&(k as u32)));
                            seen += 1;
                        }
                    }
                    for id in found.iter() {
                        assert!(leaf_box(&vs, &ix, *id as usize).transformed(t).hit(&ray, -200, 200));
                    }
                }
            }
        }
    }
    assert!(seen > 0);
}

#[test]
fn building_twice_gives_the_same_tree() {
    let (vs, ix) = scattered_mesh();
    let a = BottomLevelAccelerationStructure::new(&vs, Some(&ix));
    let b = BottomLevelAccelerationStructure::new(&vs, Some(&ix));
    assert_eq!(a.nodes, b.nodes);
    assert_eq!(a.bbs, b.bbs);
    assert_eq!(a.total_bb, b.total_bb);
}

fn codes(cs: &[u32]) -> Vec<MortonCode> {
    cs.iter().enumerate().map(|(i, c)| MortonCode { code: *c, primitive_id: i as u32 }).collect()
}

#[test]
fn range_and_split_of_radix_tree() {
    // Keys 0b00001, 0b00010, 0b00100, 0b00101, 0b10011, 0b11000, 0b11001, 0b11110.
    let cs = codes(&[1, 2, 4, 5, 19, 24, 25, 30]);
    assert_eq!(find_range(&cs, 0), (0, 7));
    assert_eq!(find_split(&cs, 0, 7), 3);
    assert_eq!(find_range(&cs, 1), (0, 1));
    assert_eq!(find_range(&cs, 2), (2, 3));
    assert_eq!(find_range(&cs, 3), (0, 3));
    assert_eq!(find_split(&cs, 0, 3), 1);
    assert_eq!(find_range(&cs, 4), (4, 7));
    assert_eq!(find_split(&cs, 4, 7), 4);
    assert_eq!(find_range(&cs, 5), (5, 7));
    assert_eq!(find_split(&cs, 5, 7), 6);
    assert_eq!(find_range(&cs, 6), (5, 6));
    // Equal end codes split at the midpoint.
    let same = codes(&[9, 9, 9, 9]);
    assert_eq!(find_split(&same, 0, 3), 1);
}

#[test]
fn repeated_codes_still_give_a_full_tree() {
    let mut vs = Vec::new();
    let mut ix = Vec::new();
    for _ in 0..7 {
        push_triangle(&mut vs, &mut ix, 4, 4, 4);
    }
    push_triangle(&mut vs, &mut ix, 40, 0, 0);
    let n = ix.len() / 3;
    let blas = BottomLevelAccelerationStructure::new(&vs, Some(&ix));
    assert_eq!(blas.nodes.len(), 2 * n - 1);
    assert_eq!(blas.nodes[0].parent_idx, SENTINEL);
    // Every node but the root is the child of exactly the branch it names.
    for j in 1..2 * n - 1 {
        let p = blas.nodes[j].parent_idx as usize;
        assert!(p < n - 1);
        let claims = (0..n - 1)
            .filter(|&i| blas.nodes[i].left_child_idx as usize == j || blas.nodes[i].right_child_idx as usize == j)
            .collect::<Vec<_>>();
        assert_eq!(claims, vec![p]);
    }
    let ray = Ray::new(&v(-5, 5, 5), &v(1, 0, 0));
    let mut hits = blas.hit_test(&Transform::new(), &ray, 0, 100);
    let len = hits.len();
    hits.sort();
    hits.dedup();
    assert_eq!(hits.len(), len);
    assert_eq!(hits, (0..n as u32).filter(|p| *p != 7).collect::<Vec<u32>>());
    assert_eq!(blas.bbs[0], blas.bounding_box());
}

#[test]
fn hit_test_returns_each_candidate_once() {
    let (vs, ix) = scattered_mesh();
    let blas = BottomLevelAccelerationStructure::new(&vs, Some(&ix));
    let ray = Ray::new(&v(-100, 2, 3), &v(1, 0, 0));
    let found = blas.hit_test(&Transform::new(), &ray, -1000, 1000);
    let mut sorted = found.clone();
    sorted.sort();
    sorted.dedup();
    assert_eq!(sorted.len(), found.len());
    assert_eq!(blas.bbs[0], blas.bounding_box());
}
