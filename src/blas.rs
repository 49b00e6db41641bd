use vstd::prelude::*;
use crate::bounding_box::{
    box_of, cell_of, hits, lemma_hits_within, padded_hi, padded_lo, transformed_box, union, BoundingBox,
};
use crate::ray::Ray;
use crate::keys::{
    key_hi, key_lo, lemma_key_order, lemma_sorted_permutation, pack, sort_keys, unpack_hi,
    unpack_lo,
};
use crate::morton::{clamp_cell, morton_code, MortonCode};
use crate::vec3::{apply_at, fits_i32, maps_into_grid, max, min, vmax, vmin, Transform, Vec3};

verus! {

broadcast use vstd::std_specs::bits::axiom_u32_leading_zeros;

use vstd::std_specs::bits::u32_leading_zeros;

/// Marks a node that holds no primitive, and the parent of the root.
pub const SENTINEL: u32 = 0xFFFF_FFFF;

/// One node of the flattened tree: a branch when `primitive_idx` is
/// `SENTINEL`, else a leaf holding that primitive.
#[derive(Clone, Copy, Debug, PartialEq, Eq, Structural)]
pub struct BVHFlatNode {
    pub parent_idx: u32,
    pub left_child_idx: u32,
    pub right_child_idx: u32,
    pub primitive_idx: u32,
}

impl BVHFlatNode {
    pub fn is_leaf(&self) -> (r: bool)
        ensures
            r == (self.primitive_idx != SENTINEL),
    {
        self.primitive_idx != SENTINEL
    }
}

/// Length of the common prefix of the codes at `i` and `j`; -1 when `j` lies
/// outside the array.
pub open spec fn prefix(codes: Seq<MortonCode>, i: int, j: int) -> int {
    if 0 <= j < codes.len() {
        u32_leading_zeros(codes[i].code ^ codes[j].code) as int
    } else {
        -1
    }
}

pub open spec fn codes_sorted(codes: Seq<MortonCode>) -> bool {
    forall|i: int, j: int| 0 <= i <= j < codes.len() ==> #[trigger] codes[i].code <= #[trigger] codes[j].code
}

proof fn lemma_shift_between(a: u32, b: u32, c: u32, s: u32)
    requires
        a <= b <= c,
        s < 32,
        (a ^ c) >> s == 0,
    ensures
        (a ^ b) >> s == 0,
        (b ^ c) >> s == 0,
{
    assert((a ^ b) >> s == 0 && (b ^ c) >> s == 0) by (bit_vector)
        requires
            a <= b,
            b <= c,
            s < 32,
            (a ^ c) >> s == 0,
    ;
}

proof fn lemma_prefix_at_least(x: u32, s: u32)
    requires
        s < 32,
        x >> s == 0,
    ensures
        u32_leading_zeros(x) >= 32 - s,
{
    let q = u32_leading_zeros(x);
    if q < 32 - s {
        let t = (31 - q) as u32;
        assert(((x >> t) & 1u32) == 0u32) by (bit_vector)
            requires
                x >> s == 0,
                s <= t,
                t < 32,
        ;
    }
}

/// For codes in order `a <= b <= c`, the outer pair shares no longer a prefix
/// than either inner pair.
pub proof fn lemma_prefix_between(a: u32, b: u32, c: u32)
    requires
        a <= b <= c,
    ensures
        u32_leading_zeros(a ^ c) <= u32_leading_zeros(a ^ b),
        u32_leading_zeros(a ^ c) <= u32_leading_zeros(b ^ c),
{
    let p = u32_leading_zeros(a ^ c);
    if p > 0 {
        let s = (32 - p) as u32;
        assert((a ^ c) >> s == 0);
        lemma_shift_between(a, b, c, s);
        lemma_prefix_at_least(a ^ b, s);
        lemma_prefix_at_least(b ^ c, s);
    }
}

/// Length of the common prefix of `code` and the code at `j`, or -1 when `j`
/// lies outside the array.
fn prefix_len(codes: &Vec<MortonCode>, code: u32, j: i64) -> (r: i64)
    requires
        codes@.len() <= u32::MAX,
    ensures
        -1 <= r <= 32,
        r >= 0 ==> 0 <= j < codes.len(),
        r == (if 0 <= j < codes.len() {
            u32_leading_zeros(code ^ codes@[j as int].code) as int
        } else {
            -1
        }),
{
    if 0 <= j && j < codes.len() as i64 {
        (code ^ codes[j as usize].code).leading_zeros() as i64
    } else {
        -1
    }
}

/// The position `l` steps from `i` in direction `d`.
pub open spec fn step_from(i: int, d: int, l: int) -> int {
    if d > 0 {
        i + l
    } else {
        i - l
    }
}

fn step(i: i64, d: i64, l: i64) -> (r: i64)
    requires
        0 <= i <= u32::MAX,
        0 <= l <= 4 * (u32::MAX as int),
    ensures
        r == step_from(i as int, d as int, l as int),
{
    if d > 0 {
        i + l
    } else {
        i - l
    }
}

pub open spec fn pow2(k: nat) -> int
    decreases k,
{
    if k == 0 {
        1
    } else {
        2 * pow2((k - 1) as nat)
    }
}

proof fn lemma_pow2_positive(k: nat)
    ensures
        pow2(k) >= 1,
    decreases k,
{
    if k > 0 {
        lemma_pow2_positive((k - 1) as nat);
    }
}

/// Direction in which the span of branch `idx` grows: towards the neighbour
/// sharing the longer prefix with it.
pub open spec fn range_dir(codes: Seq<MortonCode>, idx: int) -> int {
    if prefix(codes, idx, idx + 1) > prefix(codes, idx, idx - 1) {
        1
    } else {
        -1
    }
}

/// The prefix length shared with the neighbour on the other side: the span
/// holds the codes that share a longer one with `idx`.
pub open spec fn range_min(codes: Seq<MortonCode>, idx: int) -> int {
    if prefix(codes, idx, idx - 1) <= prefix(codes, idx, idx + 1) {
        prefix(codes, idx, idx - 1)
    } else {
        prefix(codes, idx, idx + 1)
    }
}

/// The span of sorted leaves under branch `idx`: one end is `idx` itself; the
/// other is found by growing a probe distance by doubling while the common
/// prefix stays longer than the one shared with the neighbour on the other
/// side, then bisecting. The far end `j` shares a longer prefix than that
/// with `idx` (unless it is `idx`), and the next position beyond it does not.
pub fn find_range(codes: &Vec<MortonCode>, idx: usize) -> (r: (usize, usize))
    requires
        2 <= codes.len() <= u32::MAX,
        idx + 1 < codes.len(),
    ensures
        r.0 <= r.1 < codes.len(),
        r.0 == idx || r.1 == idx,
        idx == 0 ==> r.0 == 0 && r.1 == codes.len() - 1,
        idx > 0 ==> ({
            let d = range_dir(codes@, idx as int);
            let m = range_min(codes@, idx as int);
            let j = if d > 0 { r.1 as int } else { r.0 as int };
            &&& d > 0 ==> r.0 == idx
            &&& d < 0 ==> r.1 == idx
            &&& j == idx || prefix(codes@, idx as int, j) > m
            &&& prefix(codes@, idx as int, step_from(j, d, 1)) <= m
        }),
{
    if idx == 0 {
        return (0, codes.len() - 1);
    }
    let n = codes.len() as i64;
    let i = idx as i64;
    let self_code = codes[idx].code;
    let l_delta = (self_code ^ codes[idx - 1].code).leading_zeros() as i64;
    let r_delta = (self_code ^ codes[idx + 1].code).leading_zeros() as i64;
    let d: i64 = if r_delta > l_delta { 1 } else { -1 };
    let delta_min: i64 = if l_delta <= r_delta { l_delta } else { r_delta };
    let ghost cs = codes@;
    assert(d == range_dir(cs, idx as int) && delta_min == range_min(cs, idx as int));
    let mut l_max: i64 = 2;
    let ghost mut k: nat = 1;
    assert(pow2(0) == 1);
    assert(pow2(1) == 2);
    let mut delta = prefix_len(codes, self_code, step(i, d, l_max));
    while delta > delta_min
        invariant
            2 <= l_max <= 2 * n,
            n == codes.len(),
            n <= u32::MAX,
            0 < i < n,
            i == idx,
            self_code == cs[idx as int].code,
            cs == codes@,
            d == 1 || d == -1,
            delta_min >= 0,
            delta > delta_min ==> 0 <= step_from(i as int, d as int, l_max as int) < n,
            delta == prefix(cs, idx as int, step_from(i as int, d as int, l_max as int)),
            k >= 1,
            l_max == pow2(k),
        decreases 2 * n - l_max,
    {
        l_max = l_max * 2;
        proof {
            k = k + 1;
        }
        delta = prefix_len(codes, self_code, step(i, d, l_max));
    }
    let mut l: i64 = 0;
    let mut t: i64 = l_max / 2;
    let ghost mut kt: nat = (k - 1) as nat;
    while t > 0
        invariant
            0 <= l,
            0 <= t,
            l + 2 * t <= l_max,
            l_max <= 2 * n,
            n == codes.len(),
            n <= u32::MAX,
            0 < i < n,
            i == idx,
            self_code == cs[idx as int].code,
            cs == codes@,
            d == 1 || d == -1,
            delta_min >= 0,
            0 <= step_from(i as int, d as int, l as int) < n,
            l == 0 || prefix(cs, idx as int, step_from(i as int, d as int, l as int)) > delta_min,
            t >= 1 ==> t == pow2(kt),
            t >= 1 ==> prefix(cs, idx as int, step_from(i as int, d as int, l + 2 * t)) <= delta_min,
            t == 0 ==> prefix(cs, idx as int, step_from(i as int, d as int, l + 1)) <= delta_min,
        decreases t,
    {
        let probe = prefix_len(codes, self_code, step(i, d, l + t));
        proof {
            if kt > 0 {
                assert(t == 2 * pow2((kt - 1) as nat));
            } else {
                assert(t == 1);
            }
        }
        if probe > delta_min {
            l = l + t;
        }
        t = t / 2;
        proof {
            if kt > 0 {
                kt = (kt - 1) as nat;
                lemma_pow2_positive(kt);
            }
        }
    }
    let j = step(i, d, l);
    assert(step_from(j as int, d as int, 1) == step_from(i as int, d as int, l + 1));
    if d < 0 {
        (j as usize, idx)
    } else {
        (idx, j as usize)
    }
}

/// Sorted codes share no longer a prefix with `codes[a]` the farther from it
/// they lie.
pub proof fn lemma_prefix_monotone(codes: Seq<MortonCode>, a: int, b: int, c: int)
    requires
        codes_sorted(codes),
        0 <= a <= b <= c < codes.len(),
    ensures
        prefix(codes, a, c) <= prefix(codes, a, b),
{
    lemma_prefix_between(codes[a].code, codes[b].code, codes[c].code);
}

/// Where the span `[first, last]` divides: the midpoint when the two end
/// codes are equal; otherwise, for sorted codes, the last position `split`
/// whose code shares with `codes[first]` a longer prefix than `codes[last]`
/// does, so that `split + 1` no longer does.
pub fn find_split(codes: &Vec<MortonCode>, first: usize, last: usize) -> (r: usize)
    requires
        first <= last < codes.len(),
    ensures
        first <= r <= last,
        first < last ==> r < last,
        codes@[first as int].code == codes@[last as int].code ==> r == first + (last - first) / 2,
        codes_sorted(codes@) && codes@[first as int].code != codes@[last as int].code ==> prefix(
            codes@,
            first as int,
            r as int,
        ) > prefix(codes@, first as int, last as int) && prefix(codes@, first as int, r + 1)
            <= prefix(codes@, first as int, last as int),
{
    let c1 = codes[first].code;
    let c2 = codes[last].code;
    if c1 == c2 {
        return first + (last - first) / 2;
    }
    let delta_node = (c1 ^ c2).leading_zeros();
    let ghost cs = codes@;
    let ghost sorted = codes_sorted(cs);
    proof {
        assert(c1 ^ c2 != 0 && c1 ^ c1 == 0) by (bit_vector)
            requires
                c1 != c2,
        ;
        assert(delta_node == prefix(cs, first as int, last as int));
        assert(prefix(cs, first as int, first as int) == 32);
    }
    let mut split = first;
    let mut stride = last - first;
    let ghost mut e: int = last as int;
    while stride > 1
        invariant
            first <= split < last < codes.len(),
            stride <= last - first,
            cs == codes@,
            c1 == cs[first as int].code,
            delta_node == prefix(cs, first as int, last as int),
            sorted == codes_sorted(cs),
            sorted ==> prefix(cs, first as int, split as int) > delta_node,
            sorted ==> split < e <= split + stride && e <= last && prefix(cs, first as int, e) <= delta_node,
        decreases stride,
    {
        let ghost old_split = split;
        let ghost old_stride = stride;
        stride = (stride + 1) / 2;
        if stride < last - split {
            let middle = split + stride;
            let delta = (c1 ^ codes[middle].code).leading_zeros();
            assert(delta == prefix(cs, first as int, middle as int));
            if delta > delta_node {
                proof {
                    if sorted && e <= middle {
                        lemma_prefix_monotone(cs, first as int, e, middle as int);
                    }
                }
                split = middle;
            } else {
                proof {
                    e = middle as int;
                }
            }
        }
    }
    split
}

/// Index of the node at leaf position `pos` of a span ending at `end`: a leaf
/// when the position is the end itself, else the branch numbered `pos`.
pub open spec fn child_index(pos: int, end: int, bc: int) -> int {
    if pos == end {
        pos + bc
    } else {
        pos
    }
}

/// Leaf position after which branch `nd` splits its span.
pub open spec fn split_of(nd: BVHFlatNode, bc: int) -> int {
    if nd.left_child_idx as int >= bc {
        nd.left_child_idx as int - bc
    } else {
        nd.left_child_idx as int
    }
}

/// Branch `x` roots a full binary tree over leaf positions `[f, l]`: it
/// splits them at some `s`, its children are the nodes of `[f, s]` and
/// `[s + 1, l]` (leaves for single positions), both point back to it, its box
/// is the union of theirs, and the children's spans are trees in turn.
pub open spec fn subtree(
    nodes: Seq<BVHFlatNode>,
    bbs: Seq<BoundingBox>,
    bc: int,
    x: int,
    f: int,
    l: int,
) -> bool
    decreases l - f,
{
    if f >= l {
        false
    } else {
        let nd = nodes[x];
        let s = split_of(nd, bc);
        &&& x == f || x == l
        &&& f <= s < l
        &&& nd.primitive_idx == SENTINEL
        &&& nd.left_child_idx as int == child_index(s, f, bc)
        &&& nd.right_child_idx as int == child_index(s + 1, l, bc)
        &&& nodes[nd.left_child_idx as int].parent_idx as int == x
        &&& nodes[nd.right_child_idx as int].parent_idx as int == x
        &&& bbs[x] == union(bbs[nd.left_child_idx as int], bbs[nd.right_child_idx as int])
        &&& (s > f ==> subtree(nodes, bbs, bc, s, f, s))
        &&& (s + 1 < l ==> subtree(nodes, bbs, bc, s + 1, s + 1, l))
    }
}

/// The nodes a subtree over `[f, l]` rooted at `x` consists of: its branches
/// and its leaves.
pub open spec fn owned(bc: int, x: int, f: int, l: int, j: int) -> bool {
    ||| (if x == f {
        f <= j < l
    } else {
        f < j <= l
    })
    ||| bc + f <= j <= bc + l
}

/// A subtree depends on its own nodes alone.
proof fn lemma_subtree_frame(
    n1: Seq<BVHFlatNode>,
    b1: Seq<BoundingBox>,
    n2: Seq<BVHFlatNode>,
    b2: Seq<BoundingBox>,
    bc: int,
    x: int,
    f: int,
    l: int,
)
    requires
        subtree(n1, b1, bc, x, f, l),
        forall|j: int| #[trigger] owned(bc, x, f, l, j) ==> n1[j] == n2[j] && b1[j] == b2[j],
    ensures
        subtree(n2, b2, bc, x, f, l),
    decreases l - f,
{
    let nd = n1[x];
    let s = split_of(nd, bc);
    assert(owned(bc, x, f, l, x));
    assert(owned(bc, x, f, l, nd.left_child_idx as int));
    assert(owned(bc, x, f, l, nd.right_child_idx as int));
    if s > f {
        assert forall|j: int| #[trigger] owned(bc, s, f, s, j) implies n1[j] == n2[j] && b1[j] == b2[j] by {
            assert(owned(bc, x, f, l, j));
        }
        lemma_subtree_frame(n1, b1, n2, b2, bc, s, f, s);
    }
    if s + 1 < l {
        assert forall|j: int| #[trigger] owned(bc, s + 1, s + 1, l, j) implies n1[j] == n2[j] && b1[j]
            == b2[j] by {
            assert(owned(bc, x, f, l, j));
        }
        lemma_subtree_frame(n1, b1, n2, b2, bc, s + 1, s + 1, l);
    }
}

/// Branch `j` is well formed: marked, two distinct children in the array that
/// both name it as parent, and its box the union of theirs.
pub open spec fn branch_ok(nodes: Seq<BVHFlatNode>, bbs: Seq<BoundingBox>, j: int) -> bool {
    let nd = nodes[j];
    &&& nd.primitive_idx == SENTINEL
    &&& (nd.left_child_idx as int) < nodes.len()
    &&& (nd.right_child_idx as int) < nodes.len()
    &&& nd.left_child_idx != nd.right_child_idx
    &&& nodes[nd.left_child_idx as int].parent_idx as int == j
    &&& nodes[nd.right_child_idx as int].parent_idx as int == j
    &&& bbs[j] == union(bbs[nd.left_child_idx as int], bbs[nd.right_child_idx as int])
}

/// Every branch of a subtree is well formed.
proof fn lemma_subtree_branches(
    nodes: Seq<BVHFlatNode>,
    bbs: Seq<BoundingBox>,
    bc: int,
    x: int,
    f: int,
    l: int,
)
    requires
        subtree(nodes, bbs, bc, x, f, l),
        0 <= f,
        l <= bc,
        nodes.len() == 2 * bc + 1,
    ensures
        forall|j: int|
            (if x == f {
                f <= j < l
            } else {
                f < j <= l
            }) ==> #[trigger] branch_ok(nodes, bbs, j),
    decreases l - f,
{
    let s = split_of(nodes[x], bc);
    if s > f {
        lemma_subtree_branches(nodes, bbs, bc, s, f, s);
    }
    if s + 1 < l {
        lemma_subtree_branches(nodes, bbs, bc, s + 1, s + 1, l);
    }
    assert forall|j: int|
        (if x == f {
            f <= j < l
        } else {
            f < j <= l
        }) implies #[trigger] branch_ok(nodes, bbs, j) by {
        if j != x {
            if j <= s {
                assert(s > f);
            } else {
                assert(s + 1 < l);
            }
        }
    }
}

/// Every leaf of a subtree lies inside the subtree's box.
proof fn lemma_subtree_within(
    nodes: Seq<BVHFlatNode>,
    bbs: Seq<BoundingBox>,
    bc: int,
    x: int,
    f: int,
    l: int,
)
    requires
        subtree(nodes, bbs, bc, x, f, l),
    ensures
        forall|k: int| f <= k <= l ==> (#[trigger] bbs[bc + k]).within(bbs[x]),
    decreases l - f,
{
    let s = split_of(nodes[x], bc);
    if s > f {
        lemma_subtree_within(nodes, bbs, bc, s, f, s);
    }
    if s + 1 < l {
        lemma_subtree_within(nodes, bbs, bc, s + 1, s + 1, l);
    }
    assert forall|k: int| f <= k <= l implies (#[trigger] bbs[bc + k]).within(bbs[x]) by {
        if k <= s {
            if s > f {
                assert(bbs[bc + k].within(bbs[s]));
            }
        } else {
            if s + 1 < l {
                assert(bbs[bc + k].within(bbs[s + 1]));
            }
        }
    }
}

proof fn lemma_affine_span(s: int, o: int, blo: int, bhi: int, clo: int, chi: int)
    requires
        clo <= blo < bhi <= chi,
        fits_i32(s * blo + o),
        fits_i32(s * bhi + o),
        fits_i32(s * clo + o),
        fits_i32(s * chi + o),
    ensures
        padded_lo(s * clo + o, s * chi + o) <= padded_lo(s * blo + o, s * bhi + o),
        padded_hi(s * blo + o, s * bhi + o) <= padded_hi(s * clo + o, s * chi + o),
{
    if s > 0 {
        assert(s * clo <= s * blo && s * blo < s * bhi && s * bhi <= s * chi) by (nonlinear_arith)
            requires
                s > 0,
                clo <= blo < bhi <= chi,
        ;
    } else if s < 0 {
        assert(s * clo >= s * blo && s * blo > s * bhi && s * bhi >= s * chi) by (nonlinear_arith)
            requires
                s < 0,
                clo <= blo < bhi <= chi,
        ;
    } else {
        assert(s * clo == 0 && s * blo == 0 && s * bhi == 0 && s * chi == 0);
    }
}

/// Moving two nested boxes by the same transform keeps them nested.
proof fn lemma_transformed_within(t: Transform, b: BoundingBox, c: BoundingBox)
    requires
        b.wf(),
        c.wf(),
        b.within(c),
        maps_into_grid(t, b.min),
        maps_into_grid(t, b.max),
        maps_into_grid(t, c.min),
        maps_into_grid(t, c.max),
    ensures
        transformed_box(b, t).within(transformed_box(c, t)),
{
    assert forall|a: int| 0 <= a < 3 implies #[trigger] padded_lo(apply_at(t, c.min, a), apply_at(t, c.max, a))
        <= padded_lo(apply_at(t, b.min, a), apply_at(t, b.max, a)) && padded_hi(apply_at(t, b.min, a), apply_at(t, b.max, a))
        <= padded_hi(apply_at(t, c.min, a), apply_at(t, c.max, a)) by {
        assert(fits_i32(apply_at(t, b.min, a)) && fits_i32(apply_at(t, b.max, a)));
        assert(fits_i32(apply_at(t, c.min, a)) && fits_i32(apply_at(t, c.max, a)));
        lemma_affine_span(t.scale.at(a), t.offset.at(a), b.min.at(a), b.max.at(a), c.min.at(a), c.max.at(a));
    }
    let p = padded_lo(apply_at(t, c.min, 0), apply_at(t, c.max, 0));
    assert(padded_lo(apply_at(t, c.min, 1), apply_at(t, c.max, 1)) <= padded_lo(apply_at(t, b.min, 1), apply_at(t, b.max, 1)));
    assert(padded_lo(apply_at(t, c.min, 2), apply_at(t, c.max, 2)) <= padded_lo(apply_at(t, b.min, 2), apply_at(t, b.max, 2)));
    assert(fits_i32(apply_at(t, b.min, 0)) && fits_i32(apply_at(t, b.max, 0)) && fits_i32(apply_at(t, c.min, 0)) && fits_i32(apply_at(t, c.max, 0)));
    assert(fits_i32(apply_at(t, b.min, 1)) && fits_i32(apply_at(t, b.max, 1)) && fits_i32(apply_at(t, c.min, 1)) && fits_i32(apply_at(t, c.max, 1)));
    assert(fits_i32(apply_at(t, b.min, 2)) && fits_i32(apply_at(t, b.max, 2)) && fits_i32(apply_at(t, c.min, 2)) && fits_i32(apply_at(t, c.max, 2)));
}

/// Node `j` is a child of the branch it names as parent.
pub open spec fn child_of(nodes: Seq<BVHFlatNode>, bc: int, j: int) -> bool {
    let p = nodes[j].parent_idx as int;
    &&& 0 <= p < bc
    &&& (nodes[p].left_child_idx as int == j || nodes[p].right_child_idx as int == j)
}

/// Every node of a subtree but its root is a child of the branch it names
/// as parent.
proof fn lemma_subtree_parents(
    nodes: Seq<BVHFlatNode>,
    bbs: Seq<BoundingBox>,
    bc: int,
    x: int,
    f: int,
    l: int,
)
    requires
        subtree(nodes, bbs, bc, x, f, l),
        0 <= f,
        l <= bc,
        0 <= x < bc,
    ensures
        forall|j: int| #[trigger] owned(bc, x, f, l, j) && j != x ==> child_of(nodes, bc, j),
    decreases l - f,
{
    let s = split_of(nodes[x], bc);
    if s > f {
        lemma_subtree_parents(nodes, bbs, bc, s, f, s);
    }
    if s + 1 < l {
        lemma_subtree_parents(nodes, bbs, bc, s + 1, s + 1, l);
    }
    assert forall|j: int| #[trigger] owned(bc, x, f, l, j) && j != x implies child_of(nodes, bc, j) by {
        let lc = nodes[x].left_child_idx as int;
        let rc = nodes[x].right_child_idx as int;
        if j == lc || j == rc {
        } else if j < bc {
            if j <= s {
                assert(owned(bc, s, f, s, j));
            } else {
                assert(owned(bc, s + 1, s + 1, l, j));
            }
        } else {
            if j <= bc + s {
                assert(owned(bc, s, f, s, j));
            } else {
                assert(owned(bc, s + 1, s + 1, l, j));
            }
        }
    }
}

/// The union of the first `m` triangle boxes is the least box holding them.
pub proof fn lemma_hull_least(vertices: Seq<Vec3>, indices: Seq<u32>, m: int, b: BoundingBox)
    requires
        m >= 1,
        forall|k: int| 0 <= k < m ==> #[trigger] triangle_box(vertices, indices, k).within(b),
    ensures
        hull(vertices, indices, m).within(b),
    decreases m,
{
    if m > 1 {
        lemma_hull_least(vertices, indices, m - 1, b);
        assert(triangle_box(vertices, indices, m - 1).within(b));
    } else {
        assert(triangle_box(vertices, indices, 0).within(b));
    }
}

/// Some code stands for primitive `k`.
pub open spec fn names_primitive(codes: Seq<MortonCode>, k: u32) -> bool {
    exists|j: int| 0 <= j < codes.len() && #[trigger] codes[j].primitive_id == k
}

/// The leaves' Morton keys in ascending order: the code of each box's centre
/// within `total_bb`, equal codes ordered by box index.
fn sorted_codes(prim: &Vec<BoundingBox>, total_bb: BoundingBox) -> (codes: Vec<MortonCode>)
    requires
        1 <= prim@.len() <= 0x7FFF_FFFF,
        total_bb.wf(),
        forall|j: int| 0 <= j < prim@.len() ==> (#[trigger] prim@[j]).wf(),
    ensures
        codes@.len() == prim@.len(),
        forall|j: int|
            0 <= j < codes@.len() ==> (#[trigger] codes@[j]).primitive_id < prim@.len() && codes@[j].code
                == box_code(total_bb, prim@[codes@[j].primitive_id as int]),
        forall|a: int, b: int|
            0 <= a < b < codes@.len() ==> #[trigger] codes@[a].primitive_id != #[trigger] codes@[b].primitive_id,
        forall|k: u32| (k as int) < prim@.len() ==> #[trigger] names_primitive(codes@, k),
        forall|j: int|
            0 <= j < codes@.len() - 1 ==> (#[trigger] codes@[j]).code <= codes@[j + 1].code && (codes@[j].code
                == codes@[j + 1].code ==> codes@[j].primitive_id < codes@[j + 1].primitive_id),
{
    let leaf_count = prim.len();
    // Morton keys: the code of each leaf's centre, packed with its index.
    let mut keys: Vec<u64> = Vec::new();
    let mut k: usize = 0;
    while k < leaf_count
        invariant
            0 <= k <= leaf_count,
            leaf_count <= 0x7FFF_FFFF,
            prim@.len() == leaf_count,
            keys@.len() == k,
            total_bb.wf(),
            forall|j: int| 0 <= j < leaf_count ==> (#[trigger] prim@[j]).wf(),
            forall|j: int| 0 <= j < k ==> #[trigger] key_lo(keys@[j]) == j,
            forall|j: int| 0 <= j < k ==> #[trigger] key_hi(keys@[j]) == box_code(total_bb, prim@[j]),
        decreases leaf_count - k,
    {
        let c = prim[k].center();
        let cell = total_bb.relative_position(&c);
        let code = MortonCode::new(&cell, k as u32);
        proof {
            reveal(box_code);
            reveal(cell_at);
            assert(c.at(0) == prim@[k as int].min.at(0) + (prim@[k as int].max.at(0) - prim@[k as int].min.at(0)) / 2);
            assert(c.at(1) == prim@[k as int].min.at(1) + (prim@[k as int].max.at(1) - prim@[k as int].min.at(1)) / 2);
            assert(c.at(2) == prim@[k as int].min.at(2) + (prim@[k as int].max.at(2) - prim@[k as int].min.at(2)) / 2);
            assert(cell@[0] == cell_at(total_bb, prim@[k as int], 0));
            assert(cell@[1] == cell_at(total_bb, prim@[k as int], 1));
            assert(cell@[2] == cell_at(total_bb, prim@[k as int], 2));
            assert(code.code == morton_code(clamp_cell(cell@[0]), clamp_cell(cell@[1]), clamp_cell(cell@[2])));
            assert(box_code(total_bb, prim@[k as int]) == morton_code(
                clamp_cell(cell_at(total_bb, prim@[k as int], 0)),
                clamp_cell(cell_at(total_bb, prim@[k as int], 1)),
                clamp_cell(cell_at(total_bb, prim@[k as int], 2)),
            ));
            assert(code.code == box_code(total_bb, prim@[k as int]));
        }
        keys.push(pack(code.code, k as u32));
        k = k + 1;
    }
    let ghost unsorted = keys@;
    sort_keys(&mut keys);
    proof {
        lemma_sorted_permutation(unsorted, keys@);
    }
    let mut codes: Vec<MortonCode> = Vec::new();
    let mut j: usize = 0;
    while j < leaf_count
        invariant
            0 <= j <= leaf_count,
            keys@.len() == leaf_count,
            codes@.len() == j,
            forall|m: int|
                0 <= m < j ==> (#[trigger] codes@[m]).primitive_id == key_lo(keys@[m])
                    && codes@[m].code == key_hi(keys@[m]),
        decreases leaf_count - j,
    {
        codes.push(MortonCode { code: unpack_hi(keys[j]), primitive_id: unpack_lo(keys[j]) });
        j = j + 1;
    }
    proof {
        let sorted = keys@;
        assert forall|a: int, b: int| 0 <= a < b < codes@.len() implies #[trigger] codes@[a].primitive_id
            != #[trigger] codes@[b].primitive_id by {
            if codes@[a].primitive_id == codes@[b].primitive_id {
                assert(sorted[a] == unsorted[key_lo(sorted[a]) as int]);
                assert(sorted[b] == unsorted[key_lo(sorted[b]) as int]);
            }
        }
        assert forall|k: u32| (k as int) < prim@.len() implies #[trigger] names_primitive(codes@, k) by {
            assert(sorted.contains(unsorted[k as int]));
            let j = choose|j: int| 0 <= j < sorted.len() && sorted[j] == unsorted[k as int];
            assert(key_lo(unsorted[k as int]) == k);
            assert(codes@[j].primitive_id == k);
        }
        assert forall|j: int| 0 <= j < codes@.len() implies (#[trigger] codes@[j]).primitive_id < prim@.len()
            && codes@[j].code == box_code(total_bb, prim@[codes@[j].primitive_id as int]) by {
            assert(sorted[j] == unsorted[key_lo(sorted[j]) as int]);
        }
        assert forall|j: int| 0 <= j < codes@.len() - 1 implies (#[trigger] codes@[j]).code <= codes@[j + 1].code
            && (codes@[j].code == codes@[j + 1].code ==> codes@[j].primitive_id < codes@[j + 1].primitive_id) by {
            assert(sorted[j] <= sorted[j + 1]);
            lemma_key_order(sorted[j], sorted[j + 1]);
            if key_hi(sorted[j]) == key_hi(sorted[j + 1]) && key_lo(sorted[j]) == key_lo(sorted[j + 1]) {
                assert(sorted[j] == sorted[j + 1]);
            }
        }
    }
    codes
}

/// The box of every triangle, and their union.
fn leaf_boxes(vertices: &Vec<Vec3>, ix: &Vec<u32>) -> (r: (Vec<BoundingBox>, BoundingBox))
    requires
        valid_mesh(vertices@, ix@),
    ensures
        r.0@.len() == ix@.len() / 3,
        r.1 == hull(vertices@, ix@, ix@.len() as int / 3),
        r.1.wf(),
        forall|j: int|
            0 <= j < r.0@.len() ==> #[trigger] r.0@[j] == triangle_box(vertices@, ix@, j) && r.0@[j].within(r.1)
                && r.0@[j].wf(),
{
    let leaf_count: usize = ix.len() / 3;
    // Leaf boxes and their union.
    let mut prim: Vec<BoundingBox> = Vec::new();
    let first = triangle_bb(vertices, ix, 0);
    let mut total_bb = first;
    prim.push(first);
    let mut k: usize = 1;
    while k < leaf_count
        invariant
            valid_mesh(vertices@, ix@),
            leaf_count == ix@.len() / 3,
            1 <= k <= leaf_count,
            prim@.len() == k,
            total_bb == hull(vertices@, ix@, k as int),
            total_bb.wf(),
            forall|j: int|
                0 <= j < k ==> #[trigger] prim@[j] == triangle_box(vertices@, ix@, j)
                    && prim@[j].within(total_bb),
        decreases leaf_count - k,
    {
        let tb = triangle_bb(vertices, ix, k);
        let old_total = total_bb;
        total_bb = BoundingBox::surrounding_box(&total_bb, &tb);
        proof {
            assert forall|j: int| 0 <= j < k implies prim@[j].within(total_bb) by {
                lemma_within_trans(prim@[j], old_total, total_bb);
            }
        }
        prim.push(tb);
        k = k + 1;
    }

    (prim, total_bb)
}

/// The node and box arrays before the topology: branches marked and boxed by
/// the total box, leaves in sorted order with their primitives and boxes.
fn initial_arrays(prim: &Vec<BoundingBox>, total_bb: BoundingBox, codes: &Vec<MortonCode>) -> (r: (
    Vec<BVHFlatNode>,
    Vec<BoundingBox>,
))
    requires
        1 <= prim@.len() <= 0x7FFF_FFFF,
        codes@.len() == prim@.len(),
        total_bb.wf(),
        forall|m: int| 0 <= m < codes@.len() ==> (#[trigger] codes@[m]).primitive_id < prim@.len(),
        forall|m: int| 0 <= m < prim@.len() ==> (#[trigger] prim@[m]).within(total_bb) && prim@[m].wf(),
    ensures
        r.0@.len() == 2 * prim@.len() - 1,
        r.1@.len() == 2 * prim@.len() - 1,
        forall|m: int| 0 <= m < prim@.len() - 1 ==> #[trigger] r.1@[m] == total_bb,
        forall|m: int|
            0 <= m < prim@.len() - 1 ==> #[trigger] r.0@[m] == (BVHFlatNode {
                parent_idx: 0,
                left_child_idx: 0,
                right_child_idx: 0,
                primitive_idx: SENTINEL,
            }),
        forall|m: int|
            prim@.len() - 1 <= m < 2 * prim@.len() - 1 ==> #[trigger] r.0@[m] == (BVHFlatNode {
                parent_idx: 0,
                left_child_idx: 0,
                right_child_idx: 0,
                primitive_idx: codes@[m - (prim@.len() - 1)].primitive_id,
            }),
        forall|m: int|
            prim@.len() - 1 <= m < 2 * prim@.len() - 1 ==> #[trigger] r.1@[m]
                == prim@[codes@[m - (prim@.len() - 1)].primitive_id as int],
{
    let leaf_count: usize = prim.len();
    let branch_count: usize = leaf_count - 1;
    // Boxes: branches start as the total box, leaves in sorted order.
    let mut bbs: Vec<BoundingBox> = Vec::new();
    let mut nodes: Vec<BVHFlatNode> = Vec::new();
    let mut i: usize = 0;
    while i < branch_count
        invariant
            0 <= i <= branch_count,
            bbs@.len() == i,
            nodes@.len() == i,
            total_bb.wf(),
            forall|m: int| 0 <= m < i ==> #[trigger] bbs@[m] == total_bb,
            forall|m: int|
                0 <= m < i ==> #[trigger] nodes@[m] == (BVHFlatNode {
                    parent_idx: 0,
                    left_child_idx: 0,
                    right_child_idx: 0,
                    primitive_idx: SENTINEL,
                }),
        decreases branch_count - i,
    {
        bbs.push(total_bb);
        nodes.push(BVHFlatNode {
            parent_idx: 0,
            left_child_idx: 0,
            right_child_idx: 0,
            primitive_idx: SENTINEL,
        });
        i = i + 1;
    }
    let mut j: usize = 0;
    while j < leaf_count
        invariant
            0 <= j <= leaf_count,
            branch_count + 1 == leaf_count,
            leaf_count <= 0x7FFF_FFFF,
            bbs@.len() == branch_count + j,
            nodes@.len() == branch_count + j,
            codes@.len() == leaf_count,
            prim@.len() == leaf_count,
            total_bb.wf(),
            forall|m: int| 0 <= m < leaf_count ==> (#[trigger] codes@[m]).primitive_id < leaf_count,
            forall|m: int| 0 <= m < leaf_count ==> (#[trigger] prim@[m]).within(total_bb) && prim@[m].wf(),
            forall|m: int| 0 <= m < branch_count ==> #[trigger] bbs@[m] == total_bb,
            forall|m: int|
                0 <= m < branch_count ==> #[trigger] nodes@[m] == (BVHFlatNode {
                    parent_idx: 0,
                    left_child_idx: 0,
                    right_child_idx: 0,
                    primitive_idx: SENTINEL,
                }),
            forall|m: int|
                branch_count <= m < branch_count + j ==> #[trigger] nodes@[m] == (BVHFlatNode {
                    parent_idx: 0,
                    left_child_idx: 0,
                    right_child_idx: 0,
                    primitive_idx: codes@[m - branch_count].primitive_id,
                }),
            forall|m: int|
                branch_count <= m < branch_count + j ==> #[trigger] bbs@[m]
                    == prim@[codes@[m - branch_count].primitive_id as int],
        decreases leaf_count - j,
    {
        let id = codes[j].primitive_id;
        bbs.push(prim[id as usize]);
        nodes.push(BVHFlatNode {
            parent_idx: 0,
            left_child_idx: 0,
            right_child_idx: 0,
            primitive_idx: id,
        });
        j = j + 1;
    }
    (nodes, bbs)
}

/// The root box of an assembled tree is the union of all triangle boxes.
#[verifier::spinoff_prover]
proof fn lemma_root_box(
    r: BottomLevelAccelerationStructure,
    vertices: Seq<Vec3>,
    ix: Seq<u32>,
    prim: Seq<BoundingBox>,
)
    requires
        r.nodes@.len() == 2 * prim.len() - 1,
        r.bbs@.len() == r.nodes@.len(),
        1 <= prim.len() <= 0x7FFF_FFFF,
        r.total_bb == hull(vertices, ix, prim.len() as int),
        forall|j: int| 0 <= j < prim.len() ==> #[trigger] prim[j] == triangle_box(vertices, ix, j),
        forall|k: u32| (k as int) < r.leaf_count() ==> #[trigger] r.leaf_ids().contains(k),
        forall|m: int|
            r.branch_count() <= m < r.nodes@.len() ==> (#[trigger] r.bbs@[m]) == prim[r.nodes@[m].primitive_idx as int],
        r.branch_count() > 0 ==> forall|k: int| 0 <= k <= r.branch_count() ==> (#[trigger] r.bbs@[r.branch_count() + k]).within(r.bbs@[0]),
        r.bbs@[0].within(r.total_bb),
    ensures
        r.bbs@[0] == r.total_bb,
{
    let bc = r.branch_count();
    assert forall|k: int| 0 <= k < prim.len() implies #[trigger] triangle_box(vertices, ix, k).within(r.bbs@[0]) by {
        assert(r.leaf_ids().contains(k as u32));
        let jj = choose|jj: int| 0 <= jj < r.leaf_ids().len() && r.leaf_ids()[jj] == k as u32;
        assert(r.leaf_ids()[jj] == r.nodes@[bc + jj].primitive_idx);
        assert(bc + jj < r.nodes@.len());
        assert(r.leaf_ids()[jj] == k as u32);
        assert(r.nodes@[bc + jj].primitive_idx == k as u32);
        assert((k as u32) as int == k);
        assert(r.bbs@[bc + jj] == prim[r.nodes@[bc + jj].primitive_idx as int]);
        assert(r.bbs@[bc + jj] == prim[k]);
        if bc == 0 {
            assert(jj == 0);
        } else {
            assert(r.bbs@[bc + jj].within(r.bbs@[0]));
        }
    }
    lemma_hull_least(vertices, ix, prim.len() as int, r.bbs@[0]);
    assert(r.bbs@[0].min == r.total_bb.min);
    assert(r.bbs@[0].max == r.total_bb.max);
}

/// What the leaves of an assembled tree satisfy, given the sorted codes its
/// leaves were laid out from.
#[verifier::rlimit(100)]
#[verifier::spinoff_prover]
proof fn lemma_build_leaves(
    r: BottomLevelAccelerationStructure,
    vertices: Seq<Vec3>,
    ix: Seq<u32>,
    prim: Seq<BoundingBox>,
    codes: Seq<MortonCode>,
)
    requires
        valid_mesh(vertices, ix),
        r.nodes@.len() == 2 * prim.len() - 1,
        r.bbs@.len() == r.nodes@.len(),
        prim.len() == ix.len() / 3,
        codes.len() == prim.len(),
        r.total_bb == hull(vertices, ix, prim.len() as int),
        forall|j: int| 0 <= j < prim.len() ==> #[trigger] prim[j] == triangle_box(vertices, ix, j),
        forall|j: int|
            0 <= j < codes.len() ==> (#[trigger] codes[j]).primitive_id < prim.len() && codes[j].code
                == box_code(r.total_bb, prim[codes[j].primitive_id as int]),
        forall|a: int, b: int|
            0 <= a < b < codes.len() ==> #[trigger] codes[a].primitive_id != #[trigger] codes[b].primitive_id,
        forall|k: u32| (k as int) < prim.len() ==> #[trigger] names_primitive(codes, k),
        forall|j: int|
            0 <= j < codes.len() - 1 ==> (#[trigger] codes[j]).code <= codes[j + 1].code && (codes[j].code
                == codes[j + 1].code ==> codes[j].primitive_id < codes[j + 1].primitive_id),
        forall|m: int|
            r.branch_count() <= m < r.nodes@.len() ==> (#[trigger] r.nodes@[m]).primitive_idx
                == codes[m - r.branch_count()].primitive_id && r.bbs@[m] == prim[codes[m - r.branch_count()].primitive_id as int],
        r.branch_count() > 0 ==> forall|k: int| 0 <= k <= r.branch_count() ==> (#[trigger] r.bbs@[r.branch_count() + k]).within(r.bbs@[0]),
        r.bbs@[0].within(r.total_bb),
    ensures
        r.leaf_ids().no_duplicates(),
        forall|k: u32| (k as int) < r.leaf_count() ==> #[trigger] r.leaf_ids().contains(k),
        forall|j: int|
            r.branch_count() <= j < r.nodes@.len() ==> #[trigger] r.bbs@[j] == triangle_box(
                vertices,
                ix,
                r.nodes@[j].primitive_idx as int,
            ),
        forall|j: int|
            0 <= j < r.leaf_count() - 1 ==> box_code(r.total_bb, #[trigger] r.bbs@[r.branch_count() + j])
                <= box_code(r.total_bb, r.bbs@[r.branch_count() + j + 1]) && (box_code(
                r.total_bb,
                r.bbs@[r.branch_count() + j],
            ) == box_code(r.total_bb, r.bbs@[r.branch_count() + j + 1]) ==> r.leaf_prim(j)
                < r.leaf_prim(j + 1)),
        r.bbs@[0] == r.total_bb,
{
    let bc = r.branch_count();
    let ids = r.leaf_ids();
    assert forall|a: int, b: int| 0 <= a < ids.len() && 0 <= b < ids.len() && a != b implies ids[a] != ids[b] by {
        assert(ids[a] == codes[a].primitive_id);
        assert(ids[b] == codes[b].primitive_id);
        if a > b {
            assert(codes[b].primitive_id != codes[a].primitive_id);
        }
    }
    assert forall|k: u32| (k as int) < r.leaf_count() implies #[trigger] r.leaf_ids().contains(k) by {
        assert(names_primitive(codes, k));
        let j = choose|j: int| 0 <= j < codes.len() && #[trigger] codes[j].primitive_id == k;
        assert(ids[j] == k);
    }
    assert forall|j: int| 0 <= j < r.leaf_count() - 1 implies box_code(r.total_bb, #[trigger] r.bbs@[bc + j])
        <= box_code(r.total_bb, r.bbs@[bc + j + 1]) && (box_code(r.total_bb, r.bbs@[bc + j]) == box_code(
        r.total_bb,
        r.bbs@[bc + j + 1],
    ) ==> r.leaf_prim(j) < r.leaf_prim(j + 1)) by {
        assert(codes[j].code <= codes[j + 1].code);
        assert(r.nodes@[bc + j].primitive_idx == codes[j].primitive_id);
        assert(r.nodes@[bc + j + 1].primitive_idx == codes[j + 1].primitive_id);
    }
    assert forall|m: int| r.branch_count() <= m < r.nodes@.len() implies (#[trigger] r.bbs@[m]) == prim[r.nodes@[m].primitive_idx as int] by {
        assert(r.nodes@[m].primitive_idx == codes[m - bc].primitive_id);
    }
    lemma_root_box(r, vertices, ix, prim);
}

/// Links the laid-out arrays into a tree: the root gets no parent, and the
/// branches are built from the root span down.
fn link_tree(codes: &Vec<MortonCode>, nodes: &mut Vec<BVHFlatNode>, bbs: &mut Vec<BoundingBox>, total_bb: BoundingBox)
    requires
        1 <= codes@.len() <= 0x7FFF_FFFF,
        old(nodes)@.len() == 2 * codes@.len() - 1,
        old(bbs)@.len() == 2 * codes@.len() - 1,
        total_bb.wf(),
        forall|m: int| 0 <= m < codes@.len() - 1 ==> (#[trigger] old(nodes)@[m]).primitive_idx == SENTINEL,
        forall|m: int|
            0 <= m < 2 * codes@.len() - 1 ==> (#[trigger] old(bbs)@[m]).wf() && old(bbs)@[m].within(total_bb),
    ensures
        final(nodes)@.len() == old(nodes)@.len(),
        final(bbs)@.len() == old(bbs)@.len(),
        final(nodes)@[0].parent_idx == SENTINEL,
        forall|m: int|
            codes@.len() - 1 <= m < 2 * codes@.len() - 1 ==> (#[trigger] final(nodes)@[m]).primitive_idx
                == old(nodes)@[m].primitive_idx && final(bbs)@[m] == old(bbs)@[m],
        forall|m: int|
            0 <= m < 2 * codes@.len() - 1 ==> (#[trigger] final(bbs)@[m]).wf() && final(bbs)@[m].within(total_bb),
        forall|i: int| 0 <= i < codes@.len() - 1 ==> #[trigger] branch_ok(final(nodes)@, final(bbs)@, i),
        codes@.len() >= 2 ==> subtree(final(nodes)@, final(bbs)@, codes@.len() - 1, 0, 0, codes@.len() - 1),
        forall|j: int| 0 < j < 2 * codes@.len() - 1 ==> #[trigger] child_of(final(nodes)@, codes@.len() - 1, j),
        codes@.len() >= 2 ==> forall|k: int|
            0 <= k < codes@.len() ==> (#[trigger] final(bbs)@[codes@.len() - 1 + k]).within(final(bbs)@[0]),
{
    let branch_count: usize = codes.len() - 1;
    let total_node_count: usize = 2 * codes.len() - 1;
    let n0 = nodes[0];
    nodes.set(
        0,
        BVHFlatNode {
            parent_idx: SENTINEL,
            left_child_idx: n0.left_child_idx,
            right_child_idx: n0.right_child_idx,
            primitive_idx: n0.primitive_idx,
        },
    );
    proof {
        assert forall|m: int| 0 <= m < branch_count implies (#[trigger] nodes@[m]).primitive_idx
            == SENTINEL by {
            if m == 0 {
                assert(n0.primitive_idx == SENTINEL);
            }
        }
    }

    // Topology and branch boxes: from the root span down, each span splits
    // where its codes diverge, and each branch box is the union of its
    // children's once both are complete.
    if branch_count > 0 {
        build_subtree(codes, nodes, bbs, 0, branch_count, 0, branch_count, Ghost(total_bb));
        proof {
            lemma_subtree_branches(nodes@, bbs@, branch_count as int, 0, 0, branch_count as int);
            lemma_subtree_parents(nodes@, bbs@, branch_count as int, 0, 0, branch_count as int);
            lemma_subtree_within(nodes@, bbs@, branch_count as int, 0, 0, branch_count as int);
            assert forall|j: int| 0 < j < total_node_count implies #[trigger] child_of(nodes@, branch_count as int, j) by {
                assert(owned(branch_count as int, 0, 0, branch_count as int, j));
            }
        }
    }
}

/// Builds the branch `x` over leaf positions `[first, last]` and everything
/// below it: the span splits where `find_split` says, the children point back
/// to their branch, and the branch box is computed once both children are
/// complete.
#[verifier::rlimit(80)]
#[verifier::spinoff_prover]
fn build_subtree(
    codes: &Vec<MortonCode>,
    nodes: &mut Vec<BVHFlatNode>,
    bbs: &mut Vec<BoundingBox>,
    first: usize,
    last: usize,
    x: usize,
    bc: usize,
    Ghost(total): Ghost<BoundingBox>,
)
    requires
        first < last <= bc,
        x == first || x == last,
        x < bc,
        codes@.len() == bc + 1,
        bc <= 0x7FFF_FFFF,
        old(nodes)@.len() == 2 * bc + 1,
        old(bbs)@.len() == 2 * bc + 1,
        forall|j: int| 0 <= j < bc ==> (#[trigger] old(nodes)@[j]).primitive_idx == SENTINEL,
        forall|j: int|
            0 <= j < 2 * bc + 1 ==> (#[trigger] old(bbs)@[j]).wf() && old(bbs)@[j].within(total),
    ensures
        final(nodes)@.len() == 2 * bc + 1,
        final(bbs)@.len() == 2 * bc + 1,
        subtree(final(nodes)@, final(bbs)@, bc as int, x as int, first as int, last as int),
        forall|j: int|
            0 <= j < 2 * bc + 1 && !owned(bc as int, x as int, first as int, last as int, j) ==> (
            #[trigger] final(nodes)@[j]) == old(nodes)@[j],
        forall|j: int|
            0 <= j < 2 * bc + 1 && !owned(bc as int, x as int, first as int, last as int, j) ==> (
            #[trigger] final(bbs)@[j]) == old(bbs)@[j],
        final(nodes)@[x as int].parent_idx == old(nodes)@[x as int].parent_idx,
        forall|j: int|
            0 <= j < 2 * bc + 1 ==> (#[trigger] final(nodes)@[j]).primitive_idx == old(nodes)@[j].primitive_idx,
        forall|j: int| bc <= j < 2 * bc + 1 ==> #[trigger] final(bbs)@[j] == old(bbs)@[j],
        forall|j: int|
            0 <= j < 2 * bc + 1 ==> (#[trigger] final(bbs)@[j]).wf() && final(bbs)@[j].within(total),
    decreases last - first,
{
    let split = find_split(codes, first, last);
    let left: usize = if split == first {
        split + bc
    } else {
        split
    };
    let right: usize = if split + 1 == last {
        split + 1 + bc
    } else {
        split + 1
    };
    let ghost n0 = nodes@;
    let ghost b0 = bbs@;
    let nx = nodes[x];
    nodes.set(
        x,
        BVHFlatNode {
            parent_idx: nx.parent_idx,
            left_child_idx: left as u32,
            right_child_idx: right as u32,
            primitive_idx: nx.primitive_idx,
        },
    );
    let nl = nodes[left];
    nodes.set(
        left,
        BVHFlatNode {
            parent_idx: x as u32,
            left_child_idx: nl.left_child_idx,
            right_child_idx: nl.right_child_idx,
            primitive_idx: nl.primitive_idx,
        },
    );
    let nr = nodes[right];
    nodes.set(
        right,
        BVHFlatNode {
            parent_idx: x as u32,
            left_child_idx: nr.left_child_idx,
            right_child_idx: nr.right_child_idx,
            primitive_idx: nr.primitive_idx,
        },
    );
    let ghost n1 = nodes@;
    if split > first {
        build_subtree(codes, nodes, bbs, first, split, split, bc, Ghost(total));
    }
    let ghost n2 = nodes@;
    let ghost b2 = bbs@;
    if split + 1 < last {
        build_subtree(codes, nodes, bbs, split + 1, last, split + 1, bc, Ghost(total));
    }
    let ghost n3 = nodes@;
    let ghost b3 = bbs@;
    let u = BoundingBox::surrounding_box(&bbs[left], &bbs[right]);
    proof {
        lemma_union_within(bbs@[left as int], bbs@[right as int], total);
    }
    bbs.set(x, u);
    proof {
        let fi = first as int;
        let la = last as int;
        let sp = split as int;
        let bci = bc as int;
        let xi = x as int;
        let len = 2 * bci + 1;
        // What each step leaves alone.
        assert forall|j: int| #![trigger n2[j]] 0 <= j < len && !owned(bci, sp, fi, sp, j) implies n2[j] == n1[j] by {
            if !(split > first) {
                assert(n2 == n1);
            }
        }
        assert forall|j: int| #![trigger b2[j]] 0 <= j < len && !owned(bci, sp, fi, sp, j) implies b2[j] == b0[j] by {
            if !(split > first) {
                assert(b2 == b0);
            }
        }
        assert forall|j: int| #![trigger n3[j]] 0 <= j < len && !owned(bci, sp + 1, sp + 1, la, j) implies n3[j] == n2[j] by {
            if !(split + 1 < last) {
                assert(n3 == n2);
            }
        }
        assert forall|j: int| #![trigger b3[j]] 0 <= j < len && !owned(bci, sp + 1, sp + 1, la, j) implies b3[j] == b2[j] by {
            if !(split + 1 < last) {
                assert(b3 == b2);
            }
        }
        assert(nodes@ == n3);
        assert forall|j: int| #![trigger bbs@[j]] 0 <= j < len && j != xi implies bbs@[j] == b3[j] by {}
        assert(nodes@[xi] == n1[xi]) by {
            assert(!owned(bci, sp, fi, sp, xi));
            assert(!owned(bci, sp + 1, sp + 1, la, xi));
            assert(n3[xi] == n2[xi]);
            assert(n2[xi] == n1[xi]);
        }
        assert(split_of(nodes@[xi], bci) == sp);
        if split > first {
            assert(subtree(n2, b2, bci, sp, fi, sp));
            assert forall|j: int| #[trigger] owned(bci, sp, fi, sp, j) implies n2[j] == nodes@[j] && b2[j]
                == bbs@[j] by {
                assert(0 <= j < len);
                assert(!owned(bci, sp + 1, sp + 1, la, j));
                assert(j != xi);
                assert(n3[j] == n2[j] && b3[j] == b2[j]);
            }
            lemma_subtree_frame(n2, b2, nodes@, bbs@, bci, sp, fi, sp);
        }
        if split + 1 < last {
            assert(subtree(n3, b3, bci, sp + 1, sp + 1, la));
            assert forall|j: int| #[trigger] owned(bci, sp + 1, sp + 1, la, j) implies n3[j] == nodes@[j]
                && b3[j] == bbs@[j] by {
                assert(0 <= j < len);
                assert(j != xi);
            }
            lemma_subtree_frame(n3, b3, nodes@, bbs@, bci, sp + 1, sp + 1, la);
        }
        assert(nodes@[left as int].parent_idx == xi) by {
            assert(n1[left as int].parent_idx == xi);
            assert(!owned(bci, sp + 1, sp + 1, la, left as int));
            assert(n3[left as int] == n2[left as int]);
            if split > first {
                assert(n2[left as int].parent_idx == n1[left as int].parent_idx);
            } else {
                assert(!owned(bci, sp, fi, sp, left as int) || split == first);
                assert(n2 == n1);
            }
        }
        assert(nodes@[right as int].parent_idx == xi) by {
            assert(n1[right as int].parent_idx == xi);
            assert(!owned(bci, sp, fi, sp, right as int));
            assert(n2[right as int] == n1[right as int]);
            if split + 1 < last {
                assert(n3[right as int].parent_idx == n2[right as int].parent_idx);
            } else {
                assert(n3 == n2);
            }
        }
        assert forall|j: int| 0 <= j < len && !owned(bci, xi, fi, la, j) implies (#[trigger] nodes@[j])
            == n0[j] && bbs@[j] == b0[j] by {
            assert(!owned(bci, sp, fi, sp, j));
            assert(!owned(bci, sp + 1, sp + 1, la, j));
            assert(j != xi && j != left as int && j != right as int);
            assert(n3[j] == n2[j] && n2[j] == n1[j] && n1[j] == n0[j]);
            assert(b3[j] == b2[j] && b2[j] == b0[j]);
        }
        assert(subtree(nodes@, bbs@, bci, xi, fi, la));
    }
}

/// Grid cell, along axis `k`, of the centre of `b` within `total`.
#[verifier::opaque]
pub open spec fn cell_at(total: BoundingBox, b: BoundingBox, k: int) -> u32 {
    cell_of(b.min.at(k) + (b.max.at(k) - b.min.at(k)) / 2, total.min.at(k), total.max.at(k) - total.min.at(k)) as u32
}

/// Morton code of the centre of `b` within `total`.
#[verifier::opaque]
pub open spec fn box_code(total: BoundingBox, b: BoundingBox) -> u32 {
    morton_code(
        clamp_cell(cell_at(total, b, 0)),
        clamp_cell(cell_at(total, b, 1)),
        clamp_cell(cell_at(total, b, 2)),
    )
}

/// Corner `c` (0, 1 or 2) of triangle `k`.
pub open spec fn corner(vertices: Seq<Vec3>, indices: Seq<u32>, k: int, c: int) -> Vec3 {
    vertices[indices[3 * k + c] as int]
}

/// The box of triangle `k`: spanned by the componentwise minimum and maximum
/// of its three corners.
pub open spec fn triangle_box(vertices: Seq<Vec3>, indices: Seq<u32>, k: int) -> BoundingBox {
    box_of(
        vmin(corner(vertices, indices, k, 0), vmin(corner(vertices, indices, k, 1), corner(vertices, indices, k, 2))),
        vmax(corner(vertices, indices, k, 0), vmax(corner(vertices, indices, k, 1), corner(vertices, indices, k, 2))),
    )
}

/// The union of the boxes of the first `m` triangles (`m >= 1`).
pub open spec fn hull(vertices: Seq<Vec3>, indices: Seq<u32>, m: int) -> BoundingBox
    decreases m,
{
    if m <= 1 {
        triangle_box(vertices, indices, 0)
    } else {
        union(hull(vertices, indices, m - 1), triangle_box(vertices, indices, m - 1))
    }
}

/// A triangle list the tree can be built over: whole triangles, at least one,
/// every index naming a vertex, and few enough that node indices fit in `u32`
/// below `SENTINEL`.
pub open spec fn valid_mesh(vertices: Seq<Vec3>, indices: Seq<u32>) -> bool {
    &&& 3 <= indices.len()
    &&& indices.len() % 3 == 0
    &&& indices.len() / 3 <= 0x7FFF_FFFF
    &&& forall|k: int| 0 <= k < indices.len() ==> (#[trigger] indices[k] as int) < vertices.len()
}

pub proof fn lemma_within_trans(a: BoundingBox, b: BoundingBox, c: BoundingBox)
    requires
        a.within(b),
        b.within(c),
    ensures
        a.within(c),
{
}

pub proof fn lemma_union_within(a: BoundingBox, b: BoundingBox, c: BoundingBox)
    requires
        a.within(c),
        b.within(c),
    ensures
        union(a, b).within(c),
{
}

proof fn lemma_affine_between(s: int, o: int, lo: int, c: int, hi: int)
    requires
        lo <= c <= hi,
        fits_i32(s * lo + o),
        fits_i32(s * hi + o),
    ensures
        fits_i32(s * c + o),
{
    if s >= 0 {
        assert(s * lo <= s * c <= s * hi) by (nonlinear_arith)
            requires
                s >= 0,
                lo <= c <= hi,
        ;
    } else {
        assert(s * hi <= s * c <= s * lo) by (nonlinear_arith)
            requires
                s < 0,
                lo <= c <= hi,
        ;
    }
}

/// A transform that keeps the corners of `outer` on the grid keeps those of
/// every box inside it there too.
pub proof fn lemma_transform_within(t: Transform, b: BoundingBox, outer: BoundingBox)
    requires
        b.wf(),
        b.within(outer),
        maps_into_grid(t, outer.min),
        maps_into_grid(t, outer.max),
    ensures
        maps_into_grid(t, b.min),
        maps_into_grid(t, b.max),
{
    assert forall|a: int| 0 <= a < 3 implies #[trigger] fits_i32(apply_at(t, b.min, a)) && fits_i32(
        apply_at(t, b.max, a),
    ) by {
        assert(fits_i32(apply_at(t, outer.min, a)));
        assert(fits_i32(apply_at(t, outer.max, a)));
        lemma_affine_between(t.scale.at(a), t.offset.at(a), outer.min.at(a), b.min.at(a), outer.max.at(a));
        lemma_affine_between(t.scale.at(a), t.offset.at(a), outer.min.at(a), b.max.at(a), outer.max.at(a));
    }
    assert(fits_i32(apply_at(t, b.min, 0)) && fits_i32(apply_at(t, b.min, 1)) && fits_i32(apply_at(t, b.min, 2)));
    assert(fits_i32(apply_at(t, b.max, 0)) && fits_i32(apply_at(t, b.max, 1)) && fits_i32(apply_at(t, b.max, 2)));
}

fn triangle_bb(vertices: &Vec<Vec3>, indices: &Vec<u32>, k: usize) -> (r: BoundingBox)
    requires
        valid_mesh(vertices@, indices@),
        k < indices@.len() / 3,
    ensures
        r == triangle_box(vertices@, indices@, k as int),
        r.wf(),
{
    let len = indices.len();
    assert(3 * k + 2 < indices@.len()) by (nonlinear_arith)
        requires
            k < indices@.len() / 3,
    ;
    let v0 = &vertices[indices[3 * k] as usize];
    let v1 = &vertices[indices[3 * k + 1] as usize];
    let v2 = &vertices[indices[3 * k + 2] as usize];
    let lo = min(v0, &min(v1, v2));
    let hi = max(v0, &max(v1, v2));
    BoundingBox::new(lo, hi)
}

/// Bottom-level structure: a linear BVH over the triangles of one mesh.
/// Nodes `[0, n - 1)` are branches and `[n - 1, 2n - 1)` are leaves, in
/// ascending Morton order; `bbs[i]` is the box of node `i`.
#[derive(Debug)]
pub struct BottomLevelAccelerationStructure {
    pub total_bb: BoundingBox,
    pub bbs: Vec<BoundingBox>,
    pub nodes: Vec<BVHFlatNode>,
}

impl BottomLevelAccelerationStructure {
    /// Number of primitives (leaves).
    pub open spec fn leaf_count(self) -> int {
        (self.nodes@.len() as int + 1) / 2
    }

    /// Number of branch nodes, which come first.
    pub open spec fn branch_count(self) -> int {
        self.leaf_count() - 1
    }

    /// The primitive of each leaf, in leaf order.
    pub open spec fn leaf_ids(self) -> Seq<u32> {
        Seq::new(self.leaf_count() as nat, |j: int| self.nodes@[self.branch_count() + j].primitive_idx)
    }

    /// Shape of the arrays: one box per node; leaves hold primitive indices;
    /// every box lies inside the total box; the root has no parent; every
    /// branch has two distinct children that name it as parent and its box is
    /// the union of theirs; and from the root down the branches form a full
    /// binary tree over the leaves.
    pub open spec fn wf(self) -> bool {
        &&& self.nodes@.len() == self.bbs@.len()
        &&& self.nodes@.len() % 2 == 1
        &&& self.nodes@.len() < SENTINEL
        &&& self.total_bb.wf()
        &&& forall|i: int| 0 <= i < self.branch_count() ==> #[trigger] branch_ok(self.nodes@, self.bbs@, i)
        &&& self.branch_count() >= 1 ==> subtree(
            self.nodes@,
            self.bbs@,
            self.branch_count(),
            0,
            0,
            self.branch_count(),
        )
        &&& self.nodes@[0].parent_idx == SENTINEL
        &&& forall|j: int|
            self.branch_count() <= j < self.nodes@.len() ==> ((#[trigger] self.nodes@[j]).primitive_idx as int)
                < self.leaf_count()
        &&& forall|i: int|
            0 <= i < self.bbs@.len() ==> (#[trigger] self.bbs@[i]).wf() && self.bbs@[i].within(
                self.total_bb,
            )
    }

    /// Primitive `id` sits in a leaf whose box, moved by `t`, the ray hits.
    pub open spec fn is_candidate(self, t: Transform, ray: Ray, t_min: int, t_max: int, id: u32) -> bool {
        exists|j: int|
            self.branch_count() <= j < self.nodes@.len() && (#[trigger] self.nodes@[j]).primitive_idx
                == id && hits(transformed_box(self.bbs@[j], t), ray, t_min, t_max)
    }

    /// The leaf at position `k` has a moved box that the ray hits.
    pub open spec fn leaf_hit(self, t: Transform, ray: Ray, t_min: int, t_max: int, k: int) -> bool {
        hits(transformed_box(self.bbs@[self.branch_count() + k], t), ray, t_min, t_max)
    }

    pub open spec fn leaf_prim(self, k: int) -> u32 {
        self.nodes@[self.branch_count() + k].primitive_idx
    }

    /// A linear scan: the primitives of the leaves at positions `[f, l]`
    /// whose moved boxes the ray hits, in leaf order.
    pub open spec fn hits_in(self, t: Transform, ray: Ray, t_min: int, t_max: int, f: int, l: int) -> Seq<u32>
        decreases l - f + 1,
    {
        if l < f {
            Seq::empty()
        } else {
            self.hits_in(t, ray, t_min, t_max, f, l - 1) + if self.leaf_hit(t, ray, t_min, t_max, l) {
                seq![self.leaf_prim(l)]
            } else {
                Seq::empty()
            }
        }
    }

    proof fn lemma_hits_in_split(self, t: Transform, ray: Ray, t_min: int, t_max: int, f: int, s: int, l: int)
        requires
            f <= s < l,
        ensures
            self.hits_in(t, ray, t_min, t_max, f, l) == self.hits_in(t, ray, t_min, t_max, f, s)
                + self.hits_in(t, ray, t_min, t_max, s + 1, l),
        decreases l - s,
    {
        if l == s + 1 {
            assert(self.hits_in(t, ray, t_min, t_max, s + 1, s) == Seq::<u32>::empty());
            assert(self.hits_in(t, ray, t_min, t_max, s + 1, l) =~= Seq::<u32>::empty() + (
            if self.leaf_hit(t, ray, t_min, t_max, l) {
                seq![self.leaf_prim(l)]
            } else {
                Seq::empty()
            }));
        } else {
            self.lemma_hits_in_split(t, ray, t_min, t_max, f, s, l - 1);
        }
        assert(self.hits_in(t, ray, t_min, t_max, f, l) =~= self.hits_in(t, ray, t_min, t_max, f, s)
            + self.hits_in(t, ray, t_min, t_max, s + 1, l));
    }

    proof fn lemma_hits_in_none(self, t: Transform, ray: Ray, t_min: int, t_max: int, f: int, l: int)
        requires
            forall|k: int| f <= k <= l ==> !#[trigger] self.leaf_hit(t, ray, t_min, t_max, k),
        ensures
            self.hits_in(t, ray, t_min, t_max, f, l) == Seq::<u32>::empty(),
        decreases l - f + 1,
    {
        if l >= f {
            self.lemma_hits_in_none(t, ray, t_min, t_max, f, l - 1);
            assert(self.hits_in(t, ray, t_min, t_max, f, l) =~= Seq::<u32>::empty());
        }
    }

    proof fn lemma_hits_in_contains(self, t: Transform, ray: Ray, t_min: int, t_max: int, f: int, l: int, p: u32)
        ensures
            self.hits_in(t, ray, t_min, t_max, f, l).contains(p) <==> exists|k: int|
                f <= k <= l && self.leaf_prim(k) == p && #[trigger] self.leaf_hit(t, ray, t_min, t_max, k),
        decreases l - f + 1,
    {
        if l >= f {
            self.lemma_hits_in_contains(t, ray, t_min, t_max, f, l - 1, p);
            let prev = self.hits_in(t, ray, t_min, t_max, f, l - 1);
            let cur = self.hits_in(t, ray, t_min, t_max, f, l);
            if cur.contains(p) {
                let i = choose|i: int| 0 <= i < cur.len() && cur[i] == p;
                if i < prev.len() {
                    assert(prev[i] == p);
                } else {
                    assert(self.leaf_hit(t, ray, t_min, t_max, l) && self.leaf_prim(l) == p);
                }
            }
            if exists|k: int| f <= k <= l && self.leaf_prim(k) == p && #[trigger] self.leaf_hit(t, ray, t_min, t_max, k) {
                let k = choose|k: int| f <= k <= l && self.leaf_prim(k) == p && #[trigger] self.leaf_hit(t, ray, t_min, t_max, k);
                if k < l {
                    let i = choose|i: int| 0 <= i < prev.len() && prev[i] == p;
                    assert(cur[i] == p);
                } else {
                    assert(cur[prev.len() as int] == p);
                }
            }
        } else {
            assert(self.hits_in(t, ray, t_min, t_max, f, l) =~= Seq::<u32>::empty());
        }
    }

    proof fn lemma_hits_in_unique(self, t: Transform, ray: Ray, t_min: int, t_max: int, f: int, l: int)
        requires
            forall|a: int, b: int| f <= a < b <= l ==> self.leaf_prim(a) != self.leaf_prim(b),
        ensures
            self.hits_in(t, ray, t_min, t_max, f, l).no_duplicates(),
        decreases l - f + 1,
    {
        if l >= f {
            self.lemma_hits_in_unique(t, ray, t_min, t_max, f, l - 1);
            self.lemma_hits_in_contains(t, ray, t_min, t_max, f, l - 1, self.leaf_prim(l));
            let prev = self.hits_in(t, ray, t_min, t_max, f, l - 1);
            let cur = self.hits_in(t, ray, t_min, t_max, f, l);
            if self.leaf_hit(t, ray, t_min, t_max, l) {
                assert(!prev.contains(self.leaf_prim(l)));
                assert forall|a: int, b: int| 0 <= a < b < cur.len() implies cur[a] != cur[b] by {
                    if b == prev.len() {
                        assert(cur[a] == prev[a]);
                    } else {
                        assert(cur[a] == prev[a] && cur[b] == prev[b]);
                    }
                }
            } else {
                assert(cur =~= prev);
            }
        } else {
            assert(self.hits_in(t, ray, t_min, t_max, f, l) =~= Seq::<u32>::empty());
        }
    }

    /// Collects the primitives of the leaves at positions `[f, l]`, the span
    /// of node `child`, whose moved boxes the ray hits: a leaf is tested, a
    /// branch is pruned when its moved box is missed and descended otherwise.
    fn visit(
        &self,
        object_to_world: &Transform,
        ray: &Ray,
        t_min: i64,
        t_max: i64,
        child: usize,
        results: Vec<u32>,
        Ghost(f): Ghost<int>,
        Ghost(l): Ghost<int>,
    ) -> (r: Vec<u32>)
        requires
            self.wf(),
            ray.wf(),
            maps_into_grid(*object_to_world, self.total_bb.min),
            maps_into_grid(*object_to_world, self.total_bb.max),
            0 <= f <= l <= self.branch_count(),
            f == l ==> child == f + self.branch_count(),
            f < l ==> child < self.branch_count() && subtree(self.nodes@, self.bbs@, self.branch_count(), child as int, f, l),
        ensures
            r@ == results@ + self.hits_in(*object_to_world, *ray, t_min as int, t_max as int, f, l),
        decreases l - f, 1int,
    {
        let ghost start = results@;
        let mut results = results;
        let bb = &self.bbs[child];
        proof {
            lemma_transform_within(*object_to_world, *bb, self.total_bb);
        }
        let tb = bb.transformed(object_to_world);
        if tb.hit(ray, t_min, t_max) {
            if self.nodes[child].is_leaf() {
                proof {
                    if f < l {
                        assert(branch_ok(self.nodes@, self.bbs@, child as int));
                    }
                    assert(self.hits_in(*object_to_world, *ray, t_min as int, t_max as int, f, f - 1) == Seq::<u32>::empty());
                }
                results.push(self.nodes[child].primitive_idx);
                proof {
                    assert(results@ =~= start + self.hits_in(*object_to_world, *ray, t_min as int, t_max as int, f, l)) by {
                        assert(self.hits_in(*object_to_world, *ray, t_min as int, t_max as int, f, l) =~= seq![self.leaf_prim(f)]);
                    }
                }
                results
            } else {
                proof {
                    if f == l {
                        assert((self.nodes@[child as int].primitive_idx as int) < self.leaf_count());
                    }
                }
                self.hit_internal(object_to_world, ray, t_min, t_max, child, results, Ghost(f), Ghost(l))
            }
        } else {
            proof {
                assert forall|k: int| f <= k <= l implies !#[trigger] self.leaf_hit(
                    *object_to_world,
                    *ray,
                    t_min as int,
                    t_max as int,
                    k,
                ) by {
                    let leaf = self.bbs@[self.branch_count() + k];
                    if f < l {
                        lemma_subtree_within(self.nodes@, self.bbs@, self.branch_count(), child as int, f, l);
                    }
                    assert(leaf.within(*bb));
                    lemma_transform_within(*object_to_world, leaf, self.total_bb);
                    lemma_transformed_within(*object_to_world, leaf, *bb);
                    if self.leaf_hit(*object_to_world, *ray, t_min as int, t_max as int, k) {
                        lemma_hits_within(transformed_box(leaf, *object_to_world), tb, *ray, t_min as int, t_max as int);
                    }
                }
                self.lemma_hits_in_none(*object_to_world, *ray, t_min as int, t_max as int, f, l);
                assert(results@ =~= results@ + Seq::<u32>::empty());
            }
            results
        }
    }

    /// Collects, below branch `node` over leaf positions `[f, l]`, the
    /// primitives of the leaves whose moved boxes the ray hits, appending them
    /// to `results` in leaf order.
    fn hit_internal(
        &self,
        object_to_world: &Transform,
        ray: &Ray,
        t_min: i64,
        t_max: i64,
        node: usize,
        results: Vec<u32>,
        Ghost(f): Ghost<int>,
        Ghost(l): Ghost<int>,
    ) -> (r: Vec<u32>)
        requires
            self.wf(),
            ray.wf(),
            maps_into_grid(*object_to_world, self.total_bb.min),
            maps_into_grid(*object_to_world, self.total_bb.max),
            0 <= f < l <= self.branch_count(),
            node < self.branch_count(),
            subtree(self.nodes@, self.bbs@, self.branch_count(), node as int, f, l),
        ensures
            r@ == results@ + self.hits_in(*object_to_world, *ray, t_min as int, t_max as int, f, l),
        decreases l - f, 0int,
    {
        let nd = self.nodes[node];
        let ghost s = split_of(nd, self.branch_count());
        let mid = self.visit(object_to_world, ray, t_min, t_max, nd.left_child_idx as usize, results, Ghost(f), Ghost(s));
        let r = self.visit(object_to_world, ray, t_min, t_max, nd.right_child_idx as usize, mid, Ghost(s + 1), Ghost(l));
        proof {
            self.lemma_hits_in_split(*object_to_world, *ray, t_min as int, t_max as int, f, s, l);
            assert(r@ =~= results@ + self.hits_in(*object_to_world, *ray, t_min as int, t_max as int, f, l));
        }
        r
    }

    /// Candidate primitives for a ray: exactly the primitives whose leaf
    /// boxes, moved into world space by `object_to_world`, the ray hits within
    /// `[t_min, t_max]`, each once, in leaf order; found by descending from
    /// the root through the boxes the ray hits. A tree of one primitive is a
    /// single leaf.
    pub fn hit_test(&self, object_to_world: &Transform, ray: &Ray, t_min: i64, t_max: i64) -> (r: Vec<
        u32,
    >)
        requires
            self.wf(),
            ray.wf(),
            maps_into_grid(*object_to_world, self.total_bb.min),
            maps_into_grid(*object_to_world, self.total_bb.max),
        ensures
            r@ == self.hits_in(*object_to_world, *ray, t_min as int, t_max as int, 0, self.branch_count()),
            forall|p: u32|
                self.is_candidate(*object_to_world, *ray, t_min as int, t_max as int, p) <==> #[trigger] r@.contains(p),
            self.leaf_ids().no_duplicates() ==> r@.no_duplicates(),
    {
        let results: Vec<u32> = Vec::new();
        let ghost bc = self.branch_count();
        let r = self.visit(object_to_world, ray, t_min, t_max, 0, results, Ghost(0), Ghost(bc));
        proof {
            assert(r@ =~= self.hits_in(*object_to_world, *ray, t_min as int, t_max as int, 0, bc));
            assert forall|p: u32|
                self.is_candidate(*object_to_world, *ray, t_min as int, t_max as int, p) <==> #[trigger] r@.contains(p) by {
                self.lemma_hits_in_contains(*object_to_world, *ray, t_min as int, t_max as int, 0, bc, p);
                if self.is_candidate(*object_to_world, *ray, t_min as int, t_max as int, p) {
                    let j = choose|j: int|
                        self.branch_count() <= j < self.nodes@.len() && (#[trigger] self.nodes@[j]).primitive_idx == p
                            && hits(transformed_box(self.bbs@[j], *object_to_world), *ray, t_min as int, t_max as int);
                    assert(self.leaf_hit(*object_to_world, *ray, t_min as int, t_max as int, j - bc));
                }
                if r@.contains(p) {
                    let k = choose|k: int| 0 <= k <= bc && self.leaf_prim(k) == p && #[trigger] self.leaf_hit(*object_to_world, *ray, t_min as int, t_max as int, k);
                    assert(self.nodes@[bc + k].primitive_idx == p);
                }
            }
            if self.leaf_ids().no_duplicates() {
                assert forall|a: int, b: int| 0 <= a < b <= bc implies self.leaf_prim(a) != self.leaf_prim(b) by {
                    assert(self.leaf_ids()[a] == self.leaf_prim(a));
                    assert(self.leaf_ids()[b] == self.leaf_prim(b));
                }
                self.lemma_hits_in_unique(*object_to_world, *ray, t_min as int, t_max as int, 0, bc);
            }
        }
        r
    }

    /// What a build over `vertices` and `indices` yields: well-formed arrays
    /// with one leaf per triangle, every triangle in exactly one leaf with its
    /// own box, the total box the union of all triangle boxes and the box of
    /// the root, and every node but the root a child of the branch it names as
    /// parent; leaves come in ascending Morton order of their box centres,
    /// equal codes by ascending primitive index.
    pub open spec fn built_from(self, vertices: Seq<Vec3>, indices: Seq<u32>) -> bool {
        &&& self.wf()
        &&& self.leaf_count() == indices.len() / 3
        &&& self.total_bb == hull(vertices, indices, self.leaf_count())
        &&& self.leaf_ids().no_duplicates()
        &&& forall|k: u32| (k as int) < self.leaf_count() ==> #[trigger] self.leaf_ids().contains(k)
        &&& forall|j: int| 0 < j < self.nodes@.len() ==> #[trigger] child_of(self.nodes@, self.branch_count(), j)
        &&& self.bbs@[0] == self.total_bb
        &&& forall|j: int|
            0 <= j < self.leaf_count() - 1 ==> box_code(self.total_bb, #[trigger] self.bbs@[self.branch_count() + j])
                <= box_code(self.total_bb, self.bbs@[self.branch_count() + j + 1]) && (box_code(
                self.total_bb,
                self.bbs@[self.branch_count() + j],
            ) == box_code(self.total_bb, self.bbs@[self.branch_count() + j + 1]) ==> self.leaf_prim(j)
                < self.leaf_prim(j + 1))

        &&& forall|j: int|
            self.branch_count() <= j < self.nodes@.len() ==> #[trigger] self.bbs@[j] == triangle_box(
                vertices,
                indices,
                self.nodes@[j].primitive_idx as int,
            )
    }

    pub fn bounding_box(&self) -> (r: BoundingBox)
        ensures
            r == self.total_bb,
    {
        self.total_bb
    }

    /// Builds the tree over the triangles `indices[3k], indices[3k+1],
    /// indices[3k+2]`: leaf boxes, Morton codes of their centres within the
    /// total box, a sort by code (ties by triangle index), and the radix
    /// tree: each span of sorted leaves splits where `find_split` says, its
    /// branch is numbered as in a Karras tree (by the span end it shares with
    /// its parent's split), and the branch box is the union of its children's,
    /// computed once both are complete.
    #[verifier::rlimit(100)]
    #[verifier::spinoff_prover]
    pub fn new(vertices: &Vec<Vec3>, indices: Option<&Vec<u32>>) -> (r: Self)
        requires
            indices.is_some(),
            valid_mesh(vertices@, indices.unwrap()@),
        ensures
            r.built_from(vertices@, indices.unwrap()@),
    {
        let ix: &Vec<u32> = indices.unwrap();
        let leaf_count: usize = ix.len() / 3;
        let branch_count: usize = leaf_count - 1;

        let (prim, total_bb) = leaf_boxes(vertices, ix);
        let codes = sorted_codes(&prim, total_bb);

        let (mut nodes, mut bbs) = initial_arrays(&prim, total_bb, &codes);
        link_tree(&codes, &mut nodes, &mut bbs, total_bb);
        let r = BottomLevelAccelerationStructure { total_bb, bbs, nodes };
        proof {
            lemma_build_leaves(r, vertices@, ix@, prim@, codes@);
        }
        r
    }
}

} // verus!
