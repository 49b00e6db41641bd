use vstd::prelude::*;
use crate::bounding_box::{hits, lemma_hits_within, transformed_box, union, BoundingBox};
use crate::keys::{
    key_lo, key_order, lemma_sorted_is_sort_by, lemma_sorted_permutation, pack, packed, sort_keys,
    unpack_lo,
};
use crate::random::int_range;
use crate::ray::Ray;
use crate::scene::{registry_boxes, GeometryRegistry, Instance};
use crate::vec3::maps_into_grid;

verus! {

/// How a branch picks the axis its items are sorted along before they are
/// halved.
#[derive(Clone, Copy, Debug, PartialEq, Eq, Structural)]
pub enum SplitAxis {
    X,
    Y,
    Z,
    /// x, y and z in turn, by depth in the tree.
    ByDepth,
    /// An axis drawn at random for every branch.
    Random,
}

/// The axis a fixed policy picks at `depth`.
pub open spec fn axis_at(policy: SplitAxis, depth: nat) -> int {
    match policy {
        SplitAxis::X => 0,
        SplitAxis::Y => 1,
        SplitAxis::Z => 2,
        SplitAxis::ByDepth => (depth % 3) as int,
        SplitAxis::Random => 0,
    }
}

/// The axis for a branch at `depth`; the random policy draws one.
fn axis_for(policy: SplitAxis, depth: usize) -> (r: usize)
    ensures
        policy != SplitAxis::Random ==> r == axis_at(policy, depth as nat),
        r < 3,
{
    match policy {
        SplitAxis::X => 0,
        SplitAxis::Y => 1,
        SplitAxis::Z => 2,
        SplitAxis::ByDepth => depth % 3,
        SplitAxis::Random => int_range(0, 3) as usize,
    }
}

/// Order-preserving map of an `i32` coordinate into `u32`.
pub open spec fn order_key_of(v: int) -> u32 {
    (v - i32::MIN) as u32
}

fn order_key(v: i32) -> (r: u32)
    ensures
        r == v as int - i32::MIN,
        r == order_key_of(v as int),
{
    (v as i64 - i32::MIN as i64) as u32
}

/// A node of the instance tree.
#[derive(Debug, PartialEq, Eq)]
pub enum TlasNode {
    Branch { left: Box<TlasNode>, right: Box<TlasNode>, bounding_box: BoundingBox },
    Leaf { id: u32, bounding_box: BoundingBox },
}

impl TlasNode {
    pub open spec fn bbox(self) -> BoundingBox {
        match self {
            TlasNode::Branch { bounding_box, .. } => bounding_box,
            TlasNode::Leaf { bounding_box, .. } => bounding_box,
        }
    }

    /// Every box is well formed and every branch box is the union of its
    /// children's.
    pub open spec fn wf(self) -> bool
        decreases self,
    {
        match self {
            TlasNode::Branch { left, right, bounding_box } => {
                &&& (*left).wf()
                &&& (*right).wf()
                &&& bounding_box == union((*left).bbox(), (*right).bbox())
            },
            TlasNode::Leaf { bounding_box, .. } => bounding_box.wf(),
        }
    }

    /// Some leaf below this node holds instance `id` with box `b`.
    pub open spec fn holds(self, id: u32, b: BoundingBox) -> bool
        decreases self,
    {
        match self {
            TlasNode::Branch { left, right, .. } => (*left).holds(id, b) || (*right).holds(id, b),
            TlasNode::Leaf { id: leaf_id, bounding_box } => leaf_id == id && bounding_box == b,
        }
    }

    /// The leaves below this node, left to right.
    pub open spec fn leaves(self) -> Seq<(u32, BoundingBox)>
        decreases self,
    {
        match self {
            TlasNode::Branch { left, right, .. } => (*left).leaves() + (*right).leaves(),
            TlasNode::Leaf { id, bounding_box } => seq![(id, bounding_box)],
        }
    }

    /// A linear scan: the ids of the leaves below this node whose boxes the
    /// ray hits within `[t_min, t_max]`, left to right.
    pub open spec fn hit_ids(self, ray: Ray, t_min: int, t_max: int) -> Seq<u32>
        decreases self,
    {
        match self {
            TlasNode::Branch { left, right, .. } => (*left).hit_ids(ray, t_min, t_max) + (*right).hit_ids(
                ray,
                t_min,
                t_max,
            ),
            TlasNode::Leaf { id, bounding_box } => if hits(bounding_box, ray, t_min, t_max) {
                seq![id]
            } else {
                Seq::empty()
            },
        }
    }

    /// No two leaves below this node carry the same id.
    pub open spec fn ids_unique(self) -> bool {
        forall|a: int, b: int|
            0 <= a < b < self.leaves().len() ==> #[trigger] self.leaves()[a].0 != #[trigger] self.leaves()[b].0
    }

    pub fn bounding_box(&self) -> (r: BoundingBox)
        ensures
            r == self.bbox(),
    {
        match self {
            TlasNode::Branch { bounding_box, .. } => *bounding_box,
            TlasNode::Leaf { bounding_box, .. } => *bounding_box,
        }
    }

    /// Appends to `result` the ids of the leaves below this node whose boxes
    /// the ray hits, left to right, skipping every subtree whose box it
    /// misses.
    pub fn hit_test(&self, ray: &Ray, t_min: i64, t_max: i64, result: Vec<u32>) -> (r: Vec<u32>)
        requires
            self.wf(),
            ray.wf(),
        ensures
            r@ == result@ + self.hit_ids(*ray, t_min as int, t_max as int),
        decreases self,
    {
        let mut result = result;
        let ghost start = result@;
        match self {
            TlasNode::Leaf { id, bounding_box } => {
                if bounding_box.hit(ray, t_min, t_max) {
                    result.push(*id);
                    assert(result@ =~= start + seq![*id]);
                } else {
                    assert(result@ =~= start + Seq::<u32>::empty());
                }
                result
            },
            TlasNode::Branch { left, right, bounding_box } => {
                if !bounding_box.hit(ray, t_min, t_max) {
                    proof {
                        lemma_hit_ids_missed(*self, *ray, t_min as int, t_max as int);
                    }
                    assert(result@ =~= start + Seq::<u32>::empty());
                    return result;
                }
                let mid = left.hit_test(ray, t_min, t_max, result);
                let r = right.hit_test(ray, t_min, t_max, mid);
                assert(r@ =~= start + self.hit_ids(*ray, t_min as int, t_max as int));
                r
            },
        }
    }
}

/// A node whose box the ray misses has no leaf that it hits.
pub proof fn lemma_hit_ids_missed(n: TlasNode, ray: Ray, t_min: int, t_max: int)
    requires
        n.wf(),
        !hits(n.bbox(), ray, t_min, t_max),
    ensures
        n.hit_ids(ray, t_min, t_max) == Seq::<u32>::empty(),
    decreases n,
{
    match n {
        TlasNode::Branch { left, right, bounding_box } => {
            if hits((*left).bbox(), ray, t_min, t_max) {
                lemma_hits_within((*left).bbox(), bounding_box, ray, t_min, t_max);
            }
            if hits((*right).bbox(), ray, t_min, t_max) {
                lemma_hits_within((*right).bbox(), bounding_box, ray, t_min, t_max);
            }
            lemma_hit_ids_missed(*left, ray, t_min, t_max);
            lemma_hit_ids_missed(*right, ray, t_min, t_max);
            assert(n.hit_ids(ray, t_min, t_max) =~= Seq::<u32>::empty());
        },
        TlasNode::Leaf { .. } => {},
    }
}

/// The ids the scan reports are those of held leaves whose boxes the ray hits.
pub proof fn lemma_hit_ids_contains(n: TlasNode, ray: Ray, t_min: int, t_max: int, id: u32)
    ensures
        n.hit_ids(ray, t_min, t_max).contains(id) <==> exists|b: BoundingBox|
            n.holds(id, b) && #[trigger] hits(b, ray, t_min, t_max),
    decreases n,
{
    match n {
        TlasNode::Branch { left, right, .. } => {
            lemma_hit_ids_contains(*left, ray, t_min, t_max, id);
            lemma_hit_ids_contains(*right, ray, t_min, t_max, id);
            let a = (*left).hit_ids(ray, t_min, t_max);
            let c = (*right).hit_ids(ray, t_min, t_max);
            let s = a + c;
            if s.contains(id) {
                let i = choose|i: int| 0 <= i < s.len() && s[i] == id;
                if i < a.len() {
                    assert(a[i] == id);
                } else {
                    assert(c[i - a.len()] == id);
                }
            }
            if a.contains(id) {
                let i = choose|i: int| 0 <= i < a.len() && a[i] == id;
                assert(s[i] == id);
            }
            if c.contains(id) {
                let i = choose|i: int| 0 <= i < c.len() && c[i] == id;
                assert(s[a.len() + i] == id);
            }
        },
        TlasNode::Leaf { id: leaf_id, bounding_box } => {
            if exists|b: BoundingBox| n.holds(id, b) && #[trigger] hits(b, ray, t_min, t_max) {
                assert(n.hit_ids(ray, t_min, t_max)[0] == id);
            }
        },
    }
}

/// Every leaf is held.
pub proof fn lemma_leaves_held(n: TlasNode)
    ensures
        forall|k: int| 0 <= k < n.leaves().len() ==> n.holds(#[trigger] n.leaves()[k].0, n.leaves()[k].1),
    decreases n,
{
    match n {
        TlasNode::Branch { left, right, .. } => {
            lemma_leaves_held(*left);
            lemma_leaves_held(*right);
            let a = (*left).leaves();
            assert forall|k: int| 0 <= k < n.leaves().len() implies n.holds(#[trigger] n.leaves()[k].0, n.leaves()[k].1) by {
                if k < a.len() {
                    assert(n.leaves()[k] == a[k]);
                } else {
                    assert(n.leaves()[k] == (*right).leaves()[k - a.len()]);
                }
            }
        },
        TlasNode::Leaf { .. } => {},
    }
}

/// A reported id is the id of some leaf.
proof fn lemma_hit_ids_from_leaves(n: TlasNode, ray: Ray, t_min: int, t_max: int, id: u32)
    requires
        n.hit_ids(ray, t_min, t_max).contains(id),
    ensures
        exists|k: int| #![trigger n.leaves()[k]] 0 <= k < n.leaves().len() && n.leaves()[k].0 == id,
    decreases n,
{
    match n {
        TlasNode::Branch { left, right, .. } => {
            let a = (*left).hit_ids(ray, t_min, t_max);
            let c = (*right).hit_ids(ray, t_min, t_max);
            assert(n.hit_ids(ray, t_min, t_max) == a + c);
            assert((a + c).contains(id));
            let i = choose|i: int| 0 <= i < (a + c).len() && (a + c)[i] == id;
            assert(n.leaves() == (*left).leaves() + (*right).leaves());
            if i < a.len() {
                assert(a[i] == id);
                lemma_hit_ids_from_leaves(*left, ray, t_min, t_max, id);
                let k = choose|k: int| #![trigger (*left).leaves()[k]] 0 <= k < (*left).leaves().len() && (*left).leaves()[k].0 == id;
                assert(n.leaves()[k] == (*left).leaves()[k]);
                assert(n.leaves()[k].0 == id);
                assert(0 <= k < n.leaves().len());
            } else {
                assert(c[i - a.len()] == id);
                lemma_hit_ids_from_leaves(*right, ray, t_min, t_max, id);
                let k = choose|k: int| #![trigger (*right).leaves()[k]] 0 <= k < (*right).leaves().len() && (*right).leaves()[k].0 == id;
                assert(n.leaves()[(*left).leaves().len() + k] == (*right).leaves()[k]);
                assert(n.leaves()[(*left).leaves().len() + k].0 == id);
                assert(0 <= (*left).leaves().len() + k < n.leaves().len());
            }
        },
        TlasNode::Leaf { id: leaf_id, bounding_box } => {
            let h = n.hit_ids(ray, t_min, t_max);
            let i = choose|i: int| 0 <= i < h.len() && h[i] == id;
            assert(h =~= seq![leaf_id]);
            assert(n.leaves()[0] == (leaf_id, bounding_box));
            assert(n.leaves()[0].0 == id);
        },
    }
}

/// With distinct leaf ids the scan reports each id once.
pub proof fn lemma_hit_ids_unique(n: TlasNode, ray: Ray, t_min: int, t_max: int)
    requires
        n.ids_unique(),
    ensures
        n.hit_ids(ray, t_min, t_max).no_duplicates(),
    decreases n,
{
    match n {
        TlasNode::Branch { left, right, .. } => {
            let la = (*left).leaves();
            let lb = (*right).leaves();
            assert forall|a: int, b: int| 0 <= a < b < la.len() implies #[trigger] la[a].0 != #[trigger] la[b].0 by {
                assert(n.leaves()[a] == la[a] && n.leaves()[b] == la[b]);
            }
            assert forall|a: int, b: int| 0 <= a < b < lb.len() implies #[trigger] lb[a].0 != #[trigger] lb[b].0 by {
                assert(n.leaves()[la.len() + a] == lb[a] && n.leaves()[la.len() + b] == lb[b]);
            }
            lemma_hit_ids_unique(*left, ray, t_min, t_max);
            lemma_hit_ids_unique(*right, ray, t_min, t_max);
            let a = (*left).hit_ids(ray, t_min, t_max);
            let c = (*right).hit_ids(ray, t_min, t_max);
            let s = a + c;
            assert forall|i: int, j: int| 0 <= i < j < s.len() implies s[i] != s[j] by {
                if i < a.len() && j >= a.len() {
                    if s[i] == s[j] {
                        let id = s[i];
                        assert(a[i] == id && a.contains(id));
                        assert(c[j - a.len()] == id && c.contains(id));
                        lemma_hit_ids_from_leaves(*left, ray, t_min, t_max, id);
                        lemma_hit_ids_from_leaves(*right, ray, t_min, t_max, id);
                        let p = choose|p: int| #![trigger la[p]] 0 <= p < la.len() && la[p].0 == id;
                        let q = choose|q: int| #![trigger lb[q]] 0 <= q < lb.len() && lb[q].0 == id;
                        assert(n.leaves()[p] == la[p] && n.leaves()[la.len() + q] == lb[q]);
                    }
                } else if i < a.len() {
                    assert(s[i] == a[i] && s[j] == a[j]);
                } else {
                    assert(s[i] == c[i - a.len()] && s[j] == c[j - a.len()]);
                }
            }
        },
        TlasNode::Leaf { .. } => {},
    }
}

/// Depth of the children of a node at depth `d`.
pub open spec fn next_depth(d: nat) -> nat {
    if d < usize::MAX {
        d + 1
    } else {
        d
    }
}

/// The tree a fixed policy builds over `items` from `depth` down: one item is a
/// leaf; more are ordered by the key (lower coordinate along the policy's
/// axis, then position), the first half going left and the rest right, and
/// the branch box is the union of the children's.
pub open spec fn tlas_tree(items: Seq<(u32, BoundingBox)>, policy: SplitAxis, depth: nat) -> TlasNode
    decreases items.len(),
{
    if items.len() <= 1 {
        TlasNode::Leaf { id: items[0].0, bounding_box: items[0].1 }
    } else {
        let axis = axis_at(policy, depth);
        let keys = Seq::new(
            items.len(),
            |k: int| packed(order_key_of(items[k].1.min.at(axis)), k as u32),
        );
        let sorted = keys.sort_by(key_order());
        let mid = items.len() / 2;
        let left = Seq::new(mid, |j: int| items[key_lo(sorted[j]) as int]);
        let right = Seq::new((items.len() - mid) as nat, |j: int| items[key_lo(sorted[mid + j]) as int]);
        let l = tlas_tree(left, policy, next_depth(depth));
        let r = tlas_tree(right, policy, next_depth(depth));
        TlasNode::Branch { left: Box::new(l), right: Box::new(r), bounding_box: union(l.bbox(), r.bbox()) }
    }
}

/// No two items carry the same id.
pub open spec fn distinct_ids(items: Seq<(u32, BoundingBox)>) -> bool {
    forall|a: int, b: int| 0 <= a < b < items.len() ==> #[trigger] items[a].0 != #[trigger] items[b].0
}

/// Both halves of a permuted item list keep distinct ids.
proof fn lemma_halves_distinct(
    items: Seq<(u32, BoundingBox)>,
    unsorted: Seq<u64>,
    sorted: Seq<u64>,
    left: Seq<(u32, BoundingBox)>,
    right: Seq<(u32, BoundingBox)>,
    mid: int,
)
    requires
        distinct_ids(items),
        sorted.len() == items.len(),
        0 <= mid <= items.len(),
        sorted.no_duplicates(),
        forall|j: int| 0 <= j < sorted.len() ==> #[trigger] key_lo(sorted[j]) < items.len() && sorted[j]
            == unsorted[key_lo(sorted[j]) as int],
        left.len() == mid,
        right.len() == items.len() - mid,
        forall|m: int| 0 <= m < left.len() ==> #[trigger] left[m] == items[key_lo(sorted[m]) as int],
        forall|m: int| 0 <= m < right.len() ==> #[trigger] right[m] == items[key_lo(sorted[mid + m]) as int],
    ensures
        distinct_ids(left),
        distinct_ids(right),
{
    assert forall|a: int, b: int| 0 <= a < b < left.len() implies #[trigger] left[a].0 != #[trigger] left[b].0 by {
        assert(key_lo(sorted[a]) < items.len() && key_lo(sorted[b]) < items.len());
        if key_lo(sorted[a]) == key_lo(sorted[b]) {
            assert(sorted[a] == sorted[b]);
        }
        if key_lo(sorted[a]) < key_lo(sorted[b]) {
            assert(items[key_lo(sorted[a]) as int].0 != items[key_lo(sorted[b]) as int].0);
        } else if key_lo(sorted[a]) > key_lo(sorted[b]) {
            assert(items[key_lo(sorted[b]) as int].0 != items[key_lo(sorted[a]) as int].0);
        }
    }
    assert forall|a: int, b: int| 0 <= a < b < right.len() implies #[trigger] right[a].0 != #[trigger] right[b].0 by {
        let (x, y) = (mid + a, mid + b);
        assert(key_lo(sorted[x]) < items.len() && key_lo(sorted[y]) < items.len());
        if key_lo(sorted[x]) == key_lo(sorted[y]) {
            assert(sorted[x] == sorted[y]);
        }
        if key_lo(sorted[x]) < key_lo(sorted[y]) {
            assert(items[key_lo(sorted[x]) as int].0 != items[key_lo(sorted[y]) as int].0);
        } else if key_lo(sorted[x]) > key_lo(sorted[y]) {
            assert(items[key_lo(sorted[y]) as int].0 != items[key_lo(sorted[x]) as int].0);
        }
    }
}

/// Joining two subtrees built over the halves of a permuted item list with
/// distinct ids gives a tree with unique leaf ids.
proof fn lemma_join_unique(
    node: TlasNode,
    l: TlasNode,
    rt: TlasNode,
    left: Seq<(u32, BoundingBox)>,
    right: Seq<(u32, BoundingBox)>,
    unsorted: Seq<u64>,
    sorted: Seq<u64>,
    items: Seq<(u32, BoundingBox)>,
    mid: int,
)
    requires
        distinct_ids(items),
        node.leaves() == l.leaves() + rt.leaves(),
        l.ids_unique(),
        rt.ids_unique(),
        forall|id: u32, b: BoundingBox| l.holds(id, b) ==> left.contains((id, b)),
        forall|id: u32, b: BoundingBox| rt.holds(id, b) ==> right.contains((id, b)),
        sorted.len() == items.len(),
        0 <= mid <= items.len(),
        sorted.no_duplicates(),
        forall|j: int| 0 <= j < sorted.len() ==> #[trigger] key_lo(sorted[j]) < items.len() && sorted[j]
            == unsorted[key_lo(sorted[j]) as int],
        left.len() == mid,
        right.len() == items.len() - mid,
        forall|m: int| 0 <= m < left.len() ==> #[trigger] left[m] == items[key_lo(sorted[m]) as int],
        forall|m: int| 0 <= m < right.len() ==> #[trigger] right[m] == items[key_lo(sorted[mid + m]) as int],
    ensures
        node.ids_unique(),
{
    lemma_leaves_held(l);
    lemma_leaves_held(rt);
    let la = l.leaves();
    let lb = rt.leaves();
    assert forall|a: int, b: int| 0 <= a < b < node.leaves().len() implies #[trigger] node.leaves()[a].0
        != #[trigger] node.leaves()[b].0 by {
        if a < la.len() && b >= la.len() {
            let x = la[a];
            let y = lb[b - la.len()];
            assert(node.leaves()[a] == x && node.leaves()[b] == y);
            assert(l.holds(x.0, x.1));
            assert(rt.holds(y.0, y.1));
            assert(left.contains(x));
            assert(right.contains(y));
            let m1 = choose|m: int| 0 <= m < left.len() && left[m] == x;
            let m2 = choose|m: int| 0 <= m < right.len() && right[m] == y;
            let p1 = key_lo(sorted[m1]);
            let p2 = key_lo(sorted[mid + m2]);
            if p1 == p2 {
                assert(sorted[m1] == sorted[mid + m2]);
            }
            if p1 < p2 {
                assert(items[p1 as int].0 != items[p2 as int].0);
            } else if p1 > p2 {
                assert(items[p2 as int].0 != items[p1 as int].0);
            }
        } else if a < la.len() {
            assert(node.leaves()[a] == la[a] && node.leaves()[b] == la[b]);
        } else {
            assert(node.leaves()[a] == lb[a - la.len()] && node.leaves()[b] == lb[b - la.len()]);
        }
    }
}

/// Builds the subtree over `items`: one item is a leaf; more are sorted by the
/// lower coordinate of their boxes along the policy's axis (ties by position)
/// and halved at the midpoint.
#[verifier::rlimit(60)]
fn build(items: Vec<(u32, BoundingBox)>, policy: SplitAxis, depth: usize) -> (r: Box<TlasNode>)
    requires
        1 <= items@.len() <= u32::MAX,
        forall|k: int| 0 <= k < items@.len() ==> (#[trigger] items@[k]).1.wf(),
    ensures
        r.wf(),
        r.bbox().wf(),
        forall|k: int| 0 <= k < items@.len() ==> r.holds(#[trigger] items@[k].0, items@[k].1),
        forall|id: u32, b: BoundingBox| r.holds(id, b) ==> items@.contains((id, b)),
        policy != SplitAxis::Random ==> *r == tlas_tree(items@, policy, depth as nat),
        r.leaves().len() == items@.len(),
        distinct_ids(items@) ==> r.ids_unique(),
    decreases items@.len(),
{
    let n = items.len();
    if n == 1 {
        let r = Box::new(TlasNode::Leaf { id: items[0].0, bounding_box: items[0].1 });
        proof {
            assert forall|id: u32, b: BoundingBox| r.holds(id, b) implies items@.contains((id, b)) by {
                assert(items@[0] == (id, b));
            }
        }
        return r;
    }
    let axis = axis_for(policy, depth);
    let mut keys: Vec<u64> = Vec::new();
    let mut k: usize = 0;
    while k < n
        invariant
            k <= n,
            n == items@.len(),
            n <= u32::MAX,
            keys@.len() == k,
            axis < 3,
            forall|m: int| 0 <= m < k ==> #[trigger] key_lo(keys@[m]) == m,
            forall|m: int|
                0 <= m < k ==> #[trigger] keys@[m] == packed(order_key_of(items@[m].1.min.at(axis as int)), m as u32),
        decreases n - k,
    {
        keys.push(pack(order_key(items[k].1.min.get(axis)), k as u32));
        k = k + 1;
    }
    let ghost unsorted = keys@;
    sort_keys(&mut keys);
    proof {
        lemma_sorted_permutation(unsorted, keys@);
        lemma_sorted_is_sort_by(unsorted, keys@);
    }
    let mid = n / 2;
    let mut left: Vec<(u32, BoundingBox)> = Vec::new();
    let mut right: Vec<(u32, BoundingBox)> = Vec::new();
    let mut j: usize = 0;
    while j < n
        invariant
            j <= n,
            n == items@.len(),
            keys@.len() == n,
            mid == n / 2,
            forall|m: int| 0 <= m < n ==> (#[trigger] key_lo(keys@[m]) as int) < n,
            j <= mid ==> left@.len() == j && right@.len() == 0,
            j > mid ==> left@.len() == mid && right@.len() == j - mid,
            forall|m: int| 0 <= m < left@.len() ==> #[trigger] left@[m] == items@[key_lo(keys@[m]) as int],
            forall|m: int|
                0 <= m < right@.len() ==> #[trigger] right@[m] == items@[key_lo(keys@[mid + m]) as int],
        decreases n - j,
    {
        let it = items[unpack_lo(keys[j]) as usize];
        if j < mid {
            left.push(it);
        } else {
            right.push(it);
        }
        j = j + 1;
    }
    let next = if depth < usize::MAX {
        depth + 1
    } else {
        depth
    };
    let l = build(left, policy, next);
    let rt = build(right, policy, next);
    let bb = BoundingBox::surrounding_box(&l.bounding_box(), &rt.bounding_box());
    let node = Box::new(TlasNode::Branch { left: l, right: rt, bounding_box: bb });
    proof {
        assert forall|k: int| 0 <= k < items@.len() implies node.holds(#[trigger] items@[k].0, items@[k].1) by {
            assert(keys@.contains(unsorted[k]));
            let j = choose|j: int| 0 <= j < keys@.len() && keys@[j] == unsorted[k];
            assert(key_lo(unsorted[k]) == k);
            if j < mid {
                assert(left@[j] == items@[k]);
            } else {
                assert(right@[j - mid] == items@[k]);
            }
        }
        if policy != SplitAxis::Random {
            let spec_keys = Seq::new(
                items@.len(),
                |k: int| packed(order_key_of(items@[k].1.min.at(axis as int)), k as u32),
            );
            assert(unsorted =~= spec_keys);
            assert(left@ =~= Seq::new(mid as nat, |j: int| items@[key_lo(keys@[j]) as int]));
            assert(right@ =~= Seq::new((n - mid) as nat, |j: int| items@[key_lo(keys@[mid + j]) as int]));
            assert(*node == tlas_tree(items@, policy, depth as nat));
        }
        assert(node.leaves() == l.leaves() + rt.leaves());
        if distinct_ids(items@) {
            lemma_halves_distinct(items@, unsorted, keys@, left@, right@, mid as int);
            lemma_join_unique(*node, *l, *rt, left@, right@, unsorted, keys@, items@, mid as int);
        }
        assert forall|id: u32, b: BoundingBox| node.holds(id, b) implies items@.contains((id, b)) by {
            assert(l.holds(id, b) || rt.holds(id, b));
            if l.holds(id, b) {
                let m = choose|m: int| 0 <= m < left@.len() && left@[m] == (id, b);
                assert(items@[key_lo(keys@[m]) as int] == (id, b));
            } else {
                assert(right@.contains((id, b)));
                let m = choose|m: int| 0 <= m < right@.len() && right@[m] == (id, b);
                assert(items@[key_lo(keys@[mid + m]) as int] == (id, b));
            }
        }
    }
    node
}

/// World-space box of an instance: its geometry's box under its transform.
pub open spec fn world_box(hittables: GeometryRegistry, instance: Instance) -> BoundingBox {
    transformed_box(registry_boxes(hittables)[instance.geometry_index], instance.transform)
}

/// The instance's geometry is registered and its transform keeps that
/// geometry's box on the grid.
pub open spec fn placeable(hittables: GeometryRegistry, instance: Instance) -> bool {
    &&& registry_boxes(hittables).contains_key(instance.geometry_index)
    &&& maps_into_grid(instance.transform, registry_boxes(hittables)[instance.geometry_index].min)
    &&& maps_into_grid(instance.transform, registry_boxes(hittables)[instance.geometry_index].max)
}

/// Each instance's id with its world box, in order.
pub open spec fn world_items(hittables: GeometryRegistry, instances: Seq<Instance>) -> Seq<(u32, BoundingBox)> {
    instances.map_values(|i: Instance| (i.instance_id, world_box(hittables, i)))
}

/// Top-level structure: a binary tree over the world boxes of a scene's
/// instances.
#[derive(Debug)]
pub struct TopLevelAccelerationStructure {
    pub instances: Vec<Instance>,
    pub bounding_box: BoundingBox,
    pub root_node: Box<TlasNode>,
}

impl TopLevelAccelerationStructure {
    /// The root box is the scene box, and the tree is well formed.
    pub open spec fn wf(self) -> bool {
        &&& self.root_node.wf()
        &&& self.bounding_box == self.root_node.bbox()
    }

    /// The tree holds exactly the instances of `instances`, each with its
    /// world box.
    pub open spec fn built_from(self, hittables: GeometryRegistry, instances: Seq<Instance>) -> bool {
        &&& forall|k: int|
            0 <= k < instances.len() ==> self.root_node.holds(
                #[trigger] instances[k].instance_id,
                world_box(hittables, instances[k]),
            )
        &&& forall|id: u32, b: BoundingBox|
            #[trigger] self.root_node.holds(id, b) ==> exists|k: int|
                0 <= k < instances.len() && #[trigger] instances[k].instance_id == id && world_box(
                    hittables,
                    instances[k],
                ) == b
    }

    /// Builds the tree over `instances`, splitting along x at every level:
    /// one leaf per instance, unique leaf ids when the instance ids are
    /// distinct, and the tree a function of the registry and the instances.
    pub fn new(hittables: &GeometryRegistry, instances: &Vec<Instance>) -> (r: Self)
        requires
            1 <= instances@.len() <= u32::MAX,
            forall|k: int| 0 <= k < instances@.len() ==> placeable(*hittables, #[trigger] instances@[k]),
        ensures
            r.wf(),
            r.instances@ == instances@,
            r.built_from(*hittables, instances@),
            r.root_node.leaves().len() == instances@.len(),
            distinct_ids(world_items(*hittables, instances@)) ==> r.root_node.ids_unique(),
            *r.root_node == tlas_tree(world_items(*hittables, instances@), SplitAxis::X, 0),
    {
        Self::with_split_axis(hittables, instances, SplitAxis::X)
    }

    /// Builds the tree over `instances`: each instance's box is its
    /// geometry's box under its transform; branches split their sorted items
    /// at the midpoint, along the axis `policy` picks.
    pub fn with_split_axis(hittables: &GeometryRegistry, instances: &Vec<Instance>, policy: SplitAxis) -> (r: Self)
        requires
            1 <= instances@.len() <= u32::MAX,
            forall|k: int| 0 <= k < instances@.len() ==> placeable(*hittables, #[trigger] instances@[k]),
        ensures
            r.wf(),
            r.instances@ == instances@,
            r.built_from(*hittables, instances@),
            policy != SplitAxis::Random ==> *r.root_node == tlas_tree(
                world_items(*hittables, instances@),
                policy,
                0,
            ),
            r.root_node.leaves().len() == instances@.len(),
            distinct_ids(world_items(*hittables, instances@)) ==> r.root_node.ids_unique(),
    {
        let mut items: Vec<(u32, BoundingBox)> = Vec::new();
        let mut copies: Vec<Instance> = Vec::new();
        let mut k: usize = 0;
        while k < instances.len()
            invariant
                k <= instances@.len(),
                items@.len() == k,
                copies@ == instances@.subrange(0, k as int),
                forall|m: int| 0 <= m < instances@.len() ==> placeable(*hittables, #[trigger] instances@[m]),
                forall|m: int|
                    0 <= m < k ==> #[trigger] items@[m] == (instances@[m].instance_id, world_box(
                        *hittables,
                        instances@[m],
                    )) && items@[m].1.wf(),
            decreases instances@.len() - k,
        {
            let inst = instances[k];
            assert(placeable(*hittables, instances@[k as int]));
            let geometry = hittables.get(inst.geometry_index).unwrap();
            items.push((inst.instance_id, geometry.transformed(&inst.transform)));
            copies.push(inst);
            assert(copies@ =~= instances@.subrange(0, k + 1));
            k = k + 1;
        }
        assert(copies@ =~= instances@);
        assert(items@ =~= world_items(*hittables, instances@));
        let ghost all = items@;
        let root_node = build(items, policy, 0);
        let bounding_box = root_node.bounding_box();
        let r = TopLevelAccelerationStructure { instances: copies, bounding_box, root_node };
        proof {
            assert forall|k: int| 0 <= k < instances@.len() implies r.root_node.holds(
                #[trigger] instances@[k].instance_id,
                world_box(*hittables, instances@[k]),
            ) by {
                assert(r.root_node.holds(all[k].0, all[k].1));
            }
            assert forall|id: u32, b: BoundingBox| #[trigger] r.root_node.holds(id, b) implies exists|k: int|
                0 <= k < instances@.len() && #[trigger] instances@[k].instance_id == id && world_box(
                    *hittables,
                    instances@[k],
                ) == b by {
                assert(all.contains((id, b)));
                let k = choose|k: int| 0 <= k < all.len() && all[k] == (id, b);
                assert(instances@[k].instance_id == id);
            }
        }
        r
    }

    /// Candidate instances for a ray: the ids of the held leaves whose world
    /// boxes the ray hits within `[t_min, t_max]`, left to right, and nothing
    /// when the scene box is missed.
    pub fn intersect_instance(&self, ray: &Ray, t_min: i64, t_max: i64) -> (r: Vec<u32>)
        requires
            self.wf(),
            ray.wf(),
        ensures
            r@ == self.root_node.hit_ids(*ray, t_min as int, t_max as int),
            forall|id: u32|
                #[trigger] r@.contains(id) <==> exists|b: BoundingBox|
                    self.root_node.holds(id, b) && #[trigger] hits(b, *ray, t_min as int, t_max as int),
            self.root_node.ids_unique() ==> r@.no_duplicates(),
            !hits(self.bounding_box, *ray, t_min as int, t_max as int) ==> r@.len() == 0,
    {
        let results: Vec<u32> = Vec::new();
        let r = if self.bounding_box.hit(ray, t_min, t_max) {
            let r = self.root_node.hit_test(ray, t_min, t_max, results);
            assert(r@ =~= self.root_node.hit_ids(*ray, t_min as int, t_max as int));
            r
        } else {
            proof {
                lemma_hit_ids_missed(*self.root_node, *ray, t_min as int, t_max as int);
            }
            assert(results@ =~= self.root_node.hit_ids(*ray, t_min as int, t_max as int));
            results
        };
        proof {
            assert forall|id: u32|
                #[trigger] r@.contains(id) <==> exists|b: BoundingBox|
                    self.root_node.holds(id, b) && #[trigger] hits(b, *ray, t_min as int, t_max as int) by {
                lemma_hit_ids_contains(*self.root_node, *ray, t_min as int, t_max as int, id);
            }
            if self.root_node.ids_unique() {
                lemma_hit_ids_unique(*self.root_node, *ray, t_min as int, t_max as int);
            }
        }
        r
    }

    pub fn instance(&self, id: usize) -> (r: &Instance)
        requires
            id < self.instances@.len(),
        ensures
            *r == self.instances@[id as int],
    {
        &self.instances[id]
    }
}

/// Building twice from the same registry and instances with the same fixed
/// split policy gives the same tree: the build is a function of its inputs.
pub proof fn lemma_tlas_build_deterministic(
    a: TopLevelAccelerationStructure,
    b: TopLevelAccelerationStructure,
    hittables: GeometryRegistry,
    instances: Seq<Instance>,
    policy: SplitAxis,
)
    requires
        policy != SplitAxis::Random,
        a.wf(),
        b.wf(),
        *a.root_node == tlas_tree(world_items(hittables, instances), policy, 0),
        *b.root_node == tlas_tree(world_items(hittables, instances), policy, 0),
    ensures
        a.root_node == b.root_node,
        a.bounding_box == b.bounding_box,
{
}

} // verus!
