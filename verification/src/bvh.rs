//! The bounding-volume hierarchy: a binary tree of boxes over a set of
//! primitives, built once and queried for the nearest hit of a ray.

use crate::aabb::{lemma_enclosing_box_meets, lemma_join_encloses, steady, AABB};
use crate::hittable::{
    before, bounded, lemma_scan_any_order, lemma_scan_concat, lemma_scan_finds_nearest,
    lemma_scan_shorter_range, no_ties, or_else, orderly, same_distance, scan, tightened, Hit,
    Hittable,
};
use vstd::prelude::*;

verus! {

/// A subtree of the hierarchy. A leaf names a primitive by its position in
/// the list that the hierarchy was built from; an inner node holds the box
/// around everything below it.
pub enum Tree {
    Leaf(usize),
    Node { aabb: AABB, left: Box<Tree>, right: Box<Tree> },
}

impl Tree {
    /// The box of this subtree, where `boxes` are the primitives' bounds.
    pub open spec fn bounds(self, boxes: Seq<AABB>) -> AABB {
        match self {
            Tree::Leaf(i) => boxes[i as int],
            Tree::Node { aabb, .. } => aabb,
        }
    }

    /// Every leaf names one of `count` primitives.
    pub open spec fn fits(self, count: nat) -> bool
        decreases self,
    {
        match self {
            Tree::Leaf(i) => i < count,
            Tree::Node { left, right, .. } => left.fits(count) && right.fits(count),
        }
    }

    /// Every leaf names a primitive, and every inner node holds exactly the
    /// least box around its two children.
    pub open spec fn wf(self, boxes: Seq<AABB>) -> bool
        decreases self,
    {
        match self {
            Tree::Leaf(i) => i < boxes.len(),
            Tree::Node { aabb, left, right } => {
                &&& left.wf(boxes)
                &&& right.wf(boxes)
                &&& aabb == AABB::join(left.bounds(boxes), right.bounds(boxes))
            },
        }
    }

    /// The primitives at the leaves, from left to right.
    pub open spec fn leaves(self) -> Seq<usize>
        decreases self,
    {
        match self {
            Tree::Leaf(i) => seq![i],
            Tree::Node { left, right, .. } => left.leaves() + right.leaves(),
        }
    }

    /// What a query of this subtree returns. A node whose box the ray
    /// misses on the range returns nothing; otherwise the left child is
    /// asked, then the right child on the range that ends at the left
    /// child's hit, and the right child's hit is preferred.
    pub open spec fn traverse<P: Hittable>(
        self,
        objects: Seq<P>,
        ray: &P::Ray,
        start: i64,
        end: i64,
    ) -> Option<Hit<P::Detail>>
        decreases self,
    {
        match self {
            Tree::Leaf(i) => objects[i as int].crossing(ray, start, end),
            Tree::Node { aabb, left, right } => {
                if !aabb.meets(ray, start, end) {
                    None
                } else {
                    let near = left.traverse(objects, ray, start, end);
                    or_else(right.traverse(objects, ray, start, tightened(near, end)), near)
                }
            },
        }
    }

    /// The subtree's box, read off the node or looked up for a leaf.
    pub fn bounding_box(&self, boxes: &Vec<AABB>) -> (b: AABB)
        requires
            self.wf(boxes@),
        ensures
            b == self.bounds(boxes@),
    {
        match self {
            Tree::Leaf(i) => boxes[*i],
            Tree::Node { aabb, .. } => *aabb,
        }
    }

    /// Queries the subtree for the nearest hit of `ray` between `start` and
    /// `end`.
    pub fn hit<P: Hittable>(&self, objects: &Vec<P>, ray: &P::Ray, start: i64, end: i64) -> (h:
        Option<Hit<P::Detail>>)
        requires
            self.fits(objects@.len()),
        ensures
            h == self.traverse(objects@, ray, start, end),
        decreases self,
    {
        match self {
            Tree::Leaf(i) => objects[*i].hit(ray, start, end),
            Tree::Node { aabb, left, right } => {
                if !aabb.hit(ray, start, end) {
                    return None;
                }
                let near = left.hit(objects, ray, start, end);
                let far = match &near {
                    None => end,
                    Some(hit) => hit.t,
                };
                let beyond = right.hit(objects, ray, start, far);
                match beyond {
                    Some(_) => beyond,
                    None => near,
                }
            },
        }
    }
}

/// The value that a primitive is ordered by along `axis`: the least
/// coordinate of its box.
pub open spec fn key(boxes: Seq<AABB>, axis: int, id: usize) -> i64 {
    boxes[id as int].min.at(axis as usize)
}

/// `sorted` with `x` put in behind the last member whose key is at most
/// that of `x`.
pub open spec fn inserted(boxes: Seq<AABB>, axis: int, sorted: Seq<usize>, x: usize) -> Seq<usize>
    decreases sorted.len(),
{
    if sorted.len() == 0 {
        seq![x]
    } else if key(boxes, axis, sorted.last()) <= key(boxes, axis, x) {
        sorted.push(x)
    } else {
        inserted(boxes, axis, sorted.drop_last(), x).push(sorted.last())
    }
}

/// `ids` in ascending order of their keys along `axis`; members with equal
/// keys stay in the order they had.
pub open spec fn sorted_along(boxes: Seq<AABB>, axis: int, ids: Seq<usize>) -> Seq<usize>
    decreases ids.len(),
{
    if ids.len() == 0 {
        Seq::empty()
    } else {
        inserted(boxes, axis, sorted_along(boxes, axis, ids.drop_last()), ids.last())
    }
}

/// Putting `x` in at `pos` is what `inserted` does, where `pos` parts the
/// members with keys at most that of `x` from those with greater keys.
proof fn lemma_inserted_at(boxes: Seq<AABB>, axis: int, sorted: Seq<usize>, x: usize, pos: int)
    requires
        0 <= pos <= sorted.len(),
        forall|j: int| pos <= j < sorted.len() ==> key(boxes, axis, sorted[j]) > key(boxes, axis, x),
        pos > 0 ==> key(boxes, axis, sorted[pos - 1]) <= key(boxes, axis, x),
    ensures
        inserted(boxes, axis, sorted, x) == sorted.insert(pos, x),
    decreases sorted.len(),
{
    if sorted.len() == 0 {
        assert(sorted.insert(pos, x) =~= seq![x]);
    } else if pos == sorted.len() {
        assert(sorted.insert(pos, x) =~= sorted.push(x));
    } else {
        lemma_inserted_at(boxes, axis, sorted.drop_last(), x, pos);
        assert(sorted.insert(pos, x) =~= sorted.drop_last().insert(pos, x).push(sorted.last()));
    }
}

/// Sorting keeps the members: the result holds each as often as `ids`.
pub proof fn lemma_sorted_permutes(boxes: Seq<AABB>, axis: int, ids: Seq<usize>)
    ensures
        sorted_along(boxes, axis, ids).len() == ids.len(),
        sorted_along(boxes, axis, ids).to_multiset() == ids.to_multiset(),
    decreases ids.len(),
{
    broadcast use vstd::seq_lib::group_to_multiset_ensures;

    if ids.len() == 0 {
    } else {
        let rest = sorted_along(boxes, axis, ids.drop_last());
        lemma_sorted_permutes(boxes, axis, ids.drop_last());
        lemma_inserted_permutes(boxes, axis, rest, ids.last());
        assert(ids == ids.drop_last().push(ids.last()));
    }
}

proof fn lemma_inserted_permutes(boxes: Seq<AABB>, axis: int, sorted: Seq<usize>, x: usize)
    ensures
        inserted(boxes, axis, sorted, x).len() == sorted.len() + 1,
        inserted(boxes, axis, sorted, x).to_multiset() == sorted.to_multiset().insert(x),
    decreases sorted.len(),
{
    broadcast use vstd::seq_lib::group_to_multiset_ensures;

    if sorted.len() == 0 {
        assert(seq![x] =~= Seq::<usize>::empty().push(x));
        assert(sorted =~= Seq::<usize>::empty());
    } else if key(boxes, axis, sorted.last()) <= key(boxes, axis, x) {
    } else {
        lemma_inserted_permutes(boxes, axis, sorted.drop_last(), x);
        assert(sorted == sorted.drop_last().push(sorted.last()));
        assert(sorted.drop_last().to_multiset().insert(x).insert(sorted.last())
            =~= sorted.drop_last().to_multiset().insert(sorted.last()).insert(x));
    }
}

/// Whether the keys of `ids` along `axis` never fall from one member to
/// the next.
pub open spec fn ascending(boxes: Seq<AABB>, axis: int, ids: Seq<usize>) -> bool {
    forall|i: int, j: int|
        0 <= i <= j < ids.len() ==> key(boxes, axis, #[trigger] ids[i]) <= key(
            boxes,
            axis,
            #[trigger] ids[j],
        )
}

proof fn lemma_inserted_ascending(boxes: Seq<AABB>, axis: int, sorted: Seq<usize>, x: usize)
    requires
        ascending(boxes, axis, sorted),
    ensures
        ascending(boxes, axis, inserted(boxes, axis, sorted, x)),
    decreases sorted.len(),
{
    let out = inserted(boxes, axis, sorted, x);
    if sorted.len() == 0 {
    } else if key(boxes, axis, sorted.last()) <= key(boxes, axis, x) {
        assert forall|i: int, j: int| 0 <= i <= j < out.len() implies key(
            boxes,
            axis,
            #[trigger] out[i],
        ) <= key(boxes, axis, #[trigger] out[j]) by {
            if j < sorted.len() {
                assert(out[i] == sorted[i] && out[j] == sorted[j]);
            } else if i < sorted.len() {
                assert(out[i] == sorted[i]);
                assert(key(boxes, axis, sorted[i]) <= key(boxes, axis, sorted[sorted.len() - 1]));
            }
        }
    } else {
        let front = sorted.drop_last();
        let mid = inserted(boxes, axis, front, x);
        assert forall|i: int, j: int| 0 <= i <= j < front.len() implies key(
            boxes,
            axis,
            #[trigger] front[i],
        ) <= key(boxes, axis, #[trigger] front[j]) by {
            assert(front[i] == sorted[i] && front[j] == sorted[j]);
        }
        lemma_inserted_ascending(boxes, axis, front, x);
        lemma_inserted_permutes(boxes, axis, front, x);
        assert forall|i: int, j: int| 0 <= i <= j < out.len() implies key(
            boxes,
            axis,
            #[trigger] out[i],
        ) <= key(boxes, axis, #[trigger] out[j]) by {
            if j < mid.len() {
                assert(out[i] == mid[i] && out[j] == mid[j]);
            } else if i < mid.len() {
                // every member of `mid` is `x` or a member of `front`
                lemma_inserted_members(boxes, axis, front, x, i);
                assert(out[i] == mid[i]);
                if mid[i] != x {
                    let k = choose|k: int| 0 <= k < front.len() && front[k] == mid[i];
                    assert(front[k] == sorted[k]);
                    assert(key(boxes, axis, sorted[k]) <= key(
                        boxes,
                        axis,
                        sorted[sorted.len() - 1],
                    ));
                }
            }
        }
    }
}

/// Each member of `inserted(sorted, x)` is `x` or a member of `sorted`.
proof fn lemma_inserted_members(boxes: Seq<AABB>, axis: int, sorted: Seq<usize>, x: usize, i: int)
    requires
        0 <= i < inserted(boxes, axis, sorted, x).len(),
    ensures
        inserted(boxes, axis, sorted, x)[i] == x || exists|k: int|
            0 <= k < sorted.len() && sorted[k] == inserted(boxes, axis, sorted, x)[i],
    decreases sorted.len(),
{
    let out = inserted(boxes, axis, sorted, x);
    lemma_inserted_permutes(boxes, axis, sorted, x);
    if sorted.len() == 0 {
    } else if key(boxes, axis, sorted.last()) <= key(boxes, axis, x) {
        if i < sorted.len() {
            assert(sorted[i] == out[i]);
        }
    } else {
        let front = sorted.drop_last();
        lemma_inserted_permutes(boxes, axis, front, x);
        if i < sorted.len() {
            lemma_inserted_members(boxes, axis, front, x, i);
            let mid = inserted(boxes, axis, front, x);
            assert(out[i] == mid[i]);
            if mid[i] != x {
                let k = choose|k: int| 0 <= k < front.len() && front[k] == mid[i];
                assert(sorted[k] == out[i]);
            }
        } else {
            assert(sorted[sorted.len() - 1] == out[i]);
        }
    }
}

/// Sorting puts the members in ascending order of their keys.
pub proof fn lemma_sorted_ascending(boxes: Seq<AABB>, axis: int, ids: Seq<usize>)
    ensures
        ascending(boxes, axis, sorted_along(boxes, axis, ids)),
    decreases ids.len(),
{
    if ids.len() == 0 {
    } else {
        lemma_sorted_ascending(boxes, axis, ids.drop_last());
        lemma_inserted_ascending(
            boxes,
            axis,
            sorted_along(boxes, axis, ids.drop_last()),
            ids.last(),
        );
    }
}

/// Sorting moves nothing that is in order already: members with equal
/// keys are never swapped.
pub proof fn lemma_sorted_keeps_ascending(boxes: Seq<AABB>, axis: int, ids: Seq<usize>)
    requires
        ascending(boxes, axis, ids),
    ensures
        sorted_along(boxes, axis, ids) == ids,
    decreases ids.len(),
{
    if ids.len() > 0 {
        let front = ids.drop_last();
        assert forall|i: int, j: int| 0 <= i <= j < front.len() implies key(
            boxes,
            axis,
            #[trigger] front[i],
        ) <= key(boxes, axis, #[trigger] front[j]) by {
            assert(front[i] == ids[i] && front[j] == ids[j]);
        }
        lemma_sorted_keeps_ascending(boxes, axis, front);
        if front.len() > 0 {
            assert(key(boxes, axis, ids[front.len() - 1]) <= key(boxes, axis, ids[ids.len() - 1]));
        }
        assert(front.push(ids.last()) == ids);
    } else {
        assert(ids == Seq::<usize>::empty());
    }
}

/// Sorts `ids` by the least coordinate of their boxes along `axis`, keeping
/// the order of members whose keys are equal.
pub fn sort_along_axis(boxes: &Vec<AABB>, ids: &Vec<usize>, axis: usize) -> (out: Vec<usize>)
    requires
        axis < 3,
        forall|k: int| 0 <= k < ids@.len() ==> ids@[k] < boxes@.len(),
    ensures
        out@ == sorted_along(boxes@, axis as int, ids@),
        out@.len() == ids@.len(),
        forall|k: int| 0 <= k < out@.len() ==> out@[k] < boxes@.len(),
{
    let mut out: Vec<usize> = Vec::new();
    let mut i: usize = 0;
    while i < ids.len()
        invariant
            axis < 3,
            i <= ids@.len(),
            forall|k: int| 0 <= k < ids@.len() ==> ids@[k] < boxes@.len(),
            out@ == sorted_along(boxes@, axis as int, ids@.take(i as int)),
            out@.len() == i,
            forall|k: int| 0 <= k < out@.len() ==> out@[k] < boxes@.len(),
        decreases ids@.len() - i,
    {
        let x = ids[i];
        let kx = boxes[x].min.coord(axis);
        let mut pos: usize = out.len();
        while pos > 0 && boxes[out[pos - 1]].min.coord(axis) > kx
            invariant
                axis < 3,
                pos <= out@.len(),
                x < boxes@.len(),
                kx == key(boxes@, axis as int, x),
                forall|k: int| 0 <= k < out@.len() ==> out@[k] < boxes@.len(),
                forall|j: int|
                    pos <= j < out@.len() ==> key(boxes@, axis as int, out@[j]) > kx,
            decreases pos,
        {
            pos = pos - 1;
        }
        proof {
            lemma_inserted_at(boxes@, axis as int, out@, x, pos as int);
            let upto = ids@.take(i + 1);
            assert(upto.drop_last() == ids@.take(i as int));
            assert(upto.last() == x);
        }
        out.insert(pos, x);
        i = i + 1;
    }
    proof {
        assert(ids@.take(i as int) == ids@);
    }
    out
}

/// The inner node over two subtrees, with the least box around both.
pub open spec fn node_over(boxes: Seq<AABB>, left: Tree, right: Tree) -> Tree {
    Tree::Node {
        aabb: AABB::join(left.bounds(boxes), right.bounds(boxes)),
        left: Box::new(left),
        right: Box::new(right),
    }
}

/// The axis that the level below one split along `axis` is split along.
pub open spec fn next_axis(axis: int) -> int {
    (axis + 1) % 3
}

/// The hierarchy over the primitives `ids`, split along `axis` first.
///
/// One primitive becomes both children of a node. Two primitives become the
/// two children, the one with the smaller key on the left, in the order of
/// `ids` where the keys are equal. More are sorted along `axis` and parted
/// at the middle, and each half is built along the next axis. Of no
/// primitive at all there is no hierarchy, and nothing is said.
pub open spec fn built(boxes: Seq<AABB>, ids: Seq<usize>, axis: int) -> Tree
    decreases ids.len(),
    via built_decreases
{
    if ids.len() <= 1 {
        node_over(boxes, Tree::Leaf(ids[0]), Tree::Leaf(ids[0]))
    } else if ids.len() == 2 {
        if key(boxes, axis, ids[1]) < key(boxes, axis, ids[0]) {
            node_over(boxes, Tree::Leaf(ids[1]), Tree::Leaf(ids[0]))
        } else {
            node_over(boxes, Tree::Leaf(ids[0]), Tree::Leaf(ids[1]))
        }
    } else {
        let order = sorted_along(boxes, axis, ids);
        let mid = ids.len() / 2;
        node_over(
            boxes,
            built(boxes, order.take(mid as int), next_axis(axis)),
            built(boxes, order.skip(mid as int), next_axis(axis)),
        )
    }
}

#[via_fn]
proof fn built_decreases(boxes: Seq<AABB>, ids: Seq<usize>, axis: int) {
    lemma_sorted_permutes(boxes, axis, ids);
}

/// Builds the hierarchy over the primitives `ids`, splitting along `axis`
/// first.
pub fn build(boxes: &Vec<AABB>, ids: Vec<usize>, axis: usize) -> (tree: Tree)
    requires
        axis < 3,
        ids@.len() > 0,
        forall|k: int| 0 <= k < ids@.len() ==> ids@[k] < boxes@.len(),
    ensures
        tree == built(boxes@, ids@, axis as int),
        tree.wf(boxes@),
        tree is Node,
    decreases ids@.len(),
{
    let n = ids.len();
    let (left, right) = if n == 1 {
        (Tree::Leaf(ids[0]), Tree::Leaf(ids[0]))
    } else if n == 2 {
        let first = ids[0];
        let last = ids[1];
        if boxes[last].min.coord(axis) < boxes[first].min.coord(axis) {
            (Tree::Leaf(last), Tree::Leaf(first))
        } else {
            (Tree::Leaf(first), Tree::Leaf(last))
        }
    } else {
        let mut lower = sort_along_axis(boxes, &ids, axis);
        let mid = n / 2;
        let upper = lower.split_off(mid);
        let next = (axis + 1) % 3;
        (build(boxes, lower, next), build(boxes, upper, next))
    };
    assert(left.wf(boxes@) && right.wf(boxes@));
    let aabb = AABB::containing(left.bounding_box(boxes), right.bounding_box(boxes));
    let tree = Tree::Node { aabb, left: Box::new(left), right: Box::new(right) };
    assert(tree.wf(boxes@));
    tree
}

/// The bounds of each of `objects`, in their order.
pub open spec fn bounds_of<P: Hittable>(objects: Seq<P>) -> Seq<AABB> {
    Seq::new(objects.len(), |i: int| objects[i].bounds())
}

/// The positions `0, 1, ..` up to `n`.
pub open spec fn positions(n: nat) -> Seq<usize> {
    Seq::new(n, |i: int| i as usize)
}

/// In a well-formed tree every leaf names a primitive.
pub proof fn lemma_leaves_in_range(tree: Tree, boxes: Seq<AABB>)
    requires
        tree.wf(boxes),
    ensures
        tree.fits(boxes.len()),
        forall|k: int| 0 <= k < tree.leaves().len() ==> tree.leaves()[k] < boxes.len(),
    decreases tree,
{
    match tree {
        Tree::Leaf(i) => {
            assert(tree.leaves()[0] == i);
        },
        Tree::Node { left, right, .. } => {
            lemma_leaves_in_range(*left, boxes);
            lemma_leaves_in_range(*right, boxes);
            let l = left.leaves();
            let r = right.leaves();
            assert forall|k: int| 0 <= k < tree.leaves().len() implies tree.leaves()[k]
                < boxes.len() by {
                if k < l.len() {
                    assert(tree.leaves()[k] == l[k]);
                } else {
                    assert(tree.leaves()[k] == r[k - l.len()]);
                }
            }
        },
    }
}

/// A bounding-volume hierarchy together with the primitives it indexes.
pub struct BVHNode<P: Hittable> {
    objects: Vec<P>,
    root: Tree,
}

impl<P: Hittable> BVHNode<P> {
    /// The root is the tree built over all primitives, along the first axis.
    #[verifier::type_invariant]
    pub closed spec fn inv(&self) -> bool {
        &&& self.objects@.len() > 0
        &&& self.root == built(bounds_of(self.objects@), positions(self.objects@.len()), 0)
        &&& self.root.wf(bounds_of(self.objects@))
    }

    /// The primitives, in the order in which they were handed over.
    pub closed spec fn members(&self) -> Seq<P> {
        self.objects@
    }

    /// The tree over the positions of `members`.
    pub closed spec fn tree(&self) -> Tree {
        self.root
    }

    /// Builds the hierarchy over `objects`, which must not be empty.
    pub fn from_hittables(objects: Vec<P>) -> (bvh: BVHNode<P>)
        requires
            objects@.len() > 0,
        ensures
            bvh.members() == objects@,
            bvh.tree() == built(bounds_of(objects@), positions(objects@.len()), 0),
            bvh.tree().wf(bounds_of(objects@)),
            bvh.tree() is Node,
            bvh.inv(),
    {
        let mut boxes: Vec<AABB> = Vec::new();
        let mut ids: Vec<usize> = Vec::new();
        let mut i: usize = 0;
        while i < objects.len()
            invariant
                i <= objects@.len(),
                boxes@ == bounds_of(objects@.take(i as int)),
                ids@ == positions(i as nat),
            decreases objects@.len() - i,
        {
            let b = objects[i].bounding_box();
            boxes.push(b);
            ids.push(i);
            proof {
                assert(boxes@ =~= bounds_of(objects@.take(i + 1)));
                assert(ids@ =~= positions((i + 1) as nat));
            }
            i = i + 1;
        }
        proof {
            assert(objects@.take(i as int) == objects@);
        }
        let root = build(&boxes, ids, 0);
        BVHNode { objects, root }
    }

    /// The tree over the positions of the primitives.
    pub fn root(&self) -> (root: &Tree)
        ensures
            *root == self.tree(),
            root is Node,
            root.wf(bounds_of(self.members())),
    {
        proof {
            use_type_invariant(self);
        }
        &self.root
    }

    /// The primitives that the hierarchy indexes.
    pub fn objects(&self) -> (objects: &Vec<P>)
        ensures
            objects@ == self.members(),
            objects@.len() > 0,
    {
        proof {
            use_type_invariant(self);
        }
        &self.objects
    }
}

impl<P: Hittable> Hittable for BVHNode<P> {
    type Ray = P::Ray;

    type Detail = P::Detail;

    /// A hierarchy is no light source, whatever it holds.
    open spec fn emits(&self) -> bool {
        false
    }

    /// The box of the root.
    closed spec fn bounds(&self) -> AABB {
        self.root.bounds(bounds_of(self.objects@))
    }

    /// What the traversal from the root finds.
    closed spec fn crossing(&self, ray: &P::Ray, start: i64, end: i64) -> Option<Hit<P::Detail>> {
        self.root.traverse(self.objects@, ray, start, end)
    }

    fn is_light(&self) -> (b: bool) {
        false
    }

    fn bounding_box(&self) -> (b: AABB) {
        proof {
            use_type_invariant(self);
        }
        match &self.root {
            Tree::Leaf(i) => self.objects[*i].bounding_box(),
            Tree::Node { aabb, .. } => *aabb,
        }
    }

    fn hit(&self, ray: &P::Ray, start: i64, end: i64) -> (h: Option<Hit<P::Detail>>) {
        proof {
            use_type_invariant(self);
            lemma_leaves_in_range(self.root, bounds_of(self.objects@));
        }
        self.root.hit(&self.objects, ray, start, end)
    }
}

impl<P: Hittable> BVHNode<P> {
    /// What the invariant of a hierarchy holds: there is a primitive, the
    /// tree is the one built over all of them along the first axis, and it
    /// is well formed, so that every node's box is the least box around
    /// its two children.
    pub proof fn lemma_inv(&self)
        requires
            self.inv(),
        ensures
            self.members().len() > 0,
            self.tree() == built(bounds_of(self.members()), positions(self.members().len()), 0),
            self.tree().wf(bounds_of(self.members())),
            self.tree() is Node,
    {
    }

    /// What the trait's names stand for on a hierarchy.
    pub proof fn lemma_names(&self, ray: &P::Ray, start: i64, end: i64)
        ensures
            self.bounds() == self.tree().bounds(bounds_of(self.members())),
            self.crossing(ray, start, end) == self.tree().traverse(
                self.members(),
                ray,
                start,
                end,
            ),
    {
    }
}

/// The primitives that `leaves` names, in that order.
pub open spec fn at_leaves<P>(objects: Seq<P>, leaves: Seq<usize>) -> Seq<P> {
    Seq::new(leaves.len(), |k: int| objects[leaves[k] as int])
}

/// What the laws of the hierarchy ask of the primitives and of the ray: the
/// ray is steady, and each primitive has a well-formed box, reports its
/// nearest crossing and reports none outside its box.
pub open spec fn regular<P: Hittable>(objects: Seq<P>, ray: &P::Ray) -> bool {
    &&& steady(ray)
    &&& forall|i: int|
        0 <= i < objects.len() ==> {
            &&& (#[trigger] objects[i]).bounds().wf()
            &&& orderly(&objects[i], ray)
            &&& bounded(&objects[i], ray)
        }
}

/// The box of a well-formed tree over well-formed boxes is well formed and
/// encloses the box of each primitive at its leaves.
pub proof fn lemma_tree_encloses(tree: Tree, boxes: Seq<AABB>)
    requires
        tree.wf(boxes),
        forall|i: int| 0 <= i < boxes.len() ==> (#[trigger] boxes[i]).wf(),
    ensures
        tree.bounds(boxes).wf(),
        forall|k: int|
            0 <= k < tree.leaves().len() ==> tree.bounds(boxes).encloses(
                boxes[(#[trigger] tree.leaves()[k]) as int],
            ),
    decreases tree,
{
    lemma_leaves_in_range(tree, boxes);
    match tree {
        Tree::Leaf(i) => {
            assert(tree.leaves()[0] == i);
        },
        Tree::Node { aabb, left, right } => {
            lemma_tree_encloses(*left, boxes);
            lemma_tree_encloses(*right, boxes);
            lemma_leaves_in_range(*left, boxes);
            lemma_leaves_in_range(*right, boxes);
            lemma_join_encloses(left.bounds(boxes), right.bounds(boxes));
            let l = left.leaves();
            let r = right.leaves();
            assert forall|k: int| 0 <= k < tree.leaves().len() implies aabb.encloses(
                boxes[(#[trigger] tree.leaves()[k]) as int],
            ) by {
                if k < l.len() {
                    assert(tree.leaves()[k] == l[k]);
                    assert(left.bounds(boxes).encloses(boxes[l[k] as int]));
                } else {
                    assert(tree.leaves()[k] == r[k - l.len()]);
                    assert(right.bounds(boxes).encloses(boxes[r[k - l.len()] as int]));
                }
            }
        },
    }
}

/// Over regular primitives a traversal returns what a scan of the
/// primitives at the leaves returns, taken from left to right: pruning by
/// boxes loses no hit.
pub proof fn lemma_traverse_is_scan<P: Hittable>(
    tree: Tree,
    objects: Seq<P>,
    ray: &P::Ray,
    start: i64,
    end: i64,
)
    requires
        tree.wf(bounds_of(objects)),
        regular(objects, ray),
    ensures
        tree.traverse(objects, ray, start, end) == scan(
            at_leaves(objects, tree.leaves()),
            ray,
            start,
            end,
        ),
    decreases tree,
{
    let boxes = bounds_of(objects);
    let found = at_leaves(objects, tree.leaves());
    lemma_leaves_in_range(tree, boxes);
    match tree {
        Tree::Leaf(i) => {
            assert(found.drop_last() =~= Seq::<P>::empty());
            assert(found.last() == objects[i as int]);
            assert(scan(found.drop_last(), ray, start, end) is None);
        },
        Tree::Node { aabb, left, right } => {
            let l = at_leaves(objects, left.leaves());
            let r = at_leaves(objects, right.leaves());
            assert(found =~= l + r);
            lemma_scan_concat(l, r, ray, start, end);
            if !aabb.meets(ray, start, end) {
                assert forall|k: int| 0 <= k < found.len() implies orderly(
                    &#[trigger] found[k],
                    ray,
                ) by {
                    assert(found[k] == objects[tree.leaves()[k] as int]);
                }
                lemma_scan_finds_nearest(found, ray, start, end);
                if let Some(h) = scan(found, ray, start, end) {
                    let k = choose|k: int|
                        0 <= k < found.len() && (#[trigger] found[k]).crossing(ray, start, end)
                            == Some(h);
                    let i = tree.leaves()[k];
                    assert(found[k] == objects[i as int]);
                    assert(bounded(&objects[i as int], ray));
                    assert(forall|i: int| 0 <= i < boxes.len() ==> (#[trigger] boxes[i]).wf());
                    lemma_tree_encloses(tree, boxes);
                    assert(aabb.encloses(boxes[i as int]));
                    lemma_enclosing_box_meets(aabb, boxes[i as int], ray, start, end, end);
                }
            } else {
                let near = left.traverse(objects, ray, start, end);
                lemma_traverse_is_scan(*left, objects, ray, start, end);
                lemma_traverse_is_scan(*right, objects, ray, start, tightened(near, end));
            }
        },
    }
}

/// The tree built over `ids` has exactly the members of `ids` at its
/// leaves.
pub proof fn lemma_built_covers(boxes: Seq<AABB>, ids: Seq<usize>, axis: int)
    requires
        ids.len() > 0,
    ensures
        forall|k: int|
            0 <= k < built(boxes, ids, axis).leaves().len() ==> ids.contains(
                #[trigger] built(boxes, ids, axis).leaves()[k],
            ),
        forall|i: int|
            0 <= i < ids.len() ==> built(boxes, ids, axis).leaves().contains(#[trigger] ids[i]),
    decreases ids.len(),
{
    broadcast use vstd::seq_lib::group_to_multiset_ensures;

    reveal_with_fuel(Tree::leaves, 2);
    let tree = built(boxes, ids, axis);
    let leaves = tree.leaves();
    if ids.len() <= 1 {
        assert(leaves =~= seq![ids[0], ids[0]]);
        assert(leaves[0] == ids[0]);
    } else if ids.len() == 2 {
        if key(boxes, axis, ids[1]) < key(boxes, axis, ids[0]) {
            assert(leaves =~= seq![ids[1], ids[0]]);
            assert(leaves[0] == ids[1] && leaves[1] == ids[0]);
        } else {
            assert(leaves =~= seq![ids[0], ids[1]]);
            assert(leaves[0] == ids[0] && leaves[1] == ids[1]);
        }
    } else {
        let order = sorted_along(boxes, axis, ids);
        let mid = (ids.len() / 2) as int;
        lemma_sorted_permutes(boxes, axis, ids);
        let lower = order.take(mid);
        let upper = order.skip(mid);
        let l = built(boxes, lower, next_axis(axis)).leaves();
        let r = built(boxes, upper, next_axis(axis)).leaves();
        lemma_built_covers(boxes, lower, next_axis(axis));
        lemma_built_covers(boxes, upper, next_axis(axis));
        assert(leaves == l + r);
        assert forall|k: int| 0 <= k < leaves.len() implies ids.contains(#[trigger] leaves[k]) by {
            if k < l.len() {
                assert(leaves[k] == l[k]);
                assert(lower.contains(l[k]));
                let p = choose|p: int| 0 <= p < lower.len() && lower[p] == l[k];
                assert(order[p] == l[k]);
            } else {
                assert(leaves[k] == r[k - l.len()]);
                assert(upper.contains(r[k - l.len()]));
                let p = choose|p: int| 0 <= p < upper.len() && upper[p] == r[k - l.len()];
                assert(order[mid + p] == r[k - l.len()]);
            }
            assert(order.contains(leaves[k]));
            assert(order.to_multiset().count(leaves[k]) > 0);
        }
        assert forall|i: int| 0 <= i < ids.len() implies leaves.contains(#[trigger] ids[i]) by {
            assert(ids.contains(ids[i]));
            assert(ids.to_multiset().count(ids[i]) > 0);
            assert(order.contains(ids[i]));
            let p = choose|p: int| 0 <= p < order.len() && order[p] == ids[i];
            if p < mid {
                assert(lower[p] == ids[i]);
                assert(l.contains(lower[p]));
                let q = choose|q: int| 0 <= q < l.len() && l[q] == ids[i];
                assert(leaves[q] == ids[i]);
            } else {
                assert(upper[p - mid] == ids[i]);
                assert(r.contains(upper[p - mid]));
                let q = choose|q: int| 0 <= q < r.len() && r[q] == ids[i];
                assert(leaves[l.len() + q] == ids[i]);
            }
        }
    }
}

impl<P: Hittable> BVHNode<P> {
    /// Over regular primitives a query of the hierarchy agrees with testing
    /// every primitive in turn: both find nothing, or both find a hit at the
    /// same distance, and the hit that the hierarchy returns is the hit of
    /// one of the primitives on the whole range. Where no two primitives
    /// are hit at the same distance the two searches return the same hit;
    /// otherwise they can differ in which of the primitives at that
    /// distance they name.
    pub proof fn lemma_hit_is_linear_scan(&self, ray: &P::Ray, start: i64, end: i64)
        requires
            self.inv(),
            regular(self.members(), ray),
        ensures
            same_distance(
                self.crossing(ray, start, end),
                scan(self.members(), ray, start, end),
            ),
            self.crossing(ray, start, end) matches Some(h) ==> exists|k: int|
                0 <= k < self.members().len() && (#[trigger] self.members()[k]).crossing(
                    ray,
                    start,
                    end,
                ) == Some(h),
            self.crossing(ray, start, end) == scan(
                at_leaves(self.members(), self.tree().leaves()),
                ray,
                start,
                end,
            ),
            no_ties(self.members(), ray, start, end) ==> self.crossing(ray, start, end) == scan(
                self.members(),
                ray,
                start,
                end,
            ),
    {
        let objects = self.objects@;
        let boxes = bounds_of(objects);
        let ids = positions(objects.len());
        let leaves = self.root.leaves();
        let found = at_leaves(objects, leaves);
        lemma_traverse_is_scan(self.root, objects, ray, start, end);
        lemma_built_covers(boxes, ids, 0);
        lemma_leaves_in_range(self.root, boxes);
        assert forall|k: int| 0 <= k < found.len() implies objects.contains(#[trigger] found[k]) by {
            assert(found[k] == objects[leaves[k] as int]);
        }
        assert forall|i: int| 0 <= i < objects.len() implies found.contains(
            #[trigger] objects[i],
        ) by {
            assert(self.objects.len() == objects.len());
            assert(ids[i] == i);
            assert(leaves.contains(ids[i]));
            let q = choose|q: int| 0 <= q < leaves.len() && leaves[q] == ids[i];
            assert(found[q] == objects[i]);
        }
        lemma_scan_any_order(objects, found, ray, start, end);
        lemma_scan_finds_nearest(objects, ray, start, end);
        if let Some(h) = scan(found, ray, start, end) {
            assert forall|k: int| 0 <= k < found.len() implies orderly(&#[trigger] found[k], ray) by {
                assert(found[k] == objects[leaves[k] as int]);
            }
            lemma_scan_finds_nearest(found, ray, start, end);
            let k = choose|k: int|
                0 <= k < found.len() && (#[trigger] found[k]).crossing(ray, start, end) == Some(h);
            assert(found[k] == objects[leaves[k] as int]);
            assert(objects[leaves[k] as int].crossing(ray, start, end) == Some(h));
        }
    }
}

impl<P: Hittable> BVHNode<P> {
    /// A hierarchy over regular primitives is itself orderly and bounded,
    /// with a well-formed box: it can stand as a primitive in another
    /// hierarchy.
    pub proof fn lemma_hierarchy_is_regular(&self, ray: &P::Ray)
        requires
            self.inv(),
            regular(self.members(), ray),
        ensures
            self.bounds().wf(),
            orderly(self, ray),
            bounded(self, ray),
    {
        let objects = self.objects@;
        let boxes = bounds_of(objects);
        let leaves = self.root.leaves();
        let found = at_leaves(objects, leaves);
        lemma_leaves_in_range(self.root, boxes);
        lemma_tree_encloses(self.root, boxes);
        assert forall|k: int| 0 <= k < found.len() implies orderly(&#[trigger] found[k], ray) by {
            assert(found[k] == objects[leaves[k] as int]);
        }
        assert forall|start: i64, end: i64|
            (#[trigger] self.crossing(ray, start, end)) is Some implies start <= self.crossing(
            ray,
            start,
            end,
        )->0.t < end by {
            lemma_traverse_is_scan(self.root, objects, ray, start, end);
            lemma_scan_finds_nearest(found, ray, start, end);
        }
        assert forall|start: i64, end: i64, nearer: i64| nearer <= end implies #[trigger] self.crossing(
            ray,
            start,
            nearer,
        ) == before(#[trigger] self.crossing(ray, start, end), nearer) by {
            lemma_traverse_is_scan(self.root, objects, ray, start, end);
            lemma_traverse_is_scan(self.root, objects, ray, start, nearer);
            lemma_scan_shorter_range(found, ray, start, end, nearer);
        }
        assert(self.root is Node);
    }
}

} // verus!
