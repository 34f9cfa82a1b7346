//! What the spatial index and the integrator ask of a primitive, and the
//! plain list of primitives.

use crate::aabb::{lemma_enclosing_box_meets, lemma_join_encloses, steady, Point, Ray, AABB};
use crate::random::choose_one;
use vstd::prelude::*;

verus! {

/// One intersection of a ray with a primitive: the ray parameter `t` and
/// whatever else the primitive reports of the surface it was struck on.
pub struct Hit<D> {
    pub t: i64,
    pub detail: D,
}

/// The far bound that a search has after `found`: the parameter of the hit
/// if there is one, else the bound it had.
pub open spec fn tightened<D>(found: Option<Hit<D>>, end: i64) -> i64 {
    match found {
        Some(h) => h.t,
        None => end,
    }
}

/// `later` where it holds a hit, else `earlier`.
pub open spec fn or_else<D>(later: Option<Hit<D>>, earlier: Option<Hit<D>>) -> Option<Hit<D>> {
    match later {
        Some(_) => later,
        None => earlier,
    }
}

/// `found` if its hit lies before `end`, else nothing.
pub open spec fn before<D>(found: Option<Hit<D>>, end: i64) -> Option<Hit<D>> {
    match found {
        Some(h) => if h.t < end {
            found
        } else {
            None
        },
        None => None,
    }
}

/// A primitive that a ray can be tested against.
///
/// Each executable method returns what its spec counterpart names; the
/// trait itself promises nothing about geometry. What a proof needs of a
/// primitive is stated where it is needed, as `orderly` and `bounded`.
pub trait Hittable {
    type Ray: Ray;

    type Detail;

    /// Whether the primitive gives off light.
    spec fn emits(&self) -> bool;

    /// The box that the primitive reports as its bounds.
    spec fn bounds(&self) -> AABB;

    /// The hit that the primitive reports for `ray` on the half-open range
    /// of parameters from `start` to `end`.
    spec fn crossing(&self, ray: &Self::Ray, start: i64, end: i64) -> Option<Hit<Self::Detail>>;

    fn is_light(&self) -> (b: bool)
        ensures
            b == self.emits(),
    ;

    fn bounding_box(&self) -> (b: AABB)
        ensures
            b == self.bounds(),
    ;

    fn hit(&self, ray: &Self::Ray, start: i64, end: i64) -> (h: Option<Hit<Self::Detail>>)
        ensures
            h == self.crossing(ray, start, end),
    ;
}

/// A primitive is orderly for `ray` when every hit it reports lies in the
/// range that was asked for, and when asking for a shorter range is the same
/// as dropping a reported hit that lies beyond it: the primitive always
/// reports its nearest crossing.
pub open spec fn orderly<P: Hittable>(p: &P, ray: &P::Ray) -> bool {
    &&& forall|start: i64, end: i64|
        (#[trigger] p.crossing(ray, start, end)) matches Some(h) ==> start <= h.t < end
    &&& forall|start: i64, end: i64, nearer: i64|
        nearer <= end ==> #[trigger] p.crossing(ray, start, nearer) == before(
            #[trigger] p.crossing(ray, start, end),
            nearer,
        )
}

/// A primitive is bounded for `ray` when it reports a hit on a range only if
/// `ray` meets the primitive's own bounding box on that range.
pub open spec fn bounded<P: Hittable>(p: &P, ray: &P::Ray) -> bool {
    forall|start: i64, end: i64|
        (#[trigger] p.crossing(ray, start, end)) is Some ==> p.bounds().meets(ray, start, end)
}

/// The result of testing the primitives of `objects` one after the other,
/// each on the range that the hits before it have left.
pub open spec fn scan<P: Hittable>(objects: Seq<P>, ray: &P::Ray, start: i64, end: i64) -> Option<
    Hit<P::Detail>,
>
    decreases objects.len(),
{
    if objects.len() == 0 {
        None
    } else {
        let earlier = scan(objects.drop_last(), ray, start, end);
        or_else(objects.last().crossing(ray, start, tightened(earlier, end)), earlier)
    }
}

/// The least box around the bounds of all of `objects`, starting from `acc`.
pub open spec fn join_all<P: Hittable>(acc: AABB, objects: Seq<P>) -> AABB
    decreases objects.len(),
{
    if objects.len() == 0 {
        acc
    } else {
        AABB::join(join_all(acc, objects.drop_last()), objects.last().bounds())
    }
}

/// A flat list of primitives, tested one by one.
pub struct HittableList<P> {
    pub hittables: Vec<P>,
}

impl<P: Hittable> HittableList<P> {
    pub fn new(hittables: Vec<P>) -> (list: HittableList<P>)
        ensures
            list.hittables == hittables,
    {
        HittableList { hittables }
    }

    pub fn is_empty(&self) -> (b: bool)
        ensures
            b == (self.hittables@.len() == 0),
    {
        self.hittables.len() == 0
    }

    pub fn len(&self) -> (n: usize)
        ensures
            n == self.hittables@.len(),
    {
        self.hittables.len()
    }

    /// Draws one member, each with the same chance; nothing from an empty
    /// list.
    pub fn random(&self) -> (chosen: Option<&P>)
        ensures
            chosen is None <==> self.hittables@.len() == 0,
            chosen matches Some(p) ==> self.hittables@.contains(*p),
    {
        choose_one(&self.hittables)
    }
}

impl<P: Hittable> Hittable for HittableList<P> {
    type Ray = P::Ray;

    type Detail = P::Detail;

    /// A list is no light source, whatever it holds.
    open spec fn emits(&self) -> bool {
        false
    }

    open spec fn bounds(&self) -> AABB {
        if self.hittables@.len() == 0 {
            AABB { min: Point { x: 0, y: 0, z: 0 }, max: Point { x: 0, y: 0, z: 0 } }
        } else {
            join_all(self.hittables@[0].bounds(), self.hittables@)
        }
    }

    open spec fn crossing(&self, ray: &P::Ray, start: i64, end: i64) -> Option<Hit<P::Detail>> {
        scan(self.hittables@, ray, start, end)
    }

    fn is_light(&self) -> (b: bool) {
        false
    }

    /// The least box around all members; the box at the origin for an empty
    /// list.
    fn bounding_box(&self) -> (b: AABB) {
        if self.is_empty() {
            return AABB::new(Point::origin(), Point::origin());
        }
        let mut result = self.hittables[0].bounding_box();
        let mut i: usize = 0;
        while i < self.hittables.len()
            invariant
                i <= self.hittables@.len(),
                self.hittables@.len() > 0,
                result == join_all(self.hittables@[0].bounds(), self.hittables@.take(i as int)),
            decreases self.hittables@.len() - i,
        {
            let next = self.hittables[i].bounding_box();
            proof {
                let upto = self.hittables@.take(i + 1);
                assert(upto.drop_last() == self.hittables@.take(i as int));
                assert(upto.last() == self.hittables@[i as int]);
            }
            result = AABB::containing(result, next);
            i = i + 1;
        }
        proof {
            assert(self.hittables@.take(i as int) == self.hittables@);
        }
        result
    }

    /// The nearest hit among the members: each member is tested on the
    /// range that ends at the nearest hit found so far.
    fn hit(&self, ray: &P::Ray, start: i64, end: i64) -> (h: Option<Hit<P::Detail>>) {
        let mut result: Option<Hit<P::Detail>> = None;
        let mut far: i64 = end;
        let mut i: usize = 0;
        while i < self.hittables.len()
            invariant
                i <= self.hittables@.len(),
                result == scan(self.hittables@.take(i as int), ray, start, end),
                far == tightened(result, end),
            decreases self.hittables@.len() - i,
        {
            proof {
                let upto = self.hittables@.take(i + 1);
                assert(upto.drop_last() == self.hittables@.take(i as int));
                assert(upto.last() == self.hittables@[i as int]);
            }
            match self.hittables[i].hit(ray, start, far) {
                Some(hit) => {
                    far = hit.t;
                    result = Some(hit);
                },
                None => {},
            }
            i = i + 1;
        }
        proof {
            assert(self.hittables@.take(i as int) == self.hittables@);
        }
        result
    }
}

/// Two results agree on the distance when both are hits with the same
/// parameter, or neither is a hit.
pub open spec fn same_distance<D>(a: Option<Hit<D>>, b: Option<Hit<D>>) -> bool {
    match (a, b) {
        (Some(h), Some(g)) => h.t == g.t,
        (None, None) => true,
        _ => false,
    }
}

/// Testing two lists one after the other is testing the second on the
/// range that the first has left.
pub proof fn lemma_scan_concat<P: Hittable>(
    a: Seq<P>,
    b: Seq<P>,
    ray: &P::Ray,
    start: i64,
    end: i64,
)
    ensures
        scan(a + b, ray, start, end) == or_else(
            scan(b, ray, start, tightened(scan(a, ray, start, end), end)),
            scan(a, ray, start, end),
        ),
    decreases b.len(),
{
    if b.len() == 0 {
        assert(a + b == a);
    } else {
        assert((a + b).drop_last() == a + b.drop_last());
        assert((a + b).last() == b.last());
        lemma_scan_concat(a, b.drop_last(), ray, start, end);
    }
}

/// Among orderly primitives a scan finds nothing exactly when no member
/// is hit on the whole range, and what it finds is a member's hit on the
/// whole range with the least parameter of all.
pub proof fn lemma_scan_finds_nearest<P: Hittable>(
    objects: Seq<P>,
    ray: &P::Ray,
    start: i64,
    end: i64,
)
    requires
        forall|i: int| 0 <= i < objects.len() ==> orderly(&#[trigger] objects[i], ray),
    ensures
        scan(objects, ray, start, end) is None ==> forall|i: int|
            0 <= i < objects.len() ==> (#[trigger] objects[i]).crossing(ray, start, end) is None,
        scan(objects, ray, start, end) matches Some(h) ==> {
            &&& start <= h.t < end
            &&& exists|k: int|
                0 <= k < objects.len() && (#[trigger] objects[k]).crossing(ray, start, end)
                    == Some(h)
            &&& forall|i: int|
                0 <= i < objects.len() ==> ((#[trigger] objects[i]).crossing(ray, start, end)
                    matches Some(g) ==> h.t <= g.t)
        },
    decreases objects.len(),
{
    if objects.len() > 0 {
        let front = objects.drop_last();
        let last = objects.last();
        let earlier = scan(front, ray, start, end);
        let far = tightened(earlier, end);
        let whole = last.crossing(ray, start, end);
        assert forall|i: int| 0 <= i < front.len() implies orderly(&#[trigger] front[i], ray) by {
            assert(front[i] == objects[i]);
        }
        lemma_scan_finds_nearest(front, ray, start, end);
        assert(orderly(&objects[objects.len() - 1], ray));
        assert(far <= end);
        assert(last.crossing(ray, start, far) == before(whole, far));
        let found = scan(objects, ray, start, end);
        assert(found == or_else(before(whole, far), earlier));
        match found {
            None => {
                assert forall|i: int| 0 <= i < objects.len() implies (#[trigger] objects[i]).crossing(
                    ray,
                    start,
                    end,
                ) is None by {
                    if i < front.len() {
                        assert(front[i] == objects[i]);
                    }
                }
            },
            Some(h) => {
                if before(whole, far) is Some {
                    assert(objects[objects.len() - 1].crossing(ray, start, end) == Some(h));
                } else {
                    let k = choose|k: int|
                        0 <= k < front.len() && (#[trigger] front[k]).crossing(ray, start, end)
                            == Some(h);
                    assert(front[k] == objects[k]);
                }
                assert forall|i: int| 0 <= i < objects.len() implies ((
                #[trigger] objects[i]).crossing(ray, start, end) matches Some(g) ==> h.t
                    <= g.t) by {
                    if i < front.len() {
                        assert(front[i] == objects[i]);
                    }
                }
            },
        }
    }
}

/// No two hits of the members on the range lie at the same distance,
/// unless they are the same hit.
pub open spec fn no_ties<P: Hittable>(objects: Seq<P>, ray: &P::Ray, start: i64, end: i64) -> bool {
    forall|i: int, j: int|
        0 <= i < objects.len() && 0 <= j < objects.len() ==> match (
            (#[trigger] objects[i]).crossing(ray, start, end),
            (#[trigger] objects[j]).crossing(ray, start, end),
        ) {
            (Some(h), Some(g)) => h.t == g.t ==> h == g,
            _ => true,
        }
}

/// Among orderly primitives the distance that a scan finds does not depend
/// on the order of the list, nor on how often a member stands in it; and
/// where no two members are hit at the same distance, neither does the hit.
pub proof fn lemma_scan_any_order<P: Hittable>(
    a: Seq<P>,
    b: Seq<P>,
    ray: &P::Ray,
    start: i64,
    end: i64,
)
    requires
        forall|i: int| 0 <= i < a.len() ==> orderly(&#[trigger] a[i], ray),
        forall|i: int| 0 <= i < a.len() ==> b.contains(#[trigger] a[i]),
        forall|j: int| 0 <= j < b.len() ==> a.contains(#[trigger] b[j]),
    ensures
        same_distance(scan(a, ray, start, end), scan(b, ray, start, end)),
        no_ties(a, ray, start, end) ==> scan(a, ray, start, end) == scan(b, ray, start, end),
{
    assert forall|j: int| 0 <= j < b.len() implies orderly(&#[trigger] b[j], ray) by {
        let i = choose|i: int| 0 <= i < a.len() && a[i] == b[j];
        assert(orderly(&a[i], ray));
    }
    lemma_scan_finds_nearest(a, ray, start, end);
    lemma_scan_finds_nearest(b, ray, start, end);
    let x = scan(a, ray, start, end);
    let y = scan(b, ray, start, end);
    if let Some(h) = x {
        let k = choose|k: int|
            0 <= k < a.len() && (#[trigger] a[k]).crossing(ray, start, end) == Some(h);
        let j = choose|j: int| 0 <= j < b.len() && b[j] == a[k];
        assert(b[j].crossing(ray, start, end) == Some(h));
    }
    if let Some(g) = y {
        let k = choose|k: int|
            0 <= k < b.len() && (#[trigger] b[k]).crossing(ray, start, end) == Some(g);
        let i = choose|i: int| 0 <= i < a.len() && a[i] == b[k];
        assert(a[i].crossing(ray, start, end) == Some(g));
        if no_ties(a, ray, start, end) {
            let h = x->0;
            let k2 = choose|k2: int|
                0 <= k2 < a.len() && (#[trigger] a[k2]).crossing(ray, start, end) == Some(h);
            assert(a[k2].crossing(ray, start, end) == Some(h));
            assert(h.t == g.t);
            assert(h == g);
        }
    }
}

/// Among orderly primitives a scan on a shorter range only drops the
/// hit that it found where that lies beyond the new end: a list of orderly
/// primitives is orderly.
pub proof fn lemma_scan_shorter_range<P: Hittable>(
    objects: Seq<P>,
    ray: &P::Ray,
    start: i64,
    end: i64,
    nearer: i64,
)
    requires
        forall|i: int| 0 <= i < objects.len() ==> orderly(&#[trigger] objects[i], ray),
        nearer <= end,
    ensures
        scan(objects, ray, start, nearer) == before(scan(objects, ray, start, end), nearer),
    decreases objects.len(),
{
    if objects.len() > 0 {
        let front = objects.drop_last();
        let last = objects.last();
        assert forall|i: int| 0 <= i < front.len() implies orderly(&#[trigger] front[i], ray) by {
            assert(front[i] == objects[i]);
        }
        lemma_scan_shorter_range(front, ray, start, end, nearer);
        lemma_scan_finds_nearest(front, ray, start, end);
        assert(orderly(&objects[objects.len() - 1], ray));
        let whole = last.crossing(ray, start, end);
        let earlier = scan(front, ray, start, end);
        assert(last.crossing(ray, start, nearer) == before(whole, nearer));
        if let Some(h) = earlier {
            assert(last.crossing(ray, start, h.t) == before(whole, h.t));
        }
    }
}

/// The least box around a list encloses the box of each member, where
/// those are well formed.
pub proof fn lemma_join_all_encloses<P: Hittable>(acc: AABB, objects: Seq<P>, i: int)
    requires
        acc.wf(),
        forall|k: int| 0 <= k < objects.len() ==> (#[trigger] objects[k]).bounds().wf(),
        0 <= i < objects.len(),
    ensures
        join_all(acc, objects).wf(),
        join_all(acc, objects).encloses(acc),
        join_all(acc, objects).encloses(objects[i].bounds()),
    decreases objects.len(),
{
    let front = objects.drop_last();
    let last = objects[objects.len() - 1];
    assert(last.bounds().wf());
    assert forall|k: int| 0 <= k < front.len() implies (#[trigger] front[k]).bounds().wf() by {
        assert(front[k] == objects[k]);
    }
    if front.len() > 0 {
        if i < front.len() {
            lemma_join_all_encloses(acc, front, i);
            assert(front[i] == objects[i]);
        } else {
            lemma_join_all_encloses(acc, front, 0);
        }
    }
    lemma_join_encloses(join_all(acc, front), last.bounds());
}

/// A list of primitives that are orderly and bounded for a steady ray,
/// with well-formed boxes, is itself such a primitive.
pub proof fn lemma_list_is_regular<P: Hittable>(list: &HittableList<P>, ray: &P::Ray)
    requires
        steady(ray),
        forall|i: int|
            0 <= i < list.hittables@.len() ==> {
                &&& (#[trigger] list.hittables@[i]).bounds().wf()
                &&& orderly(&list.hittables@[i], ray)
                &&& bounded(&list.hittables@[i], ray)
            },
    ensures
        list.bounds().wf(),
        orderly(list, ray),
        bounded(list, ray),
{
    let objects = list.hittables@;
    assert forall|start: i64, end: i64|
        (#[trigger] list.crossing(ray, start, end)) is Some implies start <= list.crossing(
        ray,
        start,
        end,
    )->0.t < end by {
        lemma_scan_finds_nearest(objects, ray, start, end);
    }
    assert forall|start: i64, end: i64, nearer: i64| nearer <= end implies #[trigger] list.crossing(
        ray,
        start,
        nearer,
    ) == before(#[trigger] list.crossing(ray, start, end), nearer) by {
        lemma_scan_shorter_range(objects, ray, start, end, nearer);
    }
    if objects.len() > 0 {
        lemma_join_all_encloses(objects[0].bounds(), objects, 0);
    }
    assert forall|start: i64, end: i64|
        (#[trigger] list.crossing(ray, start, end)) is Some implies list.bounds().meets(
        ray,
        start,
        end,
    ) by {
        lemma_scan_finds_nearest(objects, ray, start, end);
        let h = list.crossing(ray, start, end)->0;
        let k = choose|k: int|
            0 <= k < objects.len() && (#[trigger] objects[k]).crossing(ray, start, end) == Some(h);
        lemma_join_all_encloses(objects[0].bounds(), objects, k);
        assert(bounded(&objects[k], ray));
        lemma_enclosing_box_meets(list.bounds(), objects[k].bounds(), ray, start, end, end);
    }
}

} // verus!
