//! The k-d tree over triangles: types, well-formedness, and the
//! surface-area-heuristic builder.
//!
//! A node either stores triangles (a leaf) or splits space by an
//! axis-aligned plane.  A triangle whose extent reaches into both
//! half-spaces is duplicated into both children; that duplication is a
//! correctness requirement, and the well-formedness predicate below pins
//! it down: any face of a subtree that reaches the near side of a split
//! must be present in the near child.  The traversal's nearest-hit proof
//! rests on exactly this.

use crate::aabb::{box_wf, spec_surface_area, AxisAlignedBoundingBox};
use crate::face::{face_ok, Face};
use crate::vector::{sv_axis, Vec3, BOX_MAX};
use vstd::prelude::*;

verus! {

/// Most triangles a build accepts; keeps the cost arithmetic in range.
pub const FACES_MAX: usize = 1_000_000;

/// A leaf is emitted once a node holds this many triangles or fewer.
/// Chosen for per-object trees; the cost model below decides everything
/// above it.
pub const LEAF_THRESHOLD: usize = 15;

/// Cost charged per triangle test in the split cost model.
pub const ISECT_COST: i128 = 80;

/// Cost charged per traversal step in the split cost model.
pub const TRAVERSAL_COST: i128 = 1;

/// Why a leaf was emitted rather than split further.
#[derive(Clone, Copy, Debug, PartialEq, Eq, Structural)]
pub enum LeafReason {
    /// At most `LEAF_THRESHOLD` triangles were left.
    SmallEnough,
    /// The depth budget ran out.
    DepthExhausted,
    /// No axis offered a split strictly inside the bounds.
    NoSplit,
    /// The cost model refused the split repeatedly.
    CostForced,
}

/// A node of the spatial tree.
pub enum KDTree {
    Leaf { faces: Vec<Face>, reason: LeafReason },
    Internal {
        split_axis: usize,
        split_distance: i64,
        left_child: Box<KDTree>,
        right_child: Box<KDTree>,
    },
}

/// Membership of a face in a sequence.
pub open spec fn contains_face(s: Seq<Face>, f: Face) -> bool {
    exists|i: int| 0 <= i < s.len() && s[i] == f
}

/// The face's extent collapses onto the split plane itself.
pub open spec fn flat_on(f: Face, axis: int, split: int) -> bool {
    sv_axis(f.bounds.minimum@, axis) == split && sv_axis(f.bounds.maximum@, axis) == split
}

/// The face's extent reaches the half-space below the split (or sits
/// exactly on the plane), so it belongs in the left child.
pub open spec fn goes_left(f: Face, axis: int, split: int) -> bool {
    sv_axis(f.bounds.minimum@, axis) < split || flat_on(f, axis, split)
}

/// The face's extent reaches the half-space above the split (or sits
/// exactly on the plane), so it belongs in the right child.
pub open spec fn goes_right(f: Face, axis: int, split: int) -> bool {
    sv_axis(f.bounds.maximum@, axis) > split || flat_on(f, axis, split)
}

/// The two boxes overlap (share at least a point), componentwise.
pub open spec fn overlaps(a: AxisAlignedBoundingBox, b: AxisAlignedBoundingBox) -> bool {
    &&& a.minimum.x <= b.maximum.x && b.minimum.x <= a.maximum.x
    &&& a.minimum.y <= b.maximum.y && b.minimum.y <= a.maximum.y
    &&& a.minimum.z <= b.maximum.z && b.minimum.z <= a.maximum.z
}

/// `v` with the component on `axis` replaced.
pub open spec fn with_axis(v: Vec3, axis: int, value: int) -> Vec3 {
    Vec3 {
        x: if axis == 0 { value as i64 } else { v.x },
        y: if axis == 1 { value as i64 } else { v.y },
        z: if axis == 2 { value as i64 } else { v.z },
    }
}

/// The left child's bounds: the parent clipped at the split plane.
pub open spec fn clip_left(b: AxisAlignedBoundingBox, axis: int, split: int) -> AxisAlignedBoundingBox {
    AxisAlignedBoundingBox { minimum: b.minimum, maximum: with_axis(b.maximum, axis, split) }
}

/// The right child's bounds.
pub open spec fn clip_right(b: AxisAlignedBoundingBox, axis: int, split: int) -> AxisAlignedBoundingBox {
    AxisAlignedBoundingBox { minimum: with_axis(b.minimum, axis, split), maximum: b.maximum }
}

impl KDTree {
    /// Every triangle stored in the subtree, leaves left to right.
    pub open spec fn faces_seq(self) -> Seq<Face>
        decreases self,
    {
        match self {
            KDTree::Leaf { faces, .. } => faces@,
            KDTree::Internal { left_child, right_child, .. } => left_child.faces_seq()
                + right_child.faces_seq(),
        }
    }

    /// Well-formedness: valid axes, faces on the grid with exact cached
    /// boxes, and the straddling discipline — every face of the subtree
    /// whose extent reaches a side of the split is present in that child.
    pub open spec fn wf(self) -> bool
        decreases self,
    {
        match self {
            KDTree::Leaf { faces, .. } => forall|i: int|
                0 <= i < faces@.len() ==> face_ok(#[trigger] faces@[i]),
            KDTree::Internal { split_axis, split_distance, left_child, right_child } => {
                &&& split_axis < 3
                &&& -BOX_MAX <= split_distance <= BOX_MAX
                &&& left_child.wf()
                &&& right_child.wf()
                &&& forall|f: Face|
                    #![trigger contains_face(right_child.faces_seq(), f)]
                    contains_face(right_child.faces_seq(), f) && goes_left(
                        f,
                        split_axis as int,
                        split_distance as int,
                    ) ==> contains_face(left_child.faces_seq(), f)
                &&& forall|f: Face|
                    #![trigger contains_face(left_child.faces_seq(), f)]
                    contains_face(left_child.faces_seq(), f) && goes_right(
                        f,
                        split_axis as int,
                        split_distance as int,
                    ) ==> contains_face(right_child.faces_seq(), f)
            },
        }
    }

    /// The clipped-bounds discipline: every leaf face overlaps the box
    /// that the ancestor chain of split planes leaves for that leaf.
    pub open spec fn wf_bounded(self, b: AxisAlignedBoundingBox) -> bool
        decreases self,
    {
        match self {
            KDTree::Leaf { faces, .. } => forall|i: int|
                0 <= i < faces@.len() ==> overlaps((#[trigger] faces@[i]).bounds, b),
            KDTree::Internal { split_axis, split_distance, left_child, right_child } => {
                &&& sv_axis(b.minimum@, split_axis as int) <= split_distance as int <= sv_axis(
                    b.maximum@,
                    split_axis as int,
                )
                &&& left_child.wf_bounded(clip_left(b, split_axis as int, split_distance as int))
                &&& right_child.wf_bounded(clip_right(b, split_axis as int, split_distance as int))
            },
        }
    }

    /// Every leaf that was emitted for being small really is small.
    pub open spec fn leaves_ok(self) -> bool
        decreases self,
    {
        match self {
            KDTree::Leaf { faces, reason } => reason == LeafReason::SmallEnough
                ==> faces@.len() <= LEAF_THRESHOLD,
            KDTree::Internal { left_child, right_child, .. } => left_child.leaves_ok()
                && right_child.leaves_ok(),
        }
    }
}

/// Membership in a concatenation is membership in either part.
pub proof fn lemma_contains_concat(a: Seq<Face>, b: Seq<Face>, f: Face)
    ensures
        contains_face(a + b, f) <==> contains_face(a, f) || contains_face(b, f),
{
    if contains_face(a, f) {
        let i = choose|i: int| 0 <= i < a.len() && a[i] == f;
        assert((a + b)[i] == f);
    }
    if contains_face(b, f) {
        let i = choose|i: int| 0 <= i < b.len() && b[i] == f;
        assert((a + b)[a.len() + i] == f);
    }
    if contains_face(a + b, f) {
        let i = choose|i: int| 0 <= i < (a + b).len() && (a + b)[i] == f;
        if i < a.len() {
            assert(a[i] == f);
        } else {
            assert(b[i - a.len()] == f);
        }
    }
}

/// Every face of a well-formed subtree is well-formed.
pub proof fn lemma_tree_faces_ok(t: KDTree)
    requires
        t.wf(),
    ensures
        forall|i: int| 0 <= i < t.faces_seq().len() ==> face_ok(#[trigger] t.faces_seq()[i]),
    decreases t,
{
    match t {
        KDTree::Leaf { .. } => {},
        KDTree::Internal { left_child, right_child, .. } => {
            lemma_tree_faces_ok(*left_child);
            lemma_tree_faces_ok(*right_child);
            assert forall|i: int| 0 <= i < t.faces_seq().len() implies face_ok(
                #[trigger] t.faces_seq()[i],
            ) by {
                if i < left_child.faces_seq().len() {
                    assert(t.faces_seq()[i] == left_child.faces_seq()[i]);
                } else {
                    assert(t.faces_seq()[i] == right_child.faces_seq()[
                        i - left_child.faces_seq().len()
                    ]);
                }
            }
        },
    }
}

/// Every face of the subtree overlaps the subtree's bounds; straddling
/// duplication never moves a face outside the box the ancestor chain of
/// split planes assigns to it.
pub proof fn lemma_faces_overlap_bounds(t: KDTree, b: AxisAlignedBoundingBox)
    requires
        t.wf_bounded(b),
    ensures
        forall|i: int|
            0 <= i < t.faces_seq().len() ==> overlaps((#[trigger] t.faces_seq()[i]).bounds, b),
    decreases t,
{
    match t {
        KDTree::Leaf { .. } => {},
        KDTree::Internal { split_axis, split_distance, left_child, right_child } => {
            let bl = clip_left(b, split_axis as int, split_distance as int);
            let br = clip_right(b, split_axis as int, split_distance as int);
            lemma_faces_overlap_bounds(*left_child, bl);
            lemma_faces_overlap_bounds(*right_child, br);
            assert forall|i: int| 0 <= i < t.faces_seq().len() implies overlaps(
                (#[trigger] t.faces_seq()[i]).bounds,
                b,
            ) by {
                if i < left_child.faces_seq().len() {
                    assert(t.faces_seq()[i] == left_child.faces_seq()[i]);
                    assert(overlaps(left_child.faces_seq()[i].bounds, bl));
                } else {
                    let j = i - left_child.faces_seq().len();
                    assert(t.faces_seq()[i] == right_child.faces_seq()[j]);
                    assert(overlaps(right_child.faces_seq()[j].bounds, br));
                }
            }
        },
    }
}

/// A build-time edge event: the start or end of one triangle's extent
/// along the candidate axis.
#[derive(Clone, Copy, Debug)]
pub enum EdgeType {
    Start,
    End,
}

#[derive(Clone, Copy, Debug)]
pub struct BoundEdge {
    pub t: i64,
    pub triangle_num: usize,
    pub edge_type: EdgeType,
}

impl BoundEdge {
    pub fn new(t: i64, triangle_num: usize, starting: bool) -> (e: BoundEdge)
        ensures
            e.t == t,
            e.triangle_num == triangle_num,
            e.edge_type == if starting {
                EdgeType::Start
            } else {
                EdgeType::End
            },
    {
        let edge_type = if starting {
            EdgeType::Start
        } else {
            EdgeType::End
        };
        BoundEdge { t, triangle_num, edge_type }
    }
}

/// Sort rank of the event kind: at equal positions, an `End` comes
/// before a `Start`, so a triangle touching the plane from below is not
/// counted on both sides.
pub open spec fn type_rank(e: BoundEdge) -> int {
    match e.edge_type {
        EdgeType::End => 0,
        EdgeType::Start => 1,
    }
}

/// The sweep order on events.
pub open spec fn edge_le(a: BoundEdge, b: BoundEdge) -> bool {
    a.t < b.t || (a.t == b.t && type_rank(a) <= type_rank(b))
}

pub open spec fn edges_sorted(s: Seq<BoundEdge>) -> bool {
    forall|i: int, j: int| 0 <= i < j < s.len() ==> edge_le(#[trigger] s[i], #[trigger] s[j])
}


/// True when the events at `j - 1` and `j` are out of order.
fn out_of_order(v: &Vec<BoundEdge>, j: usize) -> (r: bool)
    requires
        0 < j < v@.len(),
    ensures
        r == !edge_le(v@[j - 1], v@[j as int]),
{
    let a = v[j - 1];
    let b = v[j];
    if a.t < b.t {
        false
    } else if a.t > b.t {
        true
    } else {
        match (a.edge_type, b.edge_type) {
            (EdgeType::Start, EdgeType::End) => true,
            _ => false,
        }
    }
}

/// Insertion sort in the sweep order.  The order is total, so the result
/// is sorted, and the vector keeps the same multiset of events.
fn sort_edges(v: &mut Vec<BoundEdge>)
    ensures
        edges_sorted(final(v)@),
        final(v)@.to_multiset() == old(v)@.to_multiset(),
        final(v)@.len() == old(v)@.len(),
{
    let n = v.len();
    if n == 0 {
        return ;
    }
    let mut i: usize = 1;
    while i < n
        invariant
            n == v@.len(),
            1 <= i,
            v@.to_multiset() == old(v)@.to_multiset(),
            forall|a: int, b: int|
                0 <= a < b < i && b < n ==> edge_le(#[trigger] v@[a], #[trigger] v@[b]),
        decreases n - i,
    {
        let mut j: usize = i;
        while j > 0 && out_of_order(v, j)
            invariant
                n == v@.len(),
                j <= i < n,
                v@.to_multiset() == old(v)@.to_multiset(),
                forall|a: int, b: int|
                    0 <= a < b <= i && b < n && b != j ==> edge_le(
                        #[trigger] v@[a],
                        #[trigger] v@[b],
                    ),
                forall|b: int| j < b <= i ==> edge_le(v@[j as int], #[trigger] v@[b]),
            decreases j,
        {
            let prev = v[j - 1];
            let cur = v[j];
            proof {
                broadcast use vstd::multiset::group_multiset_axioms;
                broadcast use vstd::multiset::group_multiset_properties;

                let ghost before = v@;
                vstd::seq_lib::to_multiset_update(before, j - 1, cur);
                vstd::seq_lib::to_multiset_update(before.update(j - 1, cur), j as int, prev);
                vstd::seq_lib::to_multiset_contains(before, prev);
                vstd::seq_lib::to_multiset_contains(before.update(j - 1, cur), cur);
                assert(before.update(j - 1, cur)[j as int] == cur);
                assert(before.update(j - 1, cur).update(j as int, prev).to_multiset()
                    =~= before.to_multiset());
            }
            v.set(j - 1, cur);
            v.set(j, prev);
            j = j - 1;
        }
        proof {
            assert forall|a: int, b: int| 0 <= a < b <= i as int && b < n implies edge_le(
                v@[a],
                v@[b],
            ) by {
                if b == j as int && j > 0 {
                    assert(edge_le(v@[j - 1], v@[j as int]));
                    if a < j - 1 {
                        assert(edge_le(v@[a], v@[j - 1]));
                    }
                }
            }
        }
        i = i + 1;
    }
}

/// Starts among the first `i` events.
pub open spec fn count_starts(s: Seq<BoundEdge>, i: int) -> int
    decreases i,
{
    if i <= 0 {
        0
    } else {
        count_starts(s, i - 1) + if s[i - 1].edge_type is Start {
            1int
        } else {
            0int
        }
    }
}

/// Ends among the first `i` events.
pub open spec fn count_ends(s: Seq<BoundEdge>, i: int) -> int
    decreases i,
{
    if i <= 0 {
        0
    } else {
        count_ends(s, i - 1) + if s[i - 1].edge_type is End {
            1int
        } else {
            0int
        }
    }
}

/// An event position usable as a split: strictly inside the bounds.
pub open spec fn valid_split(s: Seq<BoundEdge>, b: AxisAlignedBoundingBox, axis: int, i: int) -> bool {
    sv_axis(b.minimum@, axis) < s[i].t as int && (s[i].t as int) < sv_axis(b.maximum@, axis)
}

/// The cost of splitting at event `i`, scaled by four times the parent
/// surface area so it stays an integer: a traversal charge plus, for
/// each side, its triangle count weighted by its surface area.  A side
/// left empty earns a bonus of three quarters, hence the factor one in
/// place of four.
pub open spec fn sweep_cost(
    s: Seq<BoundEdge>,
    b: AxisAlignedBoundingBox,
    axis: int,
    n: int,
    i: int,
) -> int {
    let d0 = sv_axis(b.maximum@, (axis + 1) % 3) - sv_axis(b.minimum@, (axis + 1) % 3);
    let d1 = sv_axis(b.maximum@, (axis + 2) % 3) - sv_axis(b.minimum@, (axis + 2) % 3);
    let below_sa = 2 * (d0 * d1 + (s[i].t as int - sv_axis(b.minimum@, axis)) * (d0 + d1));
    let above_sa = 2 * (d0 * d1 + (sv_axis(b.maximum@, axis) - s[i].t as int) * (d0 + d1));
    let nb = count_starts(s, i);
    let na = n - count_ends(s, i + 1);
    let bonus_scale: int = if na == 0 || nb == 0 {
        1
    } else {
        4
    };
    4 * spec_surface_area(b) * TRAVERSAL_COST as int + ISECT_COST as int * bonus_scale * (below_sa
        * nb + above_sa * na)
}


/// Prefix counts are bounded by the prefix length.
proof fn lemma_count_bounds(s: Seq<BoundEdge>, i: int)
    requires
        0 <= i <= s.len(),
    ensures
        0 <= count_starts(s, i) <= i,
        0 <= count_ends(s, i) <= i,
    decreases i,
{
    if i > 0 {
        lemma_count_bounds(s, i - 1);
    }
}

/// No event before `hi` lies strictly inside the bounds.
pub open spec fn no_valid_upto(s: Seq<BoundEdge>, b: AxisAlignedBoundingBox, axis: int, hi: int) -> bool {
    forall|j: int| 0 <= j < hi ==> !valid_split(s, b, axis, j)
}

/// `off` is the earliest least-cost valid event among the first `hi`.
pub open spec fn sweep_best_upto(
    s: Seq<BoundEdge>,
    b: AxisAlignedBoundingBox,
    axis: int,
    n: int,
    off: int,
    cost: int,
    hi: int,
) -> bool {
    &&& 0 <= off < hi
    &&& valid_split(s, b, axis, off)
    &&& cost == sweep_cost(s, b, axis, n, off)
    &&& forall|j: int|
        0 <= j < hi && valid_split(s, b, axis, j) ==> cost <= sweep_cost(s, b, axis, n, j)
    &&& forall|j: int|
        0 <= j < off && valid_split(s, b, axis, j) ==> cost < sweep_cost(s, b, axis, n, j)
}

/// A candidate split found by a sweep: an event offset and its cost.
#[derive(Clone, Copy, Debug)]
pub struct SweepChoice {
    pub offset: usize,
    pub cost: i128,
}

/// One sweep over the events of one axis.  Returns the earliest event of
/// least scaled cost among those strictly inside the bounds, with that
/// cost, or nothing when no event position lies strictly inside.
fn sweep_axis(events: &Vec<BoundEdge>, b: &AxisAlignedBoundingBox, axis: usize, n: usize) -> (r: Option<
    SweepChoice,
>)
    requires
        box_wf(*b),
        axis < 3,
        n <= FACES_MAX,
        events@.len() <= 2 * n,
    ensures
        r.is_some() ==> sweep_best_upto(
            events@,
            *b,
            axis as int,
            n as int,
            r.unwrap().offset as int,
            r.unwrap().cost as int,
            events@.len() as int,
        ),
        r.is_none() ==> no_valid_upto(events@, *b, axis as int, events@.len() as int),
{
    let len = events.len();
    let total_sa = b.surface_area();
    let oa0 = (axis + 1) % 3;
    let oa1 = (axis + 2) % 3;
    let d0 = b.maximum.get(oa0) - b.minimum.get(oa0);
    let d1 = b.maximum.get(oa1) - b.minimum.get(oa1);
    let mn = b.minimum.get(axis);
    let mx = b.maximum.get(axis);
    proof {
        assert(oa0 as int == (axis as int + 1) % 3);
        assert(oa1 as int == (axis as int + 2) % 3);
    }
    let mut number_below: i64 = 0;
    let mut number_above: i64 = n as i64;
    let mut best: Option<SweepChoice> = None;
    let mut i: usize = 0;
    while i < len
        invariant
            box_wf(*b),
            axis < 3,
            n <= FACES_MAX,
            len == events@.len(),
            events@.len() <= 2 * n,
            i <= len,
            oa0 as int == (axis as int + 1) % 3,
            oa1 as int == (axis as int + 2) % 3,
            oa0 < 3 && oa1 < 3,
            d0 as int == sv_axis(b.maximum@, oa0 as int) - sv_axis(b.minimum@, oa0 as int),
            d1 as int == sv_axis(b.maximum@, oa1 as int) - sv_axis(b.minimum@, oa1 as int),
            0 <= d0 <= 2 * BOX_MAX && 0 <= d1 <= 2 * BOX_MAX,
            mn as int == sv_axis(b.minimum@, axis as int),
            mx as int == sv_axis(b.maximum@, axis as int),
            total_sa as int == spec_surface_area(*b),
            0 <= total_sa,
            number_below as int == count_starts(events@, i as int),
            number_above as int == n - count_ends(events@, i as int),
            best.is_some() ==> sweep_best_upto(
                events@,
                *b,
                axis as int,
                n as int,
                best.unwrap().offset as int,
                best.unwrap().cost as int,
                i as int,
            ),
            best.is_none() ==> no_valid_upto(events@, *b, axis as int, i as int),
        decreases len - i,
    {
        proof {
            lemma_count_bounds(events@, i as int);
            lemma_count_bounds(events@, i as int + 1);
        }
        let e = events[i];
        match e.edge_type {
            EdgeType::End => {
                number_above = number_above - 1;
            },
            EdgeType::Start => {},
        }
        if e.t > mn && e.t < mx {
            proof {
                crate::ratio::lemma_abs_mul(d0 as int, d1 as int, 2 * BOX_MAX as int, 2 * BOX_MAX as int);
                crate::ratio::lemma_abs_mul(
                    (e.t - mn) as int,
                    (d0 + d1) as int,
                    2 * BOX_MAX as int,
                    4 * BOX_MAX as int,
                );
                crate::ratio::lemma_abs_mul(
                    (mx - e.t) as int,
                    (d0 + d1) as int,
                    2 * BOX_MAX as int,
                    4 * BOX_MAX as int,
                );
            }
            let below_sa: i128 = 2 * ((d0 as i128) * (d1 as i128) + ((e.t - mn) as i128) * ((d0
                + d1) as i128));
            let above_sa: i128 = 2 * ((d0 as i128) * (d1 as i128) + ((mx - e.t) as i128) * ((d0
                + d1) as i128));
            let scale: i128 = if number_above == 0 || number_below == 0 {
                1
            } else {
                4
            };
            proof {
                crate::ratio::lemma_abs_mul(
                    below_sa as int,
                    number_below as int,
                    0x10_0000_0000 as int,
                    2 * FACES_MAX as int,
                );
                crate::ratio::lemma_abs_mul(
                    above_sa as int,
                    number_above as int,
                    0x10_0000_0000 as int,
                    2 * FACES_MAX as int,
                );
            }
            let weighted: i128 = below_sa * (number_below as i128) + above_sa * (number_above
                as i128);
            proof {
                crate::ratio::lemma_abs_mul(
                    ISECT_COST as int * scale as int,
                    weighted as int,
                    320,
                    0x1_0000_0000_0000_0000 as int,
                );
            }
            let cost: i128 = 4 * (total_sa as i128) * TRAVERSAL_COST + ISECT_COST * scale
                * weighted;
            proof {
                assert(cost as int == sweep_cost(events@, *b, axis as int, n as int, i as int));
            }
            let better = match best {
                None => true,
                Some(b) => cost < b.cost,
            };
            if better {
                best = Some(SweepChoice { offset: i, cost });
            }
        }
        match e.edge_type {
            EdgeType::Start => {
                number_below = number_below + 1;
            },
            EdgeType::End => {},
        }
        i = i + 1;
    }
    best
}

/// Pushing preserves and extends membership.
pub proof fn lemma_contains_push(s: Seq<Face>, x: Face, y: Face)
    ensures
        contains_face(s.push(x), y) <==> (contains_face(s, y) || x == y),
{
    if contains_face(s, y) {
        let i = choose|i: int| 0 <= i < s.len() && s[i] == y;
        assert(s.push(x)[i] == y);
    }
    assert(s.push(x)[s.len() as int] == x);
    if contains_face(s.push(x), y) {
        let i = choose|i: int| 0 <= i < s.push(x).len() && s.push(x)[i] == y;
        if i < s.len() {
            assert(s[i] == y);
        }
    }
}

/// The surface area of a well-formed box is small and nonnegative.
proof fn lemma_surface_area_bound(b: AxisAlignedBoundingBox)
    requires
        box_wf(b),
    ensures
        0 <= spec_surface_area(b) <= 0x10_0000_0000,
{
    let dx = b.maximum.x - b.minimum.x;
    let dy = b.maximum.y - b.minimum.y;
    let dz = b.maximum.z - b.minimum.z;
    assert(0 <= dx * dy <= 0x4000_0000 && 0 <= dx * dz <= 0x4000_0000 && 0 <= dy * dz
        <= 0x4000_0000) by (nonlinear_arith)
        requires
            0 <= dx <= 0x8000,
            0 <= dy <= 0x8000,
            0 <= dz <= 0x8000,
    ;
}

/// A well-formed face reaches at least one side of any plane.
proof fn lemma_goes_somewhere(f: Face, axis: int, split: int)
    requires
        face_ok(f),
        0 <= axis < 3,
    ensures
        goes_left(f, axis, split) || goes_right(f, axis, split),
{
}

/// The axis/split/cost choice one build step settles on.
struct SplitChoice {
    axis: usize,
    split: i64,
    cost: i128,
}

impl KDTree {
    /// Builds a subtree by recursive cost-driven splitting.
    ///
    /// Small or exhausted inputs become leaves.  Otherwise the extent's
    /// longest axis is swept for the cheapest split (trying the other two
    /// axes if none is strictly inside the bounds), the split is compared
    /// against the cost of not splitting at all, and on success every
    /// triangle goes into each child whose half-space its extent reaches —
    /// a straddling triangle into both.
    ///
    /// The result is well-formed, clipped to the given bounds, holds
    /// exactly the faces given, and oversized leaves arise only from an
    /// exhausted depth budget or a refused split.
    pub fn build_sah(faces: Vec<Face>, depth: u32, bounds: AxisAlignedBoundingBox, bad_refines: u32) -> (t: KDTree)
        requires
            box_wf(bounds),
            bad_refines <= 3,
            faces@.len() <= FACES_MAX,
            forall|i: int| 0 <= i < faces@.len() ==> face_ok(#[trigger] faces@[i]),
            forall|i: int| 0 <= i < faces@.len() ==> overlaps((#[trigger] faces@[i]).bounds, bounds),
        ensures
            t.wf(),
            t.wf_bounded(bounds),
            t.leaves_ok(),
            forall|f: Face| contains_face(t.faces_seq(), f) ==> contains_face(faces@, f),
            forall|f: Face| contains_face(faces@, f) ==> contains_face(t.faces_seq(), f),
        decreases depth,
    {
        let n = faces.len();
        if n <= LEAF_THRESHOLD {
            return KDTree::Leaf { faces, reason: LeafReason::SmallEnough };
        }
        if depth == 0 {
            return KDTree::Leaf { faces, reason: LeafReason::DepthExhausted };
        }
        let mut axis = bounds.maximum_extent() as usize;
        let mut choice: Option<SplitChoice> = None;
        let mut attempt: usize = 0;
        while attempt < 3 && choice.is_none()
            invariant
                box_wf(bounds),
                n == faces@.len(),
                n <= FACES_MAX,
                axis < 3,
                forall|i: int| 0 <= i < faces@.len() ==> face_ok(#[trigger] faces@[i]),
                choice.is_some() ==> choice.unwrap().axis < 3,
                choice.is_some() ==> sv_axis(bounds.minimum@, choice.unwrap().axis as int)
                    < choice.unwrap().split as int,
                choice.is_some() ==> (choice.unwrap().split as int) < sv_axis(
                    bounds.maximum@,
                    choice.unwrap().axis as int,
                ),
            decreases 3 - attempt,
        {
            let mut events: Vec<BoundEdge> = Vec::new();
            let mut k: usize = 0;
            while k < n
                invariant
                    n == faces@.len(),
                    axis < 3,
                    k <= n,
                    events@.len() == 2 * k,
                decreases n - k,
            {
                let fb = &faces[k].bounds;
                events.push(BoundEdge::new(fb.minimum.get(axis), k, true));
                events.push(BoundEdge::new(fb.maximum.get(axis), k, false));
                k = k + 1;
            }
            sort_edges(&mut events);
            match sweep_axis(&events, &bounds, axis, n) {
                Some(c) => {
                    let split = events[c.offset].t;
                    choice = Some(SplitChoice { axis, split, cost: c.cost });
                },
                None => {
                    axis = (axis + 1) % 3;
                },
            }
            attempt = attempt + 1;
        }
        let c = match choice {
            None => {
                return KDTree::Leaf { faces, reason: LeafReason::NoSplit };
            },
            Some(c) => c,
        };
        let total_sa = bounds.surface_area();
        proof {
            lemma_surface_area_bound(bounds);
        }
        let base: i128 = 4 * (total_sa as i128) * ISECT_COST;
        proof {
            crate::ratio::lemma_abs_mul(base as int, n as int, 0x2000_0000_0000, FACES_MAX as int);
        }
        let old_scaled: i128 = base * (n as i128);
        let mut b_refines = bad_refines;
        if c.cost > old_scaled {
            b_refines = b_refines + 1;
        }
        if (c.cost > 4 * old_scaled && n < 16) || b_refines >= 3 {
            return KDTree::Leaf { faces, reason: LeafReason::CostForced };
        }
        let axis = c.axis;
        let split = c.split;
        let mut left_faces: Vec<Face> = Vec::new();
        let mut right_faces: Vec<Face> = Vec::new();
        let mut k: usize = 0;
        while k < n
            invariant
                n == faces@.len(),
                axis < 3,
                k <= n,
                left_faces@.len() <= k,
                right_faces@.len() <= k,
                forall|i: int| 0 <= i < faces@.len() ==> face_ok(#[trigger] faces@[i]),
                forall|j: int|
                    0 <= j < left_faces@.len() ==> contains_face(faces@, #[trigger] left_faces@[j]),
                forall|j: int|
                    0 <= j < left_faces@.len() ==> goes_left(
                        #[trigger] left_faces@[j],
                        axis as int,
                        split as int,
                    ),
                forall|j: int|
                    0 <= j < right_faces@.len() ==> contains_face(
                        faces@,
                        #[trigger] right_faces@[j],
                    ),
                forall|j: int|
                    0 <= j < right_faces@.len() ==> goes_right(
                        #[trigger] right_faces@[j],
                        axis as int,
                        split as int,
                    ),
                forall|i: int|
                    0 <= i < k && goes_left(#[trigger] faces@[i], axis as int, split as int)
                        ==> contains_face(left_faces@, faces@[i]),
                forall|i: int|
                    0 <= i < k && goes_right(#[trigger] faces@[i], axis as int, split as int)
                        ==> contains_face(right_faces@, faces@[i]),
            decreases n - k,
        {
            let f = faces[k];
            let mn = f.bounds.minimum.get(axis);
            let mx = f.bounds.maximum.get(axis);
            let flat = mn == split && mx == split;
            let ghost old_left = left_faces@;
            let ghost old_right = right_faces@;
            if mn < split || flat {
                left_faces.push(f);
            }
            if mx > split || flat {
                right_faces.push(f);
            }
            proof {
                assert forall|y: Face| contains_face(old_left, y) implies contains_face(
                    left_faces@,
                    y,
                ) by {
                    if left_faces@.len() > old_left.len() {
                        lemma_contains_push(old_left, f, y);
                    }
                }
                assert forall|y: Face| contains_face(old_right, y) implies contains_face(
                    right_faces@,
                    y,
                ) by {
                    if right_faces@.len() > old_right.len() {
                        lemma_contains_push(old_right, f, y);
                    }
                }
                if mn < split || flat {
                    lemma_contains_push(old_left, f, f);
                }
                if mx > split || flat {
                    lemma_contains_push(old_right, f, f);
                }
            }
            k = k + 1;
        }
        // Clip the bounds at the split plane for each child.
        let mut lmax = bounds.maximum;
        lmax.set(axis, split);
        let bl = AxisAlignedBoundingBox::new(bounds.minimum, lmax);
        let mut rmin = bounds.minimum;
        rmin.set(axis, split);
        let br = AxisAlignedBoundingBox::new(rmin, bounds.maximum);
        proof {
            assert(sv_axis(lmax@, 1) == sv_axis(bounds.maximum@, 1) || axis == 1);
            assert(sv_axis(lmax@, 0) == sv_axis(bounds.maximum@, 0) || axis == 0);
            assert(sv_axis(lmax@, 2) == sv_axis(bounds.maximum@, 2) || axis == 2);
            assert(sv_axis(rmin@, 1) == sv_axis(bounds.minimum@, 1) || axis == 1);
            assert(sv_axis(rmin@, 0) == sv_axis(bounds.minimum@, 0) || axis == 0);
            assert(sv_axis(rmin@, 2) == sv_axis(bounds.minimum@, 2) || axis == 2);
            if axis == 0 {
                assert(lmax.x == split && lmax.y == bounds.maximum.y && lmax.z == bounds.maximum.z);
                assert(rmin.x == split && rmin.y == bounds.minimum.y && rmin.z == bounds.minimum.z);
                assert(lmax == with_axis(bounds.maximum, 0, split as int));
                assert(rmin == with_axis(bounds.minimum, 0, split as int));
            } else if axis == 1 {
                assert(lmax.y == split && lmax.x == bounds.maximum.x && lmax.z == bounds.maximum.z);
                assert(rmin.y == split && rmin.x == bounds.minimum.x && rmin.z == bounds.minimum.z);
                assert(lmax == with_axis(bounds.maximum, 1, split as int));
                assert(rmin == with_axis(bounds.minimum, 1, split as int));
            } else {
                assert(lmax.z == split && lmax.x == bounds.maximum.x && lmax.y == bounds.maximum.y);
                assert(rmin.z == split && rmin.x == bounds.minimum.x && rmin.y == bounds.minimum.y);
                assert(lmax == with_axis(bounds.maximum, 2, split as int));
                assert(rmin == with_axis(bounds.minimum, 2, split as int));
            }
            assert(bl == clip_left(bounds, axis as int, split as int));
            assert(br == clip_right(bounds, axis as int, split as int));
            assert(box_wf(bl));
            assert(box_wf(br));
            assert forall|j: int| 0 <= j < left_faces@.len() implies overlaps(
                (#[trigger] left_faces@[j]).bounds,
                bl,
            ) by {
                let y = left_faces@[j];
                let i = choose|i: int| 0 <= i < faces@.len() && faces@[i] == y;
                assert(overlaps(faces@[i].bounds, bounds));
            }
            assert forall|j: int| 0 <= j < right_faces@.len() implies overlaps(
                (#[trigger] right_faces@[j]).bounds,
                br,
            ) by {
                let y = right_faces@[j];
                let i = choose|i: int| 0 <= i < faces@.len() && faces@[i] == y;
                assert(overlaps(faces@[i].bounds, bounds));
            }
            assert forall|j: int| 0 <= j < left_faces@.len() implies face_ok(
                #[trigger] left_faces@[j],
            ) by {
                let y = left_faces@[j];
                let i = choose|i: int| 0 <= i < faces@.len() && faces@[i] == y;
            }
            assert forall|j: int| 0 <= j < right_faces@.len() implies face_ok(
                #[trigger] right_faces@[j],
            ) by {
                let y = right_faces@[j];
                let i = choose|i: int| 0 <= i < faces@.len() && faces@[i] == y;
            }
        }
        let ghost left_view = left_faces@;
        let ghost right_view = right_faces@;
        let lt = Self::build_sah(left_faces, depth - 1, bl, b_refines);
        let rt = Self::build_sah(right_faces, depth - 1, br, b_refines);
        let t = KDTree::Internal {
            split_axis: axis,
            split_distance: split,
            left_child: Box::new(lt),
            right_child: Box::new(rt),
        };
        proof {
            let ax = axis as int;
            let sp = split as int;
            assert(t.faces_seq() == lt.faces_seq() + rt.faces_seq());
            assert forall|f: Face|
                contains_face(rt.faces_seq(), f) && goes_left(f, ax, sp) implies contains_face(
                lt.faces_seq(),
                f,
            ) by {
                assert(contains_face(right_view, f));
                let i = choose|i: int| 0 <= i < faces@.len() && faces@[i] == f;
                assert(contains_face(left_view, faces@[i]));
            }
            assert forall|f: Face|
                contains_face(lt.faces_seq(), f) && goes_right(f, ax, sp) implies contains_face(
                rt.faces_seq(),
                f,
            ) by {
                assert(contains_face(left_view, f));
                let i = choose|i: int| 0 <= i < faces@.len() && faces@[i] == f;
                assert(contains_face(right_view, faces@[i]));
            }
            assert(t.wf());
            assert(t.wf_bounded(bounds));
            assert forall|f: Face| contains_face(t.faces_seq(), f) implies contains_face(
                faces@,
                f,
            ) by {
                lemma_contains_concat(lt.faces_seq(), rt.faces_seq(), f);
            }
            assert forall|f: Face| contains_face(faces@, f) implies contains_face(
                t.faces_seq(),
                f,
            ) by {
                let i = choose|i: int| 0 <= i < faces@.len() && faces@[i] == f;
                lemma_goes_somewhere(f, ax, sp);
                lemma_contains_concat(lt.faces_seq(), rt.faces_seq(), f);
            }
        }
        t
    }
}


/// Grid steps of slack added around a mesh's overall bounding box.
pub const BOUNDS_PADDING: i64 = 1;

impl KDTree {
    /// Builds a tree for a whole triangle list: the usual depth budget of
    /// eight plus one-and-three-tenths times the list size's logarithm,
    /// then the cost-driven splitter.  An empty list yields no tree.
    pub fn build(faces: Vec<Face>, bounds: AxisAlignedBoundingBox) -> (r: Option<KDTree>)
        requires
            box_wf(bounds),
            faces@.len() <= FACES_MAX,
            forall|i: int| 0 <= i < faces@.len() ==> face_ok(#[trigger] faces@[i]),
            forall|i: int| 0 <= i < faces@.len() ==> overlaps((#[trigger] faces@[i]).bounds, bounds),
        ensures
            r.is_none() <==> faces@.len() == 0,
            r.is_some() ==> r.unwrap().wf(),
            r.is_some() ==> r.unwrap().wf_bounded(bounds),
            r.is_some() ==> r.unwrap().leaves_ok(),
            r.is_some() ==> forall|f: Face|
                contains_face(r.unwrap().faces_seq(), f) ==> contains_face(faces@, f),
            r.is_some() ==> forall|f: Face|
                contains_face(faces@, f) ==> contains_face(r.unwrap().faces_seq(), f),
    {
        if faces.len() == 0 {
            return None;
        }
        let mut m = faces.len();
        let mut lg: u32 = 0;
        while m > 1 && lg < 64
            invariant
                lg <= 64,
                m >= 1,
            decreases m,
        {
            m = m / 2;
            lg = lg + 1;
        }
        let depth = 8 + (13 * lg) / 10;
        Some(Self::build_sah(faces, depth, bounds, 0))
    }
}

/// Assembles faces from an indexed triangle soup — positions, texture
/// coordinates and vertex normals, indexed in groups of three — and the
/// padded box around all of them.  The caller guarantees the indices are
/// in range; scene loading checks that before handing the soup over.
pub fn build_from_obj(
    positions: &Vec<Vec3>,
    uvs: &Vec<crate::face::UVCoord>,
    normals: &Vec<Vec3>,
    indices: &Vec<u32>,
) -> (r: (Vec<Face>, AxisAlignedBoundingBox))
    requires
        indices@.len() % 3 == 0,
        indices@.len() <= 3 * FACES_MAX,
        forall|i: int|
            0 <= i < indices@.len() ==> (#[trigger] indices@[i]) < positions@.len() && indices@[i]
                < uvs@.len() && indices@[i] < normals@.len(),
        forall|i: int|
            0 <= i < positions@.len() ==> crate::vector::sv_in_range(
                (#[trigger] positions@[i])@,
                crate::vector::COORD_MAX as int,
            ),
    ensures
        r.0@.len() == indices@.len() / 3,
        box_wf(r.1),
        forall|k: int| 0 <= k < r.0@.len() ==> face_ok(#[trigger] r.0@[k]),
        forall|k: int| 0 <= k < r.0@.len() ==> overlaps((#[trigger] r.0@[k]).bounds, r.1),
        forall|k: int|
            0 <= k < r.0@.len() ==> {
                let f = #[trigger] r.0@[k];
                &&& f.p0 == positions@[indices@[3 * k] as int]
                &&& f.p1 == positions@[indices@[3 * k + 1] as int]
                &&& f.p2 == positions@[indices@[3 * k + 2] as int]
                &&& f.uv0 == uvs@[indices@[3 * k] as int]
                &&& f.uv1 == uvs@[indices@[3 * k + 1] as int]
                &&& f.uv2 == uvs@[indices@[3 * k + 2] as int]
                &&& f.n0 == normals@[indices@[3 * k] as int]
                &&& f.n1 == normals@[indices@[3 * k + 1] as int]
                &&& f.n2 == normals@[indices@[3 * k + 2] as int]
            },
{
    let count = indices.len() / 3;
    let mut faces: Vec<Face> = Vec::new();
    let mut gmin = Vec3::new(crate::vector::COORD_MAX, crate::vector::COORD_MAX, crate::vector::COORD_MAX);
    let mut gmax = Vec3::new(-crate::vector::COORD_MAX, -crate::vector::COORD_MAX, -crate::vector::COORD_MAX);
    let mut k: usize = 0;
    while k < count
        invariant
            count == indices@.len() / 3,
            indices@.len() % 3 == 0,
            indices@.len() <= 3 * FACES_MAX,
            forall|i: int|
                0 <= i < indices@.len() ==> (#[trigger] indices@[i]) < positions@.len()
                    && indices@[i] < uvs@.len() && indices@[i] < normals@.len(),
            forall|i: int|
                0 <= i < positions@.len() ==> crate::vector::sv_in_range(
                    (#[trigger] positions@[i])@,
                    crate::vector::COORD_MAX as int,
                ),
            k <= count,
            faces@.len() == k,
            -crate::vector::COORD_MAX <= gmin.x <= crate::vector::COORD_MAX,
            -crate::vector::COORD_MAX <= gmin.y <= crate::vector::COORD_MAX,
            -crate::vector::COORD_MAX <= gmin.z <= crate::vector::COORD_MAX,
            -crate::vector::COORD_MAX <= gmax.x <= crate::vector::COORD_MAX,
            -crate::vector::COORD_MAX <= gmax.y <= crate::vector::COORD_MAX,
            -crate::vector::COORD_MAX <= gmax.z <= crate::vector::COORD_MAX,
            k >= 1 ==> gmin.x <= gmax.x && gmin.y <= gmax.y && gmin.z <= gmax.z,
            forall|j: int| 0 <= j < k ==> face_ok(#[trigger] faces@[j]),
            forall|j: int|
                0 <= j < k ==> {
                    let fb = (#[trigger] faces@[j]).bounds;
                    &&& fb.minimum.x <= gmax.x && gmin.x <= fb.maximum.x
                    &&& fb.minimum.y <= gmax.y && gmin.y <= fb.maximum.y
                    &&& fb.minimum.z <= gmax.z && gmin.z <= fb.maximum.z
                },
            forall|j: int|
                0 <= j < k ==> {
                    let f = #[trigger] faces@[j];
                    &&& f.p0 == positions@[indices@[3 * j] as int]
                    &&& f.p1 == positions@[indices@[3 * j + 1] as int]
                    &&& f.p2 == positions@[indices@[3 * j + 2] as int]
                    &&& f.uv0 == uvs@[indices@[3 * j] as int]
                    &&& f.uv1 == uvs@[indices@[3 * j + 1] as int]
                    &&& f.uv2 == uvs@[indices@[3 * j + 2] as int]
                    &&& f.n0 == normals@[indices@[3 * j] as int]
                    &&& f.n1 == normals@[indices@[3 * j + 1] as int]
                    &&& f.n2 == normals@[indices@[3 * j + 2] as int]
                },
        decreases count - k,
    {
        proof {
            assert(3 * k + 2 < indices@.len());
        }
        let i0 = indices[3 * k] as usize;
        let i1 = indices[3 * k + 1] as usize;
        let i2 = indices[3 * k + 2] as usize;
        let f = Face::new(
            positions[i0],
            positions[i1],
            positions[i2],
            uvs[i0],
            uvs[i1],
            uvs[i2],
            normals[i0],
            normals[i1],
            normals[i2],
        );
        if f.bounds.minimum.x < gmin.x {
            gmin.x = f.bounds.minimum.x;
        }
        if f.bounds.minimum.y < gmin.y {
            gmin.y = f.bounds.minimum.y;
        }
        if f.bounds.minimum.z < gmin.z {
            gmin.z = f.bounds.minimum.z;
        }
        if f.bounds.maximum.x > gmax.x {
            gmax.x = f.bounds.maximum.x;
        }
        if f.bounds.maximum.y > gmax.y {
            gmax.y = f.bounds.maximum.y;
        }
        if f.bounds.maximum.z > gmax.z {
            gmax.z = f.bounds.maximum.z;
        }
        faces.push(f);
        k = k + 1;
    }
    if count == 0 {
        let zero = Vec3::new(0, 0, 0);
        return (faces, AxisAlignedBoundingBox::new(zero, zero));
    }
    let minimum = Vec3::new(
        gmin.x - BOUNDS_PADDING,
        gmin.y - BOUNDS_PADDING,
        gmin.z - BOUNDS_PADDING,
    );
    let maximum = Vec3::new(
        gmax.x + BOUNDS_PADDING,
        gmax.y + BOUNDS_PADDING,
        gmax.z + BOUNDS_PADDING,
    );
    let bbox = AxisAlignedBoundingBox::new(minimum, maximum);
    proof {
        // A nonempty soup pushed at least one face, whose extent pulled
        // the running corners into order.
        assert(faces@.len() >= 1);
        assert(face_ok(faces@[0]));
        assert(gmin.x <= gmax.x && gmin.y <= gmax.y && gmin.z <= gmax.z);
    }
    (faces, bbox)
}

} // verus!
