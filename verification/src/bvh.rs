//! The bounding volume hierarchy: construction by recursive median-style
//! splitting over an index permutation.
//!
//! The tree owns its triangle storage.  Triangles are never moved: an index
//! array the same length as the triangle array is permuted in place, and
//! every node covers a contiguous range of that array.  Node 0 is the root;
//! an internal node's two children are adjacent (`left` and `left + 1`) and
//! the descendants of a node occupy a contiguous block of node indices
//! after it, which the well-formedness predicate [`built`] tracks exactly.
//!
//! [`built`] is the heart of the query invariants: it states, for every
//! node, that the node is either a leaf over its exact range or an internal
//! node whose two children split the range into two non-empty contiguous
//! halves, and that the node's box contains every vertex of every triangle
//! referenced by its range.  [`shaped`] pins the construction itself: boxes
//! are exactly the bounding boxes of their ranges, a node stays a leaf only
//! for a stated reason, and an internal node's children are exactly the two
//! groups of the mean-centroid split heuristic on the widest axis.

use vstd::prelude::*;
use vstd::seq_lib::group_to_multiset_ensures;
use vstd::seq_lib::lemma_multiset_commutative;

use crate::aabb::AABB;
use crate::structs::Triangle;

verus! {

/// What a node is: a leaf over an index range, or an internal node whose
/// children are the node pair `left` and `left + 1`.
///
/// An explicit sum type rather than a sentinel encoding, so a node is
/// one of the two by construction and no flag value can be misread.
#[derive(Clone, Copy, Debug, PartialEq, Eq, Structural)]
pub enum NodeKind {
    Leaf { first: usize, count: usize },
    Internal { left: usize },
}

/// One node of the tree: a bounding box and the leaf/internal payload.
#[derive(Clone, Copy, Debug, PartialEq, Eq, Structural)]
pub struct BvhNode {
    pub bounds: AABB,
    pub kind: NodeKind,
}

/// The bounding volume hierarchy: the node array (node 0 is the root), the
/// index permutation, and the owned triangle storage.
pub struct Bvh {
    pub nodes: Vec<BvhNode>,
    pub indices: Vec<usize>,
    pub triangles: Vec<Triangle>,
}

/// The identity permutation `[0, 1, ..., n-1]`.
pub open spec fn ident_seq(n: int) -> Seq<usize> {
    Seq::new(n as nat, |i: int| i as usize)
}

/// Every triangle referenced by `idxs[lo..hi]` lies inside box `b`.
pub open spec fn range_in_box(
    tris: Seq<Triangle>,
    idxs: Seq<usize>,
    lo: int,
    hi: int,
    b: AABB,
) -> bool {
    forall|k: int| lo <= k < hi ==> b.contains_triangle(tris[#[trigger] idxs[k] as int])
}

/// The subtree rooted at node `i` is well formed over the index range
/// `[first, first + count)`, with all of its descendants stored in the
/// node-array block `[lo, hi)`.
///
/// For a leaf the stored range is exactly `[first, first + count)`.  For an
/// internal node the two children are `lo` and `lo + 1`; they split the
/// range at some interior point `first + m` and their own descendant
/// blocks partition `[lo + 2, hi)`.  In both cases the node's box contains
/// every triangle of the range.
pub open spec fn built(
    nodes: Seq<BvhNode>,
    tris: Seq<Triangle>,
    idxs: Seq<usize>,
    i: int,
    first: int,
    count: int,
    lo: int,
    hi: int,
) -> bool
    decreases hi - lo, 1int,
{
    &&& 0 <= i < nodes.len()
    &&& lo <= hi <= nodes.len()
    &&& 0 <= first
    &&& 0 <= count
    &&& first + count <= idxs.len()
    &&& nodes[i].bounds.wf()
    &&& range_in_box(tris, idxs, first, first + count, nodes[i].bounds)
    &&& match nodes[i].kind {
        NodeKind::Leaf { first: f, count: c } => f == first && c == count,
        NodeKind::Internal { left: l } => {
            &&& l == lo
            &&& lo + 2 <= hi
            &&& count >= 2
            &&& exists|m: int, mid: int|
                #[trigger] split_shape(count, lo, hi, m, mid) && built(
                    nodes, tris, idxs, lo, first, m, lo + 2, mid,
                ) && built(nodes, tris, idxs, lo + 1, first + m, count - m, mid, hi)
        },
    }
}

/// The shape of an interior split: the range splits at an interior point
/// `first + m`, and the descendant block `[lo, hi)` splits at `mid` after
/// the two child nodes themselves.  This carries the existential witnesses
/// of [`built`]'s internal case.
pub open spec fn split_shape(count: int, lo: int, hi: int, m: int, mid: int) -> bool {
    0 < m < count && lo + 2 <= mid <= hi
}

impl Bvh {
    /// The storage part of the invariant: the index array has one entry
    /// per triangle, every entry is in bounds, every triangle is well
    /// formed, and the triangle count fits the centroid arithmetic.
    pub open spec fn storage_wf(self) -> bool {
        &&& self.indices@.len() == self.triangles@.len()
        &&& self.triangles@.len() <= 0xFFFF_FFFF
        &&& forall|j: int| 0 <= j < self.triangles@.len() ==> (#[trigger] self.triangles@[j]).wf()
        &&& forall|k: int|
            0 <= k < self.indices@.len() ==> (#[trigger] self.indices@[k]) < self.triangles@.len()
    }

    /// The construction-shape invariant at the root: every node's box is
    /// the exact bounding box of its range, every leaf is justified (at
    /// most two triangles, the depth cap, or a one-sided split), and
    /// every internal node's children are exactly the two groups of the
    /// mean-centroid split heuristic on the widest axis.
    pub open spec fn shape_wf(self) -> bool {
        shaped(
            self.nodes@,
            self.triangles@,
            self.indices@,
            0,
            0,
            self.indices@.len() as int,
            1,
            self.nodes@.len() as int,
            0,
        )
    }

    /// The full invariant of a constructed tree: well-formed storage, the
    /// index array a permutation of the identity, and node 0 a well-built
    /// subtree covering the whole index range.
    pub open spec fn wf(self) -> bool {
        &&& self.storage_wf()
        &&& self.nodes@.len() >= 1
        &&& self.indices@.to_multiset() == ident_seq(self.triangles@.len() as int).to_multiset()
        &&& built(
            self.nodes@,
            self.triangles@,
            self.indices@,
            0,
            0,
            self.indices@.len() as int,
            1,
            self.nodes@.len() as int,
        )
    }
}

/// A built subtree only depends on its root node, its descendant block and
/// its index range: any modification elsewhere preserves it.
pub proof fn lemma_built_frame(
    nodes1: Seq<BvhNode>,
    nodes2: Seq<BvhNode>,
    tris: Seq<Triangle>,
    idxs1: Seq<usize>,
    idxs2: Seq<usize>,
    i: int,
    first: int,
    count: int,
    lo: int,
    hi: int,
)
    requires
        built(nodes1, tris, idxs1, i, first, count, lo, hi),
        nodes2.len() >= nodes1.len(),
        nodes2[i] == nodes1[i],
        forall|j: int| lo <= j < hi ==> nodes2[j] == nodes1[j],
        idxs2.len() == idxs1.len(),
        forall|k: int| first <= k < first + count ==> idxs2[k] == idxs1[k],
    ensures
        built(nodes2, tris, idxs2, i, first, count, lo, hi),
    decreases hi - lo,
{
    assert forall|k: int| first <= k < first + count implies nodes2[i].bounds.contains_triangle(
        tris[#[trigger] idxs2[k] as int],
    ) by {
        assert(idxs2[k] == idxs1[k]);
    }
    match nodes1[i].kind {
        NodeKind::Leaf { first: _, count: _ } => {},
        NodeKind::Internal { left: _ } => {
            let (m, mid): (int, int) = choose|m: int, mid: int|
                #[trigger] split_shape(count, lo, hi, m, mid) && built(
                    nodes1, tris, idxs1, lo, first, m, lo + 2, mid,
                ) && built(nodes1, tris, idxs1, lo + 1, first + m, count - m, mid, hi);
            lemma_built_frame(nodes1, nodes2, tris, idxs1, idxs2, lo, first, m, lo + 2, mid);
            lemma_built_frame(
                nodes1, nodes2, tris, idxs1, idxs2, lo + 1, first + m, count - m, mid, hi,
            );
            assert(split_shape(count, lo, hi, m, mid) && built(
                nodes2, tris, idxs2, lo, first, m, lo + 2, mid,
            ) && built(nodes2, tris, idxs2, lo + 1, first + m, count - m, mid, hi));
        },
    }
}

/// Containment of a range in a box only depends on which indices the range
/// holds, not on their order: a multiset-preserving rearrangement of the
/// range keeps it.
pub proof fn lemma_range_in_box_permuted(
    tris: Seq<Triangle>,
    idxs1: Seq<usize>,
    idxs2: Seq<usize>,
    lo: int,
    hi: int,
    b: AABB,
)
    requires
        0 <= lo <= hi <= idxs1.len(),
        idxs2.len() == idxs1.len(),
        idxs2.subrange(lo, hi).to_multiset() == idxs1.subrange(lo, hi).to_multiset(),
        range_in_box(tris, idxs1, lo, hi, b),
    ensures
        range_in_box(tris, idxs2, lo, hi, b),
{
    broadcast use group_to_multiset_ensures;

    let s1 = idxs1.subrange(lo, hi);
    let s2 = idxs2.subrange(lo, hi);
    assert forall|k: int| lo <= k < hi implies b.contains_triangle(
        tris[#[trigger] idxs2[k] as int],
    ) by {
        let v = idxs2[k];
        assert(s2[k - lo] == v);
        assert(s2.contains(v));
        assert(s2.to_multiset().count(v) > 0);
        assert(s1.contains(v));
        let k1 = choose|k1: int| 0 <= k1 < s1.len() && s1[k1] == v;
        assert(idxs1[lo + k1] == v);
    }
}

/// Combine multiset preservation of two adjacent subranges into multiset
/// preservation of their union.
pub proof fn lemma_sub_multiset_split(s1: Seq<usize>, s2: Seq<usize>, a: int, b: int, c: int)
    requires
        s1.len() == s2.len(),
        0 <= a <= b <= c <= s1.len(),
        s2.subrange(a, b).to_multiset() == s1.subrange(a, b).to_multiset(),
        s2.subrange(b, c).to_multiset() == s1.subrange(b, c).to_multiset(),
    ensures
        s2.subrange(a, c).to_multiset() == s1.subrange(a, c).to_multiset(),
{
    assert(s1.subrange(a, c) =~= s1.subrange(a, b) + s1.subrange(b, c));
    assert(s2.subrange(a, c) =~= s2.subrange(a, b) + s2.subrange(b, c));
    lemma_multiset_commutative(s1.subrange(a, b), s1.subrange(b, c));
    lemma_multiset_commutative(s2.subrange(a, b), s2.subrange(b, c));
}

/// A sequence with the same value multiset as the identity permutation
/// reaches every index below `n` somewhere.
pub proof fn lemma_perm_reaches(idxs: Seq<usize>, n: int, j: int)
    requires
        0 <= j < n,
        n <= 0xFFFF_FFFF,
        idxs.to_multiset() == ident_seq(n).to_multiset(),
    ensures
        exists|k: int| 0 <= k < idxs.len() && (#[trigger] idxs[k]) as int == j,
{
    broadcast use group_to_multiset_ensures;

    let v = j as usize;
    assert(ident_seq(n)[j] == v);
    assert(ident_seq(n).contains(v));
    assert(idxs.to_multiset().count(v) > 0);
    assert(idxs.contains(v));
    let k = choose|k: int| 0 <= k < idxs.len() && idxs[k] == v;
    assert((idxs[k]) as int == j);
}

/// Swap two entries of the index array.  The sequence afterwards is the
/// double update, and its multiset of values is unchanged.
fn swap_at(v: &mut Vec<usize>, i: usize, j: usize)
    requires
        i < old(v)@.len(),
        j < old(v)@.len(),
    ensures
        final(v)@ == old(v)@.update(i as int, old(v)@[j as int]).update(
            j as int,
            old(v)@[i as int],
        ),
        final(v)@.len() == old(v)@.len(),
        final(v)@.to_multiset() == old(v)@.to_multiset(),
{
    let ghost s = v@;
    let a = v[i];
    let b = v[j];
    v[i] = b;
    v[j] = a;
    proof {
        broadcast use group_to_multiset_ensures;
        broadcast use vstd::multiset::group_multiset_axioms;

        let s1 = s.update(i as int, b);
        let s2 = s1.update(j as int, a);
        assert(v@ == s2);
        if i == j {
            assert(s2 =~= s);
            assert(s2.to_multiset() =~= s.to_multiset());
        } else {
            assert(s.contains(s[i as int]));
            assert(s.to_multiset().count(a) > 0);
            assert(s1.to_multiset() =~= s.to_multiset().insert(b).remove(a));
            assert(s1[j as int] == b);
            assert(s2.to_multiset() =~= s1.to_multiset().insert(a).remove(b));
            assert(s2.to_multiset() =~= s.to_multiset());
        }
    }
}

/// The sum of the three vertex coordinates of `t` on the given axis, the
/// quantity the split heuristic compares against the range average.
pub open spec fn axis_sum(t: Triangle, axis: int) -> int {
    if axis == 0 {
        t.v0.position.x + t.v1.position.x + t.v2.position.x
    } else if axis == 1 {
        t.v0.position.y + t.v1.position.y + t.v2.position.y
    } else {
        t.v0.position.z + t.v1.position.z + t.v2.position.z
    }
}

/// The triangle's centroid coordinate on `axis` is at most the average
/// centroid coordinate of the `count` triangles whose coordinate sums add
/// up to `total` (both sides scaled by `3 * count`, so the comparison is
/// exact).
pub open spec fn centroid_le(t: Triangle, axis: int, total: int, count: int) -> bool {
    axis_sum(t, axis) * count <= total
}

/// The widest axis of a box, the axis its range is split along: `0`, `1`
/// or `2` for x, y, z, preferring x over y over z on ties.
pub open spec fn axis_of(b: AABB) -> int {
    let ex = b.max.x - b.min.x;
    let ey = b.max.y - b.min.y;
    let ez = b.max.z - b.min.z;
    if ex > ey && ex > ez {
        0
    } else if ey > ez {
        1
    } else {
        2
    }
}

/// The sum of [`axis_sum`] over the triangles referenced by
/// `idxs[lo..hi]`: `3 * (hi - lo)` times the mean centroid coordinate, the
/// pivot of the split heuristic.
pub open spec fn range_total(
    tris: Seq<Triangle>,
    idxs: Seq<usize>,
    lo: int,
    hi: int,
    axis: int,
) -> int
    decreases hi - lo,
{
    if lo >= hi {
        0
    } else {
        axis_sum(tris[idxs[lo] as int], axis) + range_total(tris, idxs, lo + 1, hi, axis)
    }
}

/// Some vertex of `t` has coordinate `value` on `axis`.
pub open spec fn attains(t: Triangle, axis: int, value: int) -> bool {
    if axis == 0 {
        t.v0.position.x == value || t.v1.position.x == value || t.v2.position.x == value
    } else if axis == 1 {
        t.v0.position.y == value || t.v1.position.y == value || t.v2.position.y == value
    } else {
        t.v0.position.z == value || t.v1.position.z == value || t.v2.position.z == value
    }
}

/// Some triangle of the range `idxs[lo..hi]` has a vertex with coordinate
/// `value` on `axis`: the box face at `value` is tight.
pub open spec fn face_attained(
    tris: Seq<Triangle>,
    idxs: Seq<usize>,
    lo: int,
    hi: int,
    axis: int,
    value: int,
) -> bool {
    exists|k: int| lo <= k < hi && attains(tris[(#[trigger] idxs[k]) as int], axis, value)
}

/// `b` is exactly the bounding box of the range `idxs[lo..hi]`: it
/// contains every vertex, every one of its six faces is attained by some
/// vertex, and an empty range leaves the empty sentinel box.
pub open spec fn covers_exactly(
    tris: Seq<Triangle>,
    idxs: Seq<usize>,
    lo: int,
    hi: int,
    b: AABB,
) -> bool {
    &&& range_in_box(tris, idxs, lo, hi, b)
    &&& (lo >= hi ==> b == AABB::empty_box())
    &&& (lo < hi ==> {
        &&& face_attained(tris, idxs, lo, hi, 0, b.min.x as int)
        &&& face_attained(tris, idxs, lo, hi, 1, b.min.y as int)
        &&& face_attained(tris, idxs, lo, hi, 2, b.min.z as int)
        &&& face_attained(tris, idxs, lo, hi, 0, b.max.x as int)
        &&& face_attained(tris, idxs, lo, hi, 1, b.max.y as int)
        &&& face_attained(tris, idxs, lo, hi, 2, b.max.z as int)
    })
}

/// Under the split heuristic of the box `b` (mean centroid on the widest
/// axis), every triangle of the range falls on one single side: the
/// degenerate case in which a split is refused.
pub open spec fn one_sided(
    tris: Seq<Triangle>,
    idxs: Seq<usize>,
    lo: int,
    hi: int,
    b: AABB,
) -> bool {
    ||| forall|k: int|
        lo <= k < hi ==> centroid_le(
            tris[(#[trigger] idxs[k]) as int],
            axis_of(b),
            range_total(tris, idxs, lo, hi, axis_of(b)),
            hi - lo,
        )
    ||| forall|k: int|
        lo <= k < hi ==> !centroid_le(
            tris[(#[trigger] idxs[k]) as int],
            axis_of(b),
            range_total(tris, idxs, lo, hi, axis_of(b)),
            hi - lo,
        )
}

/// The range `idxs[lo..hi]` is separated at `m` by the split heuristic of
/// the box `b`: the front group's centroids are at most the range's mean
/// centroid on the widest axis of `b`, the back group's are above it.
pub open spec fn centroid_separated(
    tris: Seq<Triangle>,
    idxs: Seq<usize>,
    lo: int,
    m: int,
    hi: int,
    b: AABB,
) -> bool {
    &&& forall|k: int|
        lo <= k < m ==> centroid_le(
            tris[(#[trigger] idxs[k]) as int],
            axis_of(b),
            range_total(tris, idxs, lo, hi, axis_of(b)),
            hi - lo,
        )
    &&& forall|k: int|
        m <= k < hi ==> !centroid_le(
            tris[(#[trigger] idxs[k]) as int],
            axis_of(b),
            range_total(tris, idxs, lo, hi, axis_of(b)),
            hi - lo,
        )
}

/// The construction-shape invariant of the subtree rooted at node `i`,
/// built at recursion depth `depth` over `[first, first + count)` with
/// descendants in `[lo, hi)`.
///
/// Beyond the query invariant [`built`] it pins what subdivision does:
/// every node's box is exactly the bounding box of its range
/// ([`covers_exactly`]); a node stays a leaf only because its range has
/// at most two triangles, the depth cap was reached, or the split
/// heuristic put everything on one side ([`one_sided`]); and an internal
/// node's children are exactly the two groups the heuristic separates
/// ([`centroid_separated`]).
pub open spec fn shaped(
    nodes: Seq<BvhNode>,
    tris: Seq<Triangle>,
    idxs: Seq<usize>,
    i: int,
    first: int,
    count: int,
    lo: int,
    hi: int,
    depth: int,
) -> bool
    decreases hi - lo, 1int,
{
    &&& 0 <= i < nodes.len()
    &&& 0 <= first
    &&& 0 <= count
    &&& first + count <= idxs.len()
    &&& covers_exactly(tris, idxs, first, first + count, nodes[i].bounds)
    &&& match nodes[i].kind {
        NodeKind::Leaf { first: f, count: c } => {
            &&& f == first
            &&& c == count
            &&& count <= 2 || depth > 30 || one_sided(
                tris,
                idxs,
                first,
                first + count,
                nodes[i].bounds,
            )
        },
        NodeKind::Internal { left: l } => {
            &&& l == lo
            &&& count > 2
            &&& depth <= 30
            &&& exists|m: int, mid: int|
                #[trigger] split_shape(count, lo, hi, m, mid) && shaped(
                    nodes, tris, idxs, lo, first, m, lo + 2, mid, depth + 1,
                ) && shaped(
                    nodes, tris, idxs, lo + 1, first + m, count - m, mid, hi, depth + 1,
                ) && centroid_separated(tris, idxs, first, first + m, first + count, nodes[i].bounds)
        },
    }
}

/// Splitting the range total at an interior point.
pub proof fn lemma_total_concat(
    tris: Seq<Triangle>,
    idxs: Seq<usize>,
    lo: int,
    mid: int,
    hi: int,
    axis: int,
)
    requires
        lo <= mid <= hi,
    ensures
        range_total(tris, idxs, lo, hi, axis) == range_total(tris, idxs, lo, mid, axis)
            + range_total(tris, idxs, mid, hi, axis),
    decreases mid - lo,
{
    if lo < mid {
        lemma_total_concat(tris, idxs, lo + 1, mid, hi, axis);
    }
}

/// The range total only reads the range.
pub proof fn lemma_total_pointwise(
    tris: Seq<Triangle>,
    idxs1: Seq<usize>,
    idxs2: Seq<usize>,
    lo: int,
    hi: int,
    axis: int,
)
    requires
        forall|k: int| lo <= k < hi ==> (#[trigger] idxs2[k]) == idxs1[k],
    ensures
        range_total(tris, idxs2, lo, hi, axis) == range_total(tris, idxs1, lo, hi, axis),
    decreases hi - lo,
{
    if lo < hi {
        lemma_total_pointwise(tris, idxs1, idxs2, lo + 1, hi, axis);
        assert(idxs2[lo] == idxs1[lo]);
    }
}

/// Equal totals on two adjacent subranges give an equal total on their
/// union.
pub proof fn lemma_total_combine(
    tris: Seq<Triangle>,
    idxs1: Seq<usize>,
    idxs2: Seq<usize>,
    a: int,
    b: int,
    c: int,
    axis: int,
)
    requires
        a <= b <= c,
        range_total(tris, idxs2, a, b, axis) == range_total(tris, idxs1, a, b, axis),
        range_total(tris, idxs2, b, c, axis) == range_total(tris, idxs1, b, c, axis),
    ensures
        range_total(tris, idxs2, a, c, axis) == range_total(tris, idxs1, a, c, axis),
{
    lemma_total_concat(tris, idxs1, a, b, c, axis);
    lemma_total_concat(tris, idxs2, a, b, c, axis);
}

/// Swapping two entries inside the range leaves its total unchanged.
pub proof fn lemma_total_swap(
    tris: Seq<Triangle>,
    s: Seq<usize>,
    lo: int,
    hi: int,
    i: int,
    j: int,
    axis: int,
)
    requires
        0 <= lo <= i <= j < hi <= s.len(),
    ensures
        range_total(
            tris,
            s.update(i, s[j]).update(j, s[i]),
            lo,
            hi,
            axis,
        ) == range_total(tris, s, lo, hi, axis),
{
    let s2 = s.update(i, s[j]).update(j, s[i]);
    if i == j {
        lemma_total_pointwise(tris, s, s2, lo, hi, axis);
    } else {
        lemma_total_concat(tris, s, lo, i, hi, axis);
        lemma_total_concat(tris, s, i, i + 1, hi, axis);
        lemma_total_concat(tris, s, i + 1, j, hi, axis);
        lemma_total_concat(tris, s, j, j + 1, hi, axis);
        lemma_total_concat(tris, s2, lo, i, hi, axis);
        lemma_total_concat(tris, s2, i, i + 1, hi, axis);
        lemma_total_concat(tris, s2, i + 1, j, hi, axis);
        lemma_total_concat(tris, s2, j, j + 1, hi, axis);
        lemma_total_pointwise(tris, s, s2, lo, i, axis);
        lemma_total_pointwise(tris, s, s2, i + 1, j, axis);
        lemma_total_pointwise(tris, s, s2, j + 1, hi, axis);
        assert(range_total(tris, s, i, i + 1, axis) == axis_sum(tris[s[i] as int], axis)
            + range_total(tris, s, i + 1, i + 1, axis));
        assert(range_total(tris, s, j, j + 1, axis) == axis_sum(tris[s[j] as int], axis)
            + range_total(tris, s, j + 1, j + 1, axis));
        assert(range_total(tris, s2, i, i + 1, axis) == axis_sum(tris[s2[i] as int], axis)
            + range_total(tris, s2, i + 1, i + 1, axis));
        assert(range_total(tris, s2, j, j + 1, axis) == axis_sum(tris[s2[j] as int], axis)
            + range_total(tris, s2, j + 1, j + 1, axis));
        assert(s2[i] == s[j] && s2[j] == s[i]);
    }
}

/// Extend a face-attainment fact over `[lo, k)` to `[lo, k + 1)`: either
/// the face value is unchanged and its old witness stands, or the new
/// triangle at `k` attains the new value.
proof fn lemma_face_step(
    tris: Seq<Triangle>,
    idxs: Seq<usize>,
    lo: int,
    k: int,
    axis: int,
    oldv: int,
    newv: int,
)
    requires
        lo <= k,
        (newv == oldv && face_attained(tris, idxs, lo, k, axis, oldv)) || attains(
            tris[idxs[k] as int],
            axis,
            newv,
        ),
    ensures
        face_attained(tris, idxs, lo, k + 1, axis, newv),
{
    if newv == oldv && face_attained(tris, idxs, lo, k, axis, oldv) {
        let kw = choose|kw: int|
            lo <= kw < k && attains(tris[(#[trigger] idxs[kw]) as int], axis, oldv);
        assert(attains(tris[idxs[kw] as int], axis, newv));
    } else {
        assert(attains(tris[idxs[k] as int], axis, newv));
    }
}

/// Face attainment only depends on which triangles the range holds.
pub proof fn lemma_face_attained_permuted(
    tris: Seq<Triangle>,
    idxs1: Seq<usize>,
    idxs2: Seq<usize>,
    lo: int,
    hi: int,
    axis: int,
    value: int,
)
    requires
        0 <= lo <= hi <= idxs1.len(),
        idxs2.len() == idxs1.len(),
        idxs2.subrange(lo, hi).to_multiset() == idxs1.subrange(lo, hi).to_multiset(),
        face_attained(tris, idxs1, lo, hi, axis, value),
    ensures
        face_attained(tris, idxs2, lo, hi, axis, value),
{
    broadcast use group_to_multiset_ensures;

    let k1 = choose|k: int| lo <= k < hi && attains(tris[(#[trigger] idxs1[k]) as int], axis, value);
    let v = idxs1[k1];
    let s1 = idxs1.subrange(lo, hi);
    let s2 = idxs2.subrange(lo, hi);
    assert(s1[k1 - lo] == v);
    assert(s1.contains(v));
    assert(s2.to_multiset().count(v) > 0);
    assert(s2.contains(v));
    let k2 = choose|k: int| 0 <= k < s2.len() && s2[k] == v;
    assert(idxs2[lo + k2] == v);
    assert(attains(tris[idxs2[lo + k2] as int], axis, value));
}

/// Exact bounds only depend on which triangles the range holds.
pub proof fn lemma_covers_exactly_permuted(
    tris: Seq<Triangle>,
    idxs1: Seq<usize>,
    idxs2: Seq<usize>,
    lo: int,
    hi: int,
    b: AABB,
)
    requires
        0 <= lo <= hi <= idxs1.len(),
        idxs2.len() == idxs1.len(),
        idxs2.subrange(lo, hi).to_multiset() == idxs1.subrange(lo, hi).to_multiset(),
        covers_exactly(tris, idxs1, lo, hi, b),
    ensures
        covers_exactly(tris, idxs2, lo, hi, b),
{
    lemma_range_in_box_permuted(tris, idxs1, idxs2, lo, hi, b);
    if lo < hi {
        lemma_face_attained_permuted(tris, idxs1, idxs2, lo, hi, 0, b.min.x as int);
        lemma_face_attained_permuted(tris, idxs1, idxs2, lo, hi, 1, b.min.y as int);
        lemma_face_attained_permuted(tris, idxs1, idxs2, lo, hi, 2, b.min.z as int);
        lemma_face_attained_permuted(tris, idxs1, idxs2, lo, hi, 0, b.max.x as int);
        lemma_face_attained_permuted(tris, idxs1, idxs2, lo, hi, 1, b.max.y as int);
        lemma_face_attained_permuted(tris, idxs1, idxs2, lo, hi, 2, b.max.z as int);
    }
}

/// A uniform centroid side over a range only depends on which triangles
/// the range holds.
pub proof fn lemma_centroid_side_permuted(
    tris: Seq<Triangle>,
    idxs1: Seq<usize>,
    idxs2: Seq<usize>,
    lo: int,
    hi: int,
    axis: int,
    total: int,
    count: int,
    sense: bool,
)
    requires
        0 <= lo <= hi <= idxs1.len(),
        idxs2.len() == idxs1.len(),
        idxs2.subrange(lo, hi).to_multiset() == idxs1.subrange(lo, hi).to_multiset(),
        forall|k: int|
            lo <= k < hi ==> centroid_le(tris[(#[trigger] idxs1[k]) as int], axis, total, count)
                == sense,
    ensures
        forall|k: int|
            lo <= k < hi ==> centroid_le(tris[(#[trigger] idxs2[k]) as int], axis, total, count)
                == sense,
{
    broadcast use group_to_multiset_ensures;

    let s1 = idxs1.subrange(lo, hi);
    let s2 = idxs2.subrange(lo, hi);
    assert forall|k: int| lo <= k < hi implies centroid_le(
        tris[(#[trigger] idxs2[k]) as int],
        axis,
        total,
        count,
    ) == sense by {
        let v = idxs2[k];
        assert(s2[k - lo] == v);
        assert(s2.contains(v));
        assert(s1.to_multiset().count(v) > 0);
        assert(s1.contains(v));
        let k1 = choose|k1: int| 0 <= k1 < s1.len() && s1[k1] == v;
        assert(idxs1[lo + k1] == v);
    }
}

/// A shaped subtree only depends on its root node, its descendant block
/// and its index range: any modification elsewhere preserves it.
pub proof fn lemma_shaped_frame(
    nodes1: Seq<BvhNode>,
    nodes2: Seq<BvhNode>,
    tris: Seq<Triangle>,
    idxs1: Seq<usize>,
    idxs2: Seq<usize>,
    i: int,
    first: int,
    count: int,
    lo: int,
    hi: int,
    depth: int,
)
    requires
        shaped(nodes1, tris, idxs1, i, first, count, lo, hi, depth),
        nodes2.len() >= nodes1.len(),
        nodes2[i] == nodes1[i],
        forall|j: int| lo <= j < hi ==> nodes2[j] == nodes1[j],
        idxs2.len() == idxs1.len(),
        forall|k: int| first <= k < first + count ==> idxs2[k] == idxs1[k],
    ensures
        shaped(nodes2, tris, idxs2, i, first, count, lo, hi, depth),
    decreases hi - lo,
{
    let b = nodes1[i].bounds;
    let ax = axis_of(b);
    let en = first + count;
    assert(idxs2.subrange(first, en) =~= idxs1.subrange(first, en));
    lemma_covers_exactly_permuted(tris, idxs1, idxs2, first, en, b);
    lemma_total_pointwise(tris, idxs1, idxs2, first, en, ax);
    match nodes1[i].kind {
        NodeKind::Leaf { first: _, count: _ } => {
            if count > 2 && depth <= 30 {
                if forall|k: int|
                    first <= k < en ==> centroid_le(
                        tris[(#[trigger] idxs1[k]) as int],
                        ax,
                        range_total(tris, idxs1, first, en, ax),
                        count,
                    ) {
                    assert forall|k: int| first <= k < en implies centroid_le(
                        tris[(#[trigger] idxs2[k]) as int],
                        ax,
                        range_total(tris, idxs2, first, en, ax),
                        count,
                    ) by {
                        assert(idxs2[k] == idxs1[k]);
                    }
                } else {
                    assert forall|k: int| first <= k < en implies !centroid_le(
                        tris[(#[trigger] idxs2[k]) as int],
                        ax,
                        range_total(tris, idxs2, first, en, ax),
                        count,
                    ) by {
                        assert(idxs2[k] == idxs1[k]);
                    }
                }
            }
        },
        NodeKind::Internal { left: _ } => {
            let (m, mid): (int, int) = choose|m: int, mid: int|
                #[trigger] split_shape(count, lo, hi, m, mid) && shaped(
                    nodes1, tris, idxs1, lo, first, m, lo + 2, mid, depth + 1,
                ) && shaped(
                    nodes1, tris, idxs1, lo + 1, first + m, count - m, mid, hi, depth + 1,
                ) && centroid_separated(tris, idxs1, first, first + m, first + count, b);
            lemma_shaped_frame(
                nodes1, nodes2, tris, idxs1, idxs2, lo, first, m, lo + 2, mid, depth + 1,
            );
            lemma_shaped_frame(
                nodes1, nodes2, tris, idxs1, idxs2, lo + 1, first + m, count - m, mid, hi, depth
                    + 1,
            );
            assert forall|k: int| first <= k < first + m implies centroid_le(
                tris[(#[trigger] idxs2[k]) as int],
                ax,
                range_total(tris, idxs2, first, en, ax),
                count,
            ) by {
                assert(idxs2[k] == idxs1[k]);
            }
            assert forall|k: int| first + m <= k < en implies !centroid_le(
                tris[(#[trigger] idxs2[k]) as int],
                ax,
                range_total(tris, idxs2, first, en, ax),
                count,
            ) by {
                assert(idxs2[k] == idxs1[k]);
            }
            assert(split_shape(count, lo, hi, m, mid) && shaped(
                nodes2, tris, idxs2, lo, first, m, lo + 2, mid, depth + 1,
            ) && shaped(
                nodes2, tris, idxs2, lo + 1, first + m, count - m, mid, hi, depth + 1,
            ) && centroid_separated(tris, idxs2, first, first + m, first + count, b));
        },
    }
}

/// The axis a node's range is split along.
#[derive(Clone, Copy)]
enum Axis {
    X,
    Y,
    Z,
}

/// Spec view of an axis as a coordinate number.
spec fn axis_view(a: Axis) -> int {
    match a {
        Axis::X => 0,
        Axis::Y => 1,
        Axis::Z => 2,
    }
}

impl Bvh {
    /// Two-pointer in-place partition of the index range
    /// `[start, start + count)`: entries whose triangle centroid is at most
    /// the pivot average move to the front, the rest to the back.  Returns
    /// the first index of the back group.  Only the order within the range
    /// changes: the multiset of the range (and of the whole array) is
    /// preserved, and nothing outside the range is touched.
    fn partition(&mut self, axis: Axis, total: i64, start: usize, count: usize) -> (split: usize)
        requires
            old(self).storage_wf(),
            start + count <= old(self).indices@.len(),
        ensures
            start <= split <= start + count,
            final(self).nodes == old(self).nodes,
            final(self).triangles == old(self).triangles,
            final(self).indices@.len() == old(self).indices@.len(),
            final(self).storage_wf(),
            forall|k: int|
                0 <= k < old(self).indices@.len() && !(start <= k < start + count)
                    ==> final(self).indices@[k] == old(self).indices@[k],
            final(self).indices@.subrange(start as int, (start + count) as int).to_multiset()
                == old(self).indices@.subrange(start as int, (start + count) as int).to_multiset(),
            final(self).indices@.to_multiset() == old(self).indices@.to_multiset(),
            forall|ax: int|
                0 <= ax < 3 ==> #[trigger] range_total(
                    final(self).triangles@,
                    final(self).indices@,
                    start as int,
                    (start + count) as int,
                    ax,
                ) == range_total(
                    old(self).triangles@,
                    old(self).indices@,
                    start as int,
                    (start + count) as int,
                    ax,
                ),
            forall|k: int|
                start <= k < split ==> centroid_le(
                    final(self).triangles@[#[trigger] final(self).indices@[k] as int],
                    axis_view(axis),
                    total as int,
                    count as int,
                ),
            forall|k: int|
                split <= k < start + count ==> !centroid_le(
                    final(self).triangles@[#[trigger] final(self).indices@[k] as int],
                    axis_view(axis),
                    total as int,
                    count as int,
                ),
    {
        let ghost orig = *self;
        let mut i: usize = start;
        let mut j: usize = start + count;
        while i < j
            invariant
                start <= i <= j <= start + count,
                start + count <= self.indices@.len(),
                self.nodes == orig.nodes,
                self.triangles == orig.triangles,
                self.indices@.len() == orig.indices@.len(),
                self.storage_wf(),
                forall|k: int|
                    0 <= k < orig.indices@.len() && !(start <= k < start + count)
                        ==> self.indices@[k] == orig.indices@[k],
                self.indices@.subrange(start as int, (start + count) as int).to_multiset()
                    == orig.indices@.subrange(start as int, (start + count) as int).to_multiset(),
                self.indices@.to_multiset() == orig.indices@.to_multiset(),
                forall|ax: int|
                    0 <= ax < 3 ==> #[trigger] range_total(
                        self.triangles@,
                        self.indices@,
                        start as int,
                        (start + count) as int,
                        ax,
                    ) == range_total(
                        orig.triangles@,
                        orig.indices@,
                        start as int,
                        (start + count) as int,
                        ax,
                    ),
                forall|k: int|
                    start <= k < i ==> centroid_le(
                        self.triangles@[#[trigger] self.indices@[k] as int],
                        axis_view(axis),
                        total as int,
                        count as int,
                    ),
                forall|k: int|
                    j <= k < start + count ==> !centroid_le(
                        self.triangles@[#[trigger] self.indices@[k] as int],
                        axis_view(axis),
                        total as int,
                        count as int,
                    ),
            decreases j - i,
        {
            let idx = self.indices[i];
            let tri = &self.triangles[idx];
            let cs: i64 = match axis {
                Axis::X => tri.v0.position.x + tri.v1.position.x + tri.v2.position.x,
                Axis::Y => tri.v0.position.y + tri.v1.position.y + tri.v2.position.y,
                Axis::Z => tri.v0.position.z + tri.v1.position.z + tri.v2.position.z,
            };
            proof {
                crate::math::lemma_mul_magnitude(cs as int, count as int, 786432, 4294967296);
            }
            let cnt = count as i64;
            if cs * cnt > total {
                let ghost before = self.indices@;
                swap_at(&mut self.indices, i, j - 1);
                j = j - 1;
                proof {
                    assert forall|ax: int| 0 <= ax < 3 implies #[trigger] range_total(
                        self.triangles@,
                        self.indices@,
                        start as int,
                        (start + count) as int,
                        ax,
                    ) == range_total(
                        self.triangles@,
                        before,
                        start as int,
                        (start + count) as int,
                        ax,
                    ) by {
                        lemma_total_swap(
                            self.triangles@,
                            before,
                            start as int,
                            (start + count) as int,
                            i as int,
                            j as int,
                            ax,
                        );
                    }
                    assert(self.indices@.subrange(start as int, (start + count) as int)
                        =~= before.subrange(start as int, (start + count) as int).update(
                        i - start,
                        before[j as int],
                    ).update(j - start, before[i as int]));
                    broadcast use group_to_multiset_ensures;
                    broadcast use vstd::multiset::group_multiset_axioms;

                    let sb = before.subrange(start as int, (start + count) as int);
                    let sa = self.indices@.subrange(start as int, (start + count) as int);
                    if i as int == j as int {
                        assert(sa =~= sb);
                        assert(sa.to_multiset() =~= sb.to_multiset());
                    } else {
                        let x = sb[i - start];
                        let y = sb[j - start];
                        assert(sb.contains(x));
                        let s1 = sb.update(i - start, y);
                        assert(s1[j - start] == y);
                        assert(s1.to_multiset() =~= sb.to_multiset().insert(y).remove(x));
                        assert(sa.to_multiset() =~= s1.to_multiset().insert(x).remove(y));
                        assert(sa.to_multiset() =~= sb.to_multiset());
                    }
                }
            } else {
                i = i + 1;
            }
        }
        i
    }
}

impl Bvh {
    /// Build the tree over a finalized triangle list.
    ///
    /// Takes ownership of the triangles, starts from the identity index
    /// permutation and a single root leaf spanning everything, and
    /// recursively subdivides.  The result satisfies the full tree
    /// invariant [`Bvh::wf`] and the construction-shape invariant
    /// [`Bvh::shape_wf`], stores the input triangles unchanged, holds at
    /// most `2n - 1` nodes, and a list of at most two triangles stays a
    /// single root leaf.  An empty list is a valid degenerate input: the
    /// root stays an empty leaf and every query reports no hit.
    pub fn construct(triangles: Vec<Triangle>) -> (r: Bvh)
        requires
            forall|j: int| 0 <= j < triangles@.len() ==> (#[trigger] triangles@[j]).wf(),
            triangles@.len() <= 0xFFFF_FFFF,
        ensures
            r.wf(),
            r.shape_wf(),
            r.triangles@ == triangles@,
            r.nodes@.len() <= if triangles@.len() >= 1 {
                2 * (triangles@.len() as int) - 1
            } else {
                1int
            },
            triangles@.len() <= 2 ==> r.nodes@.len() == 1,
    {
        let n = triangles.len();
        let mut indices: Vec<usize> = Vec::new();
        let mut i: usize = 0;
        while i < n
            invariant
                i <= n,
                indices@.len() == i,
                forall|k: int| 0 <= k < i ==> #[trigger] indices@[k] == k as usize,
            decreases n - i,
        {
            indices.push(i);
            i = i + 1;
        }
        proof {
            assert(indices@ =~= ident_seq(n as int));
        }
        let mut nodes: Vec<BvhNode> = Vec::new();
        nodes.push(
            BvhNode { bounds: AABB::new(), kind: NodeKind::Leaf { first: 0, count: n } },
        );
        let mut bvh = Bvh { nodes, indices, triangles };
        let ghost start = bvh;
        bvh.subdivide(0, 0, n, 0);
        proof {
            assert(start.indices@.subrange(0, n as int) =~= start.indices@);
            assert(bvh.indices@.subrange(0, n as int) =~= bvh.indices@);
            assert(bvh.indices@.to_multiset() == ident_seq(n as int).to_multiset());
        }
        bvh
    }

    /// Recursively subdivide the leaf `node_index` covering the index
    /// range `[first, first + count)`.
    ///
    /// Computes the node's exact bounds over its range, stops at two or
    /// fewer triangles or at the depth cap (leaving everything else
    /// untouched), otherwise partitions the range around the average
    /// centroid on the widest axis and recurses into two freshly pushed
    /// children, appending at most `2 * count - 2` nodes in total.  A
    /// partition that leaves one side empty aborts the split and keeps
    /// the leaf, so recursion always makes progress.  Only this node, its
    /// new descendants and its index range are touched, and the range
    /// keeps the same triangles (and so the same mean centroid).
    #[verifier::rlimit(60)]
    fn subdivide(&mut self, node_index: usize, first: usize, count: usize, rec_depth: usize)
        requires
            old(self).storage_wf(),
            node_index < old(self).nodes@.len(),
            old(self).nodes@[node_index as int].kind == (NodeKind::Leaf { first, count }),
            first + count <= old(self).indices@.len(),
            rec_depth <= 31,
        ensures
            final(self).storage_wf(),
            final(self).triangles == old(self).triangles,
            final(self).indices@.len() == old(self).indices@.len(),
            forall|k: int|
                0 <= k < old(self).indices@.len() && !(first <= k < first + count)
                    ==> final(self).indices@[k] == old(self).indices@[k],
            final(self).indices@.subrange(first as int, (first + count) as int).to_multiset()
                == old(self).indices@.subrange(first as int, (first + count) as int).to_multiset(),
            final(self).nodes@.len() >= old(self).nodes@.len(),
            forall|j: int|
                0 <= j < old(self).nodes@.len() && j != node_index ==> final(self).nodes@[j]
                    == old(self).nodes@[j],
            built(
                final(self).nodes@,
                final(self).triangles@,
                final(self).indices@,
                node_index as int,
                first as int,
                count as int,
                old(self).nodes@.len() as int,
                final(self).nodes@.len() as int,
            ),
            shaped(
                final(self).nodes@,
                final(self).triangles@,
                final(self).indices@,
                node_index as int,
                first as int,
                count as int,
                old(self).nodes@.len() as int,
                final(self).nodes@.len() as int,
                rec_depth as int,
            ),
            count <= 2 || rec_depth > 30 ==> (final(self).nodes@.len() == old(self).nodes@.len()
                && final(self).indices == old(self).indices && final(self).nodes@[
            node_index as int].kind == (NodeKind::Leaf { first, count })),
            final(self).nodes@.len() <= old(self).nodes@.len() + (if count >= 2 {
                2 * (count as int) - 2
            } else {
                0int
            }),
            forall|ax: int|
                0 <= ax < 3 ==> #[trigger] range_total(
                    final(self).triangles@,
                    final(self).indices@,
                    first as int,
                    (first + count) as int,
                    ax,
                ) == range_total(
                    old(self).triangles@,
                    old(self).indices@,
                    first as int,
                    (first + count) as int,
                    ax,
                ),
        decreases count,
    {
        let ghost s0 = *self;
        let left = self.nodes.len();
        proof {
            assert(first + count <= 0xFFFF_FFFF);
        }
        // Grow this node's bounds over every vertex of its range.
        let mut b = AABB::new();
        let end = first + count;
        let mut k = first;
        while k < end
            invariant
                first <= k <= end,
                end == first + count,
                end <= self.indices@.len(),
                *self == s0,
                s0.storage_wf(),
                b.wf(),
                forall|j: int|
                    first <= j < k ==> b.contains_triangle(
                        self.triangles@[#[trigger] self.indices@[j] as int],
                    ),
                k == first ==> b == AABB::empty_box(),
                k > first ==> face_attained(
                    self.triangles@,
                    self.indices@,
                    first as int,
                    k as int,
                    0,
                    b.min.x as int,
                ) && face_attained(
                    self.triangles@,
                    self.indices@,
                    first as int,
                    k as int,
                    1,
                    b.min.y as int,
                ) && face_attained(
                    self.triangles@,
                    self.indices@,
                    first as int,
                    k as int,
                    2,
                    b.min.z as int,
                ) && face_attained(
                    self.triangles@,
                    self.indices@,
                    first as int,
                    k as int,
                    0,
                    b.max.x as int,
                ) && face_attained(
                    self.triangles@,
                    self.indices@,
                    first as int,
                    k as int,
                    1,
                    b.max.y as int,
                ) && face_attained(
                    self.triangles@,
                    self.indices@,
                    first as int,
                    k as int,
                    2,
                    b.max.z as int,
                ),
            decreases end - k,
        {
            let idx = self.indices[k];
            let tri = &self.triangles[idx];
            let ghost b0 = b;
            b.grow(tri.v0.position);
            b.grow(tri.v1.position);
            b.grow(tri.v2.position);
            proof {
                let tr = self.triangles@;
                let ix = self.indices@;
                let fi = first as int;
                let kk = k as int;
                lemma_face_step(tr, ix, fi, kk, 0, b0.min.x as int, b.min.x as int);
                lemma_face_step(tr, ix, fi, kk, 1, b0.min.y as int, b.min.y as int);
                lemma_face_step(tr, ix, fi, kk, 2, b0.min.z as int, b.min.z as int);
                lemma_face_step(tr, ix, fi, kk, 0, b0.max.x as int, b.max.x as int);
                lemma_face_step(tr, ix, fi, kk, 1, b0.max.y as int, b.max.y as int);
                lemma_face_step(tr, ix, fi, kk, 2, b0.max.z as int, b.max.z as int);
            }
            k = k + 1;
        }
        self.nodes[node_index] = BvhNode { bounds: b, kind: NodeKind::Leaf { first, count } };
        let ghost s1 = *self;
        proof {
            assert(covers_exactly(
                self.triangles@,
                self.indices@,
                first as int,
                (first + count) as int,
                b,
            ));
        }
        // A small or too-deep range stays a leaf.
        if count <= 2 || rec_depth > 30 {
            proof {
                assert(shaped(
                    self.nodes@,
                    self.triangles@,
                    self.indices@,
                    node_index as int,
                    first as int,
                    count as int,
                    s0.nodes@.len() as int,
                    self.nodes@.len() as int,
                    rec_depth as int,
                ));
            }
            return ;
        }
        // Sum the vertex coordinates of the range to locate the average
        // centroid (scaled by 3 * count, so no division is needed).
        let mut sum_x: i64 = 0;
        let mut sum_y: i64 = 0;
        let mut sum_z: i64 = 0;
        let mut k2 = first;
        while k2 < end
            invariant
                first <= k2 <= end,
                end == first + count,
                end <= self.indices@.len(),
                *self == s1,
                s1.storage_wf(),
                count <= 0xFFFF_FFFF,
                -786432 * (k2 - first) <= sum_x <= 786432 * (k2 - first),
                -786432 * (k2 - first) <= sum_y <= 786432 * (k2 - first),
                -786432 * (k2 - first) <= sum_z <= 786432 * (k2 - first),
                sum_x == range_total(self.triangles@, self.indices@, first as int, k2 as int, 0),
                sum_y == range_total(self.triangles@, self.indices@, first as int, k2 as int, 1),
                sum_z == range_total(self.triangles@, self.indices@, first as int, k2 as int, 2),
            decreases end - k2,
        {
            let idx = self.indices[k2];
            let tri = &self.triangles[idx];
            proof {
                let tr = self.triangles@;
                let ix = self.indices@;
                let fi = first as int;
                let kk = k2 as int;
                lemma_total_concat(tr, ix, fi, kk, kk + 1, 0);
                lemma_total_concat(tr, ix, fi, kk, kk + 1, 1);
                lemma_total_concat(tr, ix, fi, kk, kk + 1, 2);
                assert(range_total(tr, ix, kk, kk + 1, 0) == axis_sum(tr[ix[kk] as int], 0)
                    + range_total(tr, ix, kk + 1, kk + 1, 0));
                assert(range_total(tr, ix, kk, kk + 1, 1) == axis_sum(tr[ix[kk] as int], 1)
                    + range_total(tr, ix, kk + 1, kk + 1, 1));
                assert(range_total(tr, ix, kk, kk + 1, 2) == axis_sum(tr[ix[kk] as int], 2)
                    + range_total(tr, ix, kk + 1, kk + 1, 2));
            }
            sum_x = sum_x + (tri.v0.position.x + tri.v1.position.x + tri.v2.position.x);
            sum_y = sum_y + (tri.v0.position.y + tri.v1.position.y + tri.v2.position.y);
            sum_z = sum_z + (tri.v0.position.z + tri.v1.position.z + tri.v2.position.z);
            k2 = k2 + 1;
        }
        // Split on the widest axis of the bounds.
        let ex = b.max.x - b.min.x;
        let ey = b.max.y - b.min.y;
        let ez = b.max.z - b.min.z;
        let axis: Axis;
        let total: i64;
        if ex > ey && ex > ez {
            axis = Axis::X;
            total = sum_x;
        } else if ey > ez {
            axis = Axis::Y;
            total = sum_y;
        } else {
            axis = Axis::Z;
            total = sum_z;
        }
        proof {
            assert(axis_view(axis) == axis_of(b));
            assert(total as int == range_total(
                self.triangles@,
                self.indices@,
                first as int,
                end as int,
                axis_view(axis),
            ));
        }
        let split = self.partition(axis, total, first, count);
        let ghost s2 = *self;
        proof {
            lemma_range_in_box_permuted(
                self.triangles@,
                s1.indices@,
                self.indices@,
                first as int,
                end as int,
                b,
            );
            lemma_covers_exactly_permuted(
                self.triangles@,
                s1.indices@,
                self.indices@,
                first as int,
                end as int,
                b,
            );
        }
        // If everything fell on one side, keep the leaf: splitting again
        // would recurse forever on coincident centroids.
        if split == first || split == end {
            proof {
                let tr = self.triangles@;
                let ix = self.indices@;
                let fi = first as int;
                let en = end as int;
                let ax = axis_of(b);
                // The partition left the range's mean unchanged, so its
                // one-sided outcome is one-sided against the final mean.
                assert(range_total(tr, ix, fi, en, ax) == range_total(
                    tr,
                    s1.indices@,
                    fi,
                    en,
                    ax,
                ));
                if split == end {
                    assert forall|k: int| fi <= k < en implies centroid_le(
                        tr[(#[trigger] ix[k]) as int],
                        ax,
                        range_total(tr, ix, fi, en, ax),
                        en - fi,
                    ) by {
                        assert(centroid_le(tr[ix[k] as int], axis_view(axis), total as int,
                            count as int));
                    }
                } else {
                    assert forall|k: int| fi <= k < en implies !centroid_le(
                        tr[(#[trigger] ix[k]) as int],
                        ax,
                        range_total(tr, ix, fi, en, ax),
                        en - fi,
                    ) by {
                        assert(!centroid_le(tr[ix[k] as int], axis_view(axis), total as int,
                            count as int));
                    }
                }
                assert(one_sided(tr, ix, fi, en, b));
                assert(shaped(
                    self.nodes@,
                    tr,
                    ix,
                    node_index as int,
                    fi,
                    count as int,
                    s0.nodes@.len() as int,
                    self.nodes@.len() as int,
                    rec_depth as int,
                ));
            }
            return ;
        }
        // Allocate the two children and turn this node into an internal
        // node pointing at them.
        let lcount = split - first;
        let rcount = end - split;
        self.nodes.push(
            BvhNode {
                bounds: AABB::new(),
                kind: NodeKind::Leaf { first, count: lcount },
            },
        );
        self.nodes.push(
            BvhNode {
                bounds: AABB::new(),
                kind: NodeKind::Leaf { first: split, count: rcount },
            },
        );
        self.nodes[node_index] = BvhNode { bounds: b, kind: NodeKind::Internal { left } };
        let right = self.nodes.len() - 1;
        let ghost s3 = *self;
        self.subdivide(left, first, lcount, rec_depth + 1);
        let ghost s4 = *self;
        let ghost mid = s4.nodes@.len() as int;
        self.subdivide(right, split, rcount, rec_depth + 1);
        let ghost s5 = *self;
        proof {
            let tris = s5.triangles@;
            let lo = s0.nodes@.len() as int;
            let hi = s5.nodes@.len() as int;
            let fi = first as int;
            let sp = split as int;
            let en = end as int;
            // The left subtree survives the right recursion untouched.
            lemma_built_frame(
                s4.nodes@,
                s5.nodes@,
                tris,
                s4.indices@,
                s5.indices@,
                lo,
                fi,
                sp - fi,
                lo + 2,
                mid,
            );
            lemma_shaped_frame(
                s4.nodes@,
                s5.nodes@,
                tris,
                s4.indices@,
                s5.indices@,
                lo,
                fi,
                sp - fi,
                lo + 2,
                mid,
                rec_depth + 1,
            );
            // Index range multiset preservation, composed over the
            // partition and the two recursions.
            assert(s2.indices@.subrange(sp, en).to_multiset() == s4.indices@.subrange(
                sp,
                en,
            ).to_multiset()) by {
                assert(s4.indices@.subrange(sp, en) =~= s2.indices@.subrange(sp, en));
            }
            lemma_sub_multiset_split(s2.indices@, s4.indices@, fi, sp, en);
            assert(s4.indices@.subrange(fi, sp).to_multiset() == s5.indices@.subrange(
                fi,
                sp,
            ).to_multiset()) by {
                assert(s5.indices@.subrange(fi, sp) =~= s4.indices@.subrange(fi, sp));
            }
            lemma_sub_multiset_split(s4.indices@, s5.indices@, fi, sp, en);
            // The parent's box still contains its whole range, and stays
            // its exact bounding box.
            lemma_range_in_box_permuted(tris, s2.indices@, s5.indices@, fi, en, b);
            lemma_covers_exactly_permuted(tris, s2.indices@, s5.indices@, fi, en, b);
            let ax = axis_of(b);
            // The range's mean centroid survives the partition and both
            // child recursions.
            assert forall|axq: int| 0 <= axq < 3 implies #[trigger] range_total(
                tris,
                s5.indices@,
                fi,
                en,
                axq,
            ) == range_total(tris, s0.indices@, fi, en, axq) by {
                assert(range_total(tris, s2.indices@, fi, en, axq) == range_total(
                    tris,
                    s1.indices@,
                    fi,
                    en,
                    axq,
                ));
                assert(range_total(tris, s4.indices@, fi, sp, axq) == range_total(
                    tris,
                    s2.indices@,
                    fi,
                    sp,
                    axq,
                ));
                lemma_total_pointwise(tris, s2.indices@, s4.indices@, sp, en, axq);
                lemma_total_combine(tris, s2.indices@, s4.indices@, fi, sp, en, axq);
                assert(range_total(tris, s5.indices@, sp, en, axq) == range_total(
                    tris,
                    s4.indices@,
                    sp,
                    en,
                    axq,
                ));
                lemma_total_pointwise(tris, s4.indices@, s5.indices@, fi, sp, axq);
                lemma_total_combine(tris, s4.indices@, s5.indices@, fi, sp, en, axq);
                lemma_total_pointwise(tris, s0.indices@, s1.indices@, fi, en, axq);
            }
            // The two child ranges are still the two sides of the split
            // heuristic: the groups were only reordered internally.
            assert(s5.indices@.subrange(fi, sp).to_multiset() == s2.indices@.subrange(
                fi,
                sp,
            ).to_multiset());
            assert(s5.indices@.subrange(sp, en).to_multiset() == s2.indices@.subrange(
                sp,
                en,
            ).to_multiset()) by {
                assert(s4.indices@.subrange(sp, en) =~= s2.indices@.subrange(sp, en));
            }
            lemma_centroid_side_permuted(
                tris,
                s2.indices@,
                s5.indices@,
                fi,
                sp,
                axis_view(axis),
                total as int,
                count as int,
                true,
            );
            lemma_centroid_side_permuted(
                tris,
                s2.indices@,
                s5.indices@,
                sp,
                en,
                axis_view(axis),
                total as int,
                count as int,
                false,
            );
            assert(range_total(tris, s5.indices@, fi, en, ax) == total as int);
            assert(centroid_separated(tris, s5.indices@, fi, sp, en, b));
            // Assemble the internal node.
            assert(split_shape(count as int, lo, hi, sp - fi, mid) && built(
                s5.nodes@,
                tris,
                s5.indices@,
                lo,
                fi,
                sp - fi,
                lo + 2,
                mid,
            ) && built(s5.nodes@, tris, s5.indices@, lo + 1, fi + (sp - fi), count - (sp - fi), mid, hi));
            assert(built(
                s5.nodes@,
                tris,
                s5.indices@,
                node_index as int,
                fi,
                count as int,
                lo,
                hi,
            ));
            assert(split_shape(count as int, lo, hi, sp - fi, mid) && shaped(
                s5.nodes@,
                tris,
                s5.indices@,
                lo,
                fi,
                sp - fi,
                lo + 2,
                mid,
                rec_depth + 1,
            ) && shaped(
                s5.nodes@,
                tris,
                s5.indices@,
                lo + 1,
                fi + (sp - fi),
                count - (sp - fi),
                mid,
                hi,
                rec_depth + 1,
            ) && centroid_separated(tris, s5.indices@, fi, fi + (sp - fi), fi + (count as int), b));
            assert(shaped(
                s5.nodes@,
                tris,
                s5.indices@,
                node_index as int,
                fi,
                count as int,
                lo,
                hi,
                rec_depth as int,
            ));
        }
    }
}

} // verus!
