use vstd::multiset::Multiset;
use vstd::prelude::*;

verus! {

broadcast use
    vstd::seq_lib::group_to_multiset_ensures,
    vstd::seq_lib::group_seq_lib_default,
    vstd::seq_lib::lemma_multiset_commutative,
    vstd::multiset::group_multiset_axioms;

/// Coordinates of every box the library handles stay within this bound, so
/// that the collision arithmetic (differences and sums of at most four
/// coordinates) fits comfortably in `i64`.
pub const COORD_MAX: i64 = 1_000_000_000;

/// A two-component integer vector: a point, a size, or a displacement.
#[derive(Clone, Copy, PartialEq, Eq, Structural, Debug)]
pub struct Vector2 {
    pub x: i64,
    pub y: i64,
}

/// An axis-aligned rectangle: top-left origin plus non-negative extents.
#[derive(Clone, Copy, PartialEq, Eq, Structural, Debug)]
pub struct QuadBox {
    pub x: i64,
    pub y: i64,
    pub width: i64,
    pub height: i64,
}

pub open spec fn abs_val(i: int) -> int {
    if i < 0 {
        -i
    } else {
        i
    }
}

impl QuadBox {
    /// The x coordinate of the right edge.
    pub open spec fn right(self) -> int {
        self.x + self.width
    }

    /// The y coordinate of the bottom edge.
    pub open spec fn bottom(self) -> int {
        self.y + self.height
    }

    /// A well-formed box has non-negative extents and coordinates small
    /// enough that collision arithmetic cannot overflow.
    pub open spec fn wf(self) -> bool {
        &&& self.width >= 0
        &&& self.height >= 0
        &&& -COORD_MAX <= self.x
        &&& self.right() <= COORD_MAX
        &&& -COORD_MAX <= self.y
        &&& self.bottom() <= COORD_MAX
    }

    /// `other` lies fully within `self` on all four edges.
    pub open spec fn contains_spec(self, other: QuadBox) -> bool {
        &&& other.x >= self.x
        &&& other.right() <= self.right()
        &&& other.y >= self.y
        &&& other.bottom() <= self.bottom()
    }

    /// The rectangles overlap; edges that merely touch do not count.
    pub open spec fn overlaps(self, other: QuadBox) -> bool {
        &&& self.x < other.right()
        &&& other.x < self.right()
        &&& self.y < other.bottom()
        &&& other.y < self.bottom()
    }

    pub open spec fn md_x(self, other: QuadBox) -> int {
        self.x - other.right()
    }

    pub open spec fn md_y(self, other: QuadBox) -> int {
        self.y - other.bottom()
    }

    pub open spec fn md_width(self, other: QuadBox) -> int {
        (self.right() - other.x) - self.md_x(other)
    }

    pub open spec fn md_height(self, other: QuadBox) -> int {
        (self.bottom() - other.y) - self.md_y(other)
    }

    pub fn new(x: i64, y: i64, width: i64, height: i64) -> (r: QuadBox)
        ensures
            r == (QuadBox { x, y, width, height }),
    {
        QuadBox { x, y, width, height }
    }

    pub fn get_center(&self) -> (r: Vector2)
        requires
            self.wf(),
        ensures
            r.x == self.x + self.width / 2,
            r.y == self.y + self.height / 2,
    {
        Vector2 { x: self.x + self.width / 2, y: self.y + self.height / 2 }
    }

    pub fn get_lefttop(&self) -> (r: Vector2)
        ensures
            r == (Vector2 { x: self.x, y: self.y }),
    {
        Vector2 { x: self.x, y: self.y }
    }

    pub fn get_right_x(&self) -> (r: i64)
        requires
            self.wf(),
        ensures
            r == self.right(),
    {
        self.x + self.width
    }

    pub fn get_bottom_y(&self) -> (r: i64)
        requires
            self.wf(),
        ensures
            r == self.bottom(),
    {
        self.y + self.height
    }

    pub fn get_size(&self) -> (r: Vector2)
        ensures
            r == (Vector2 { x: self.width, y: self.height }),
    {
        Vector2 { x: self.width, y: self.height }
    }

    pub fn contains(&self, u_box: &QuadBox) -> (r: bool)
        requires
            self.wf(),
            u_box.wf(),
        ensures
            r == self.contains_spec(*u_box),
    {
        u_box.x >= self.x && u_box.x + u_box.width <= self.x + self.width && u_box.y >= self.y
            && u_box.y + u_box.height <= self.y + self.height
    }

    /// The Minkowski difference of the two boxes: a rectangle that contains
    /// the origin strictly in its interior exactly when the boxes overlap.
    pub fn minkowski_difference(&self, u_box: &QuadBox) -> (r: QuadBox)
        requires
            self.wf(),
            u_box.wf(),
        ensures
            r.x == self.md_x(*u_box),
            r.y == self.md_y(*u_box),
            r.width == self.md_width(*u_box),
            r.height == self.md_height(*u_box),
    {
        let x = self.x - (u_box.x + u_box.width);
        let y = self.y - (u_box.y + u_box.height);
        let width = (self.x + self.width - u_box.x) - x;
        let height = (self.y + self.height - u_box.y) - y;
        QuadBox { x, y, width, height }
    }

    pub fn intersects(&self, u_box: &QuadBox) -> (r: bool)
        requires
            self.wf(),
            u_box.wf(),
        ensures
            r == self.overlaps(*u_box),
    {
        let ret = self.minkowski_difference(u_box);
        ret.x < 0 && ret.y < 0 && ret.x + ret.width > 0 && ret.y + ret.height > 0
    }
}

/// Bounds on a rectangle handed to `pen_vector`, wide enough for the
/// Minkowski difference of any two well-formed boxes.
pub open spec fn md_bounded(md: QuadBox) -> bool {
    &&& -4_000_000_000 <= md.x <= 4_000_000_000
    &&& -4_000_000_000 <= md.x + md.width <= 4_000_000_000
    &&& -4_000_000_000 <= md.y <= 4_000_000_000
    &&& -4_000_000_000 <= md.y + md.height <= 4_000_000_000
}

/// The penetration candidate that `pen_vector` picks, before negation: among
/// the four edge distances of the Minkowski rectangle (left, right, top,
/// bottom), the first one with the smallest absolute value, paired with its
/// axis. `(c, 0)` is a horizontal candidate, `(0, c)` a vertical one.
pub open spec fn pen_raw(cx_low: int, cx_high: int, cy_low: int, cy_high: int) -> (int, int) {
    let v0 = (cx_low, 0int);
    let m0 = abs_val(cx_low);
    let v1 = if abs_val(cx_high) < m0 {
        (cx_high, 0int)
    } else {
        v0
    };
    let m1 = if abs_val(cx_high) < m0 {
        abs_val(cx_high)
    } else {
        m0
    };
    let v2 = if abs_val(cy_low) < m1 {
        (0int, cy_low)
    } else {
        v1
    };
    let m2 = if abs_val(cy_low) < m1 {
        abs_val(cy_low)
    } else {
        m1
    };
    if abs_val(cy_high) < m2 {
        (0int, cy_high)
    } else {
        v2
    }
}

/// The candidate pair for a Minkowski rectangle.
pub open spec fn pen_raw_of(md: QuadBox) -> (int, int) {
    pen_raw(md.x as int, md.x + md.width, md.y as int, md.y + md.height)
}

fn abs64(v: i64) -> (r: i64)
    requires
        v > i64::MIN,
    ensures
        r == abs_val(v as int),
{
    if v < 0 {
        -v
    } else {
        v
    }
}

/// All four edge distances of a Minkowski rectangle are exactly zero: the
/// one case in which there is no correction to build.
pub open spec fn md_degenerate(md: QuadBox) -> bool {
    &&& md.x == 0
    &&& md.x + md.width == 0
    &&& md.y == 0
    &&& md.y + md.height == 0
}

impl QuadBox {
    /// The minimum-translation correction for a Minkowski rectangle `md`:
    /// the negation of the smallest-magnitude edge distance, aligned to
    /// its axis. Nothing comes back only when all four edge distances are
    /// exactly zero; for boxes that merely touch on an edge the correction
    /// is present and may be the zero vector. The receiver and `u_box`
    /// name the pair the rectangle came from; the selection reads only the
    /// rectangle.
    #[allow(unused_variables)]
    pub fn pen_vector(&self, u_box: &QuadBox, md: &QuadBox) -> (r: Option<Vector2>)
        requires
            md_bounded(*md),
        ensures
            ({
                let p = pen_raw_of(*md);
                &&& (r is None <==> md_degenerate(*md))
                &&& (r is Some ==> r->Some_0 == (Vector2 { x: (-p.0) as i64, y: (-p.1) as i64 }))
            }),
    {
        let mut vec = Vector2 { x: 0, y: 0 };
        let mut min: i64 = i64::MAX;
        if abs64(md.x) < min {
            min = abs64(md.x);
            vec.x = md.x;
            vec.y = 0;
        }
        if abs64(md.x + md.width) < min {
            min = abs64(md.x + md.width);
            vec.x = md.x + md.width;
            vec.y = 0;
        }
        if abs64(md.y) < min {
            min = abs64(md.y);
            vec.x = 0;
            vec.y = md.y;
        }
        if abs64(md.y + md.height) < min {
            vec.x = 0;
            vec.y = md.y + md.height;
        }
        if md.x == 0 && md.x + md.width == 0 && md.y == 0 && md.y + md.height == 0 {
            None
        } else {
            Some(Vector2 { x: -vec.x, y: -vec.y })
        }
    }
}

/// For every pair of boxes, overlap is symmetric.
pub proof fn lemma_intersects_symmetric(a: QuadBox, b: QuadBox)
    ensures
        a.overlaps(b) == b.overlaps(a),
{
}

/// When two boxes overlap, their Minkowski difference straddles the origin
/// on both axes: strictly negative on the low side, strictly positive on the
/// high side.
pub proof fn lemma_minkowski_straddles_origin(a: QuadBox, b: QuadBox)
    requires
        a.overlaps(b),
    ensures
        a.md_x(b) < 0 < a.md_x(b) + a.md_width(b),
        a.md_y(b) < 0 < a.md_y(b) + a.md_height(b),
{
}

/// An object as the spatial index stores it: a caller-chosen identifier
/// together with the object's bounding box at insertion time.
#[derive(Clone, Copy, PartialEq, Eq, Structural, Debug)]
pub struct TreeItem {
    pub id: u64,
    pub bbox: QuadBox,
}

/// The four quadrants of a split node, in the fixed order
/// 0 = north-west, 1 = north-east, 2 = south-west, 3 = south-east.
struct Quadrants {
    nw: Node,
    ne: Node,
    sw: Node,
    se: Node,
}

/// One node of the tree: the objects stored at this level, plus either no
/// children (an unsplit leaf) or all four children at once.
struct Node {
    values: Vec<TreeItem>,
    children: Option<Box<Quadrants>>,
}

impl Quadrants {
    /// The child with quadrant index `i`.
    spec fn child(&self, i: int) -> Node {
        if i == 0 {
            self.nw
        } else if i == 1 {
            self.ne
        } else if i == 2 {
            self.sw
        } else {
            self.se
        }
    }
}

/// The region covered by the child with quadrant index `idx`: the parent
/// rectangle halved about its center, with integer halving rounding the
/// extents down.
pub open spec fn child_box(bx: QuadBox, idx: int) -> QuadBox {
    let w2 = bx.width as int / 2;
    let h2 = bx.height as int / 2;
    let cx = if idx == 1 || idx == 3 {
        bx.x + w2
    } else {
        bx.x as int
    };
    let cy = if idx == 2 || idx == 3 {
        bx.y + h2
    } else {
        bx.y as int
    };
    QuadBox { x: cx as i64, y: cy as i64, width: w2 as i64, height: h2 as i64 }
}

/// Which side of the node's center lines a box lies on: the quadrant
/// index, or -1 when the box straddles a center line. A box whose edge
/// merely touches a center line lies on one side of it.
pub open spec fn quadrant_of(bx: QuadBox, b: QuadBox) -> int {
    let cx = bx.x + bx.width as int / 2;
    let cy = bx.y + bx.height as int / 2;
    if b.right() <= cx {
        if b.bottom() <= cy {
            0
        } else if b.y >= cy {
            2
        } else {
            -1
        }
    } else if b.x >= cx {
        if b.bottom() <= cy {
            1
        } else if b.y >= cy {
            3
        } else {
            -1
        }
    } else {
        -1
    }
}

/// Where an insertion routes a box at a node with region `bx`: into the one
/// child quadrant that fully contains it, or -1 when no single child
/// contains it, in which case it stays at the node itself.
pub open spec fn route_of(bx: QuadBox, b: QuadBox) -> int {
    let q = quadrant_of(bx, b);
    if q >= 0 && child_box(bx, q).contains_spec(b) {
        q
    } else {
        -1
    }
}

/// Routing is exactly the full-containment rule: a box is routed into a
/// child precisely when that child's region fully contains it, and stays
/// at the node precisely when no child's region does.
pub proof fn lemma_route_is_containment(bx: QuadBox, b: QuadBox)
    requires
        bx.wf(),
        b.width >= 0,
        b.height >= 0,
    ensures
        route_of(bx, b) >= 0 ==> child_box(bx, route_of(bx, b)).contains_spec(b),
        route_of(bx, b) == -1 ==> forall|k: int|
            0 <= k < 4 ==> !child_box(bx, k).contains_spec(b),
{
    if route_of(bx, b) == -1 {
        assert forall|k: int| 0 <= k < 4 implies !child_box(bx, k).contains_spec(b) by {
            if child_box(bx, k).contains_spec(b) {
                assert(route_of(bx, b) >= 0);
            }
        }
    }
}

impl Node {
    /// Every object stored in this subtree, in depth-first preorder.
    spec fn items(self) -> Seq<TreeItem>
        decreases self,
    {
        self.values@ + (match self.children {
            Some(q) => q.nw.items() + q.ne.items() + q.sw.items() + q.se.items(),
            None => Seq::empty(),
        })
    }

    /// Well-formedness of a subtree whose region is `bx` and which may still
    /// split `rem` more times: boxes are well-formed, a leaf that may still
    /// split holds at most `cap` objects, a split node has depth budget left,
    /// and every object in a child subtree lies fully within that child's
    /// region.
    spec fn wf_in(self, bx: QuadBox, rem: nat, cap: nat) -> bool
        decreases self,
    {
        &&& (forall|i: int| 0 <= i < self.values@.len() ==> (#[trigger] self.values@[i]).bbox.wf())
        &&& match self.children {
            None => rem > 0 ==> self.values@.len() <= cap,
            Some(q) => {
                &&& rem >= 1
                &&& forall|i: int|
                    0 <= i < self.values@.len() ==> route_of(
                        bx,
                        (#[trigger] self.values@[i]).bbox,
                    ) == -1
                &&& forall|k: int|
                    0 <= k < 4 ==> (#[trigger] q.child(k)).wf_in(
                        child_box(bx, k),
                        (rem - 1) as nat,
                        cap,
                    )
                &&& forall|k: int, j: int|
                    0 <= k < 4 && 0 <= j < q.child(k).items().len() ==> child_box(
                        bx,
                        k,
                    ).contains_spec((#[trigger] q.child(k).items()[j]).bbox)
            },
        }
    }

    fn new() -> (r: Node)
        ensures
            r.items() == Seq::<TreeItem>::empty(),
            r.children is None,
            r.values@ == Seq::<TreeItem>::empty(),
    {
        let r = Node { values: Vec::new(), children: None };
        proof {
            assert(r.items() =~= Seq::<TreeItem>::empty());
        }
        r
    }

    /// Which side of the node's center lines `elem_box` lies on, or -1.
    fn get_quadrant(node_box: &QuadBox, elem_box: &QuadBox) -> (i: i32)
        requires
            node_box.wf(),
            elem_box.wf(),
        ensures
            i == quadrant_of(*node_box, *elem_box),
            -1 <= i < 4,
    {
        let cx = node_box.x + node_box.width / 2;
        let cy = node_box.y + node_box.height / 2;
        if elem_box.x + elem_box.width <= cx {
            if elem_box.y + elem_box.height <= cy {
                0
            } else if elem_box.y >= cy {
                2
            } else {
                -1
            }
        } else if elem_box.x >= cx {
            if elem_box.y + elem_box.height <= cy {
                1
            } else if elem_box.y >= cy {
                3
            } else {
                -1
            }
        } else {
            -1
        }
    }

    /// The region rectangle of the child with quadrant index `idx`.
    fn compute_box(node_box: &QuadBox, idx: i32) -> (r: QuadBox)
        requires
            node_box.wf(),
            0 <= idx < 4,
        ensures
            r == child_box(*node_box, idx as int),
            r.wf(),
    {
        let w2 = node_box.width / 2;
        let h2 = node_box.height / 2;
        let x = if idx == 1 || idx == 3 {
            node_box.x + w2
        } else {
            node_box.x
        };
        let y = if idx == 2 || idx == 3 {
            node_box.y + h2
        } else {
            node_box.y
        };
        QuadBox { x, y, width: w2, height: h2 }
    }
}

/// Copy-on-insert: the tree stores an independent copy of each inserted
/// object, never an alias. Relies on dyn_clone::clone_box, which for a
/// `Clone` type returns a box holding `item.clone()`, and `TreeItem`'s
/// derived clone copies the fields.
#[verifier::external_body]
fn clone_item(item: &TreeItem) -> (r: TreeItem)
    ensures
        r == *item,
{
    *dyn_clone::clone_box(item)
}

/// The objects of `s` that fit no single child quadrant of `bx` and so stay
/// at the node, in their original order.
pub open spec fn kept_of(s: Seq<TreeItem>, bx: QuadBox) -> Seq<TreeItem> {
    s.filter(|v: TreeItem| route_of(bx, v.bbox) == -1)
}

/// The objects of `s` that a split moves into child `k` of `bx`, in their
/// original order.
pub open spec fn routed_of(s: Seq<TreeItem>, bx: QuadBox, k: int) -> Seq<TreeItem> {
    s.filter(|v: TreeItem| route_of(bx, v.bbox) == k)
}

/// A sequence's multiset splits into the five routing classes of a node:
/// a split moves every object into exactly one child or keeps it, and
/// neither drops nor duplicates anything.
pub proof fn lemma_route_partition(s: Seq<TreeItem>, bx: QuadBox)
    ensures
        s.to_multiset() =~= kept_of(s, bx).to_multiset().add(
            routed_of(s, bx, 0).to_multiset(),
        ).add(routed_of(s, bx, 1).to_multiset()).add(routed_of(s, bx, 2).to_multiset()).add(
            routed_of(s, bx, 3).to_multiset(),
        ),
    decreases s.len(),
{
    reveal(Seq::filter);
    if s.len() > 0 {
        let dl = s.drop_last();
        let v = s.last();
        lemma_route_partition(dl, bx);
        assert(s =~= dl.push(v));
        assert(s.to_multiset() =~= dl.to_multiset().insert(v));
    }
}

/// Filtering a pushed sequence: the last element joins the filtered
/// sequence exactly when it satisfies the predicate.
proof fn lemma_route_filters_push(s: Seq<TreeItem>, v: TreeItem, bx: QuadBox)
    ensures
        kept_of(s.push(v), bx) == if route_of(bx, v.bbox) == -1 {
            kept_of(s, bx).push(v)
        } else {
            kept_of(s, bx)
        },
        forall|k: int|
            #![auto]
            0 <= k < 4 ==> routed_of(s.push(v), bx, k) == if route_of(bx, v.bbox) == k {
                routed_of(s, bx, k).push(v)
            } else {
                routed_of(s, bx, k)
            },
{
    reveal(Seq::filter);
    assert(s.push(v).drop_last() =~= s);
}

/// Every element of a routing class is an element of the sequence itself.
proof fn lemma_route_filters_members(s: Seq<TreeItem>, bx: QuadBox)
    ensures
        forall|j: int| 0 <= j < kept_of(s, bx).len() ==> s.contains(#[trigger] kept_of(s, bx)[j]),
        forall|k: int, j: int|
            0 <= k < 4 && 0 <= j < routed_of(s, bx, k).len() ==> s.contains(
                #[trigger] routed_of(s, bx, k)[j],
            ),
    decreases s.len(),
{
    if s.len() > 0 {
        let dl = s.drop_last();
        let v = s.last();
        lemma_route_filters_members(dl, bx);
        lemma_route_filters_push(dl, v, bx);
        assert(s =~= dl.push(v));
        assert(forall|j: int| 0 <= j < dl.len() ==> s.contains(#[trigger] dl[j])) by {
            assert(forall|j: int| 0 <= j < dl.len() ==> dl[j] == s[j]);
        }
        assert(s.contains(s.last())) by {
            assert(s[s.len() - 1] == s.last());
        }
        assert forall|j: int| 0 <= j < kept_of(s, bx).len() implies s.contains(
            #[trigger] kept_of(s, bx)[j],
        ) by {
            if route_of(bx, v.bbox) == -1 {
                assert(kept_of(s, bx) == kept_of(dl, bx).push(v));
            } else {
                assert(kept_of(s, bx) == kept_of(dl, bx));
            }
        }
        assert forall|k: int, j: int|
            0 <= k < 4 && 0 <= j < routed_of(s, bx, k).len() implies s.contains(
            #[trigger] routed_of(s, bx, k)[j],
        ) by {
            if route_of(bx, v.bbox) == k {
                assert(routed_of(s, bx, k) == routed_of(dl, bx, k).push(v));
            } else {
                assert(routed_of(s, bx, k) == routed_of(dl, bx, k));
            }
        }
    }
}

impl Node {
    /// Splits a leaf into four fresh children, redistributing its stored
    /// objects: an object fully contained in one child quadrant moves
    /// there, the rest stay at this node.
    fn split(&mut self, bx: &QuadBox)
        requires
            bx.wf(),
            old(self).children is None,
            forall|i: int|
                0 <= i < old(self).values@.len() ==> (#[trigger] old(self).values@[i]).bbox.wf(),
        ensures
            final(self).children is Some,
            final(self).values@ == kept_of(old(self).values@, *bx),
            ({
                let q = final(self).children->Some_0;
                forall|k: int|
                    #![auto]
                    0 <= k < 4 ==> q.child(k).children is None && q.child(k).values@ == routed_of(
                        old(self).values@,
                        *bx,
                        k,
                    )
            }),
            final(self).model() == model_split(old(self).model(), *bx),
    {
        let mut kept: Vec<TreeItem> = Vec::new();
        let mut c0: Vec<TreeItem> = Vec::new();
        let mut c1: Vec<TreeItem> = Vec::new();
        let mut c2: Vec<TreeItem> = Vec::new();
        let mut c3: Vec<TreeItem> = Vec::new();
        let n = self.values.len();
        let mut idx: usize = 0;
        while idx < n
            invariant
                idx <= n,
                n == self.values@.len(),
                self == old(self),
                bx.wf(),
                forall|i: int|
                    0 <= i < self.values@.len() ==> (#[trigger] self.values@[i]).bbox.wf(),
                kept@ == kept_of(self.values@.take(idx as int), *bx),
                c0@ == routed_of(self.values@.take(idx as int), *bx, 0),
                c1@ == routed_of(self.values@.take(idx as int), *bx, 1),
                c2@ == routed_of(self.values@.take(idx as int), *bx, 2),
                c3@ == routed_of(self.values@.take(idx as int), *bx, 3),
            decreases n - idx,
        {
            let v = self.values[idx];
            let ghost prefix = self.values@.take(idx as int);
            let i = Self::get_quadrant(bx, &v.bbox);
            let mut routed: bool = false;
            if i >= 0 {
                let cb = Self::compute_box(bx, i);
                if cb.contains(&v.bbox) {
                    routed = true;
                    if i == 0 {
                        c0.push(v);
                    } else if i == 1 {
                        c1.push(v);
                    } else if i == 2 {
                        c2.push(v);
                    } else {
                        c3.push(v);
                    }
                }
            }
            if !routed {
                kept.push(v);
            }
            proof {
                lemma_route_filters_push(prefix, v, *bx);
                assert(self.values@.take(idx as int + 1) =~= prefix.push(v));
            }
            idx = idx + 1;
        }
        proof {
            assert(self.values@.take(n as int) =~= self.values@);
        }
        self.values = kept;
        self.children = Some(
            Box::new(
                Quadrants {
                    nw: Node { values: c0, children: None },
                    ne: Node { values: c1, children: None },
                    sw: Node { values: c2, children: None },
                    se: Node { values: c3, children: None },
                },
            ),
        );
        proof {
            assert(old(self).model().values == old(self).values@);
            assert(old(self).model().children is None);
            let q = self.children->Some_0;
            assert(q.nw.model() == model_leaf(routed_of(old(self).values@, *bx, 0)));
            assert(q.ne.model() == model_leaf(routed_of(old(self).values@, *bx, 1)));
            assert(q.sw.model() == model_leaf(routed_of(old(self).values@, *bx, 2)));
            assert(q.se.model() == model_leaf(routed_of(old(self).values@, *bx, 3)));
            assert(self.model().values == kept_of(old(self).values@, *bx));
            assert(self.model().children == Some(
                Box::new(
                    QuadrantsModel {
                        nw: q.nw.model(),
                        ne: q.ne.model(),
                        sw: q.sw.model(),
                        se: q.se.model(),
                    },
                ),
            ));
            assert(self.model() =~~= model_split(old(self).model(), *bx));
        }
    }
}

/// When one sequence's multiset is another's plus one element, every member
/// of the first is a member of the second or that element.
proof fn lemma_multiset_insert_members(s1: Seq<TreeItem>, s2: Seq<TreeItem>, e: TreeItem)
    requires
        s1.to_multiset() == s2.to_multiset().insert(e),
    ensures
        forall|j: int| 0 <= j < s1.len() ==> s2.contains(#[trigger] s1[j]) || s1[j] == e,
{
    assert forall|j: int| 0 <= j < s1.len() implies s2.contains(#[trigger] s1[j]) || s1[j] == e by {
        assert(s1.contains(s1[j]));
        assert(s1.to_multiset().count(s1[j]) > 0);
        if s1[j] != e {
            assert(s2.to_multiset().count(s1[j]) > 0);
        }
    }
}

impl Node {
    /// Inserts one object into the subtree whose region is `bx` and which
    /// may still split `rem` more times. A leaf appends, splitting first
    /// when it is full and may still split; a split node routes the object
    /// into the one child quadrant that fully contains it and keeps it here
    /// otherwise.
    #[verifier::rlimit(60)]
    fn add(&mut self, rem: usize, bx: &QuadBox, elem: &TreeItem, max_num: usize)
        requires
            bx.wf(),
            elem.bbox.wf(),
            old(self).wf_in(*bx, rem as nat, max_num as nat),
        ensures
            final(self).wf_in(*bx, rem as nat, max_num as nat),
            final(self).items().to_multiset() == old(self).items().to_multiset().insert(*elem),
            forall|j: int|
                0 <= j < old(self).values@.len() && route_of(
                    *bx,
                    (#[trigger] old(self).values@[j]).bbox,
                ) == -1 ==> final(self).values@.contains(old(self).values@[j]),
            final(self).model() == model_add(
                old(self).model(),
                *bx,
                rem as nat,
                max_num as nat,
                *elem,
            ),
        decreases rem,
    {
        if self.children.is_none() {
            if rem == 0 || self.values.len() < max_num {
                self.values.push(clone_item(elem));
                proof {
                    assert(old(self).items() =~= old(self).values@);
                    assert(self.items() =~= self.values@);
                    assert(self.values@ == old(self).values@.push(*elem));
                    assert(self.model() =~~= model_add(
                        old(self).model(),
                        *bx,
                        rem as nat,
                        max_num as nat,
                        *elem,
                    ));
                    assert forall|j: int|
                        0 <= j < old(self).values@.len() implies self.values@.contains(
                        #[trigger] old(self).values@[j],
                    ) by {
                        assert(self.values@[j] == old(self).values@[j]);
                    }
                }
                return ;
            }
            self.split(bx);
            proof {
                let vals = old(self).values@;
                let q = self.children->Some_0;
                lemma_route_partition(vals, *bx);
                lemma_route_filters_members(vals, *bx);
                assert(old(self).items() =~= vals);
                assert(q.nw.items() =~= routed_of(vals, *bx, 0));
                assert(q.ne.items() =~= routed_of(vals, *bx, 1));
                assert(q.sw.items() =~= routed_of(vals, *bx, 2));
                assert(q.se.items() =~= routed_of(vals, *bx, 3));
                assert(self.items() == self.values@ + (q.nw.items() + q.ne.items() + q.sw.items()
                    + q.se.items()));
                assert(self.items().to_multiset() =~= old(self).items().to_multiset());
                assert(self.wf_in(*bx, rem as nat, max_num as nat)) by {
                    assert(vals.len() <= max_num);
                    assert forall|j: int| 0 <= j < self.values@.len() implies (#[trigger] self.values@[j]).bbox.wf() by {
                        assert(vals.contains(self.values@[j]));
                        let w = choose|w: int| 0 <= w < vals.len() && vals[w] == self.values@[j];
                        assert(vals[w].bbox.wf());
                    }
                    assert forall|k: int, j: int|
                        0 <= k < 4 && 0 <= j < q.child(k).values@.len() implies (#[trigger] q.child(
                        k,
                    ).values@[j]).bbox.wf() by {
                        assert(vals.contains(q.child(k).values@[j]));
                        let w = choose|w: int|
                            0 <= w < vals.len() && vals[w] == q.child(k).values@[j];
                        assert(vals[w].bbox.wf());
                    }
                    assert forall|k: int| 0 <= k < 4 implies (#[trigger] q.child(k)).wf_in(
                        child_box(*bx, k),
                        (rem - 1) as nat,
                        max_num as nat,
                    ) by {
                        assert(q.child(k).values@.len() <= vals.len());
                    }
                    assert forall|k: int, j: int|
                        0 <= k < 4 && 0 <= j < q.child(k).items().len() implies child_box(
                        *bx,
                        k,
                    ).contains_spec((#[trigger] q.child(k).items()[j]).bbox) by {
                        assert(route_of(*bx, q.child(k).items()[j].bbox) == k);
                    }
                }
            }
        }
        let ghost mid = *self;
        proof {
            assert(mid.wf_in(*bx, rem as nat, max_num as nat));
            assert(mid.items().to_multiset() == old(self).items().to_multiset());
            assert(forall|j: int|
                0 <= j < old(self).values@.len() && route_of(
                    *bx,
                    (#[trigger] old(self).values@[j]).bbox,
                ) == -1 ==> mid.values@.contains(old(self).values@[j]));
        }
        let i = Self::get_quadrant(bx, &elem.bbox);
        if i >= 0 {
            let cb = Self::compute_box(bx, i);
            if cb.contains(&elem.bbox) {
                proof {
                    assert(route_of(*bx, elem.bbox) == i);
                }
                let mut q: Box<Quadrants> = self.children.take().unwrap();
                let ghost qpre = *q;
                if i == 0 {
                    q.nw.add(rem - 1, &cb, elem, max_num);
                } else if i == 1 {
                    q.ne.add(rem - 1, &cb, elem, max_num);
                } else if i == 2 {
                    q.sw.add(rem - 1, &cb, elem, max_num);
                } else {
                    q.se.add(rem - 1, &cb, elem, max_num);
                }
                self.children = Some(q);
                proof {
                    let qn = self.children->Some_0;
                    lemma_multiset_insert_members(
                        qn.child(i as int).items(),
                        qpre.child(i as int).items(),
                        *elem,
                    );
                    assert(mid.items() == mid.values@ + (qpre.nw.items() + qpre.ne.items()
                        + qpre.sw.items() + qpre.se.items()));
                    assert(self.items() == self.values@ + (qn.nw.items() + qn.ne.items()
                        + qn.sw.items() + qn.se.items()));
                    assert(self.values@ == mid.values@);
                    assert(self.items().to_multiset() =~= mid.items().to_multiset().insert(*elem));
                    assert(self.wf_in(*bx, rem as nat, max_num as nat)) by {
                        assert forall|k: int| 0 <= k < 4 implies (#[trigger] qn.child(k)).wf_in(
                            child_box(*bx, k),
                            (rem - 1) as nat,
                            max_num as nat,
                        ) by {
                            if k != i as int {
                                assert(qn.child(k) == qpre.child(k));
                                assert(qpre.child(k).wf_in(
                                    child_box(*bx, k),
                                    (rem - 1) as nat,
                                    max_num as nat,
                                ));
                            }
                        }
                        assert forall|k: int, j: int|
                            0 <= k < 4 && 0 <= j < qn.child(k).items().len() implies child_box(
                            *bx,
                            k,
                        ).contains_spec((#[trigger] qn.child(k).items()[j]).bbox) by {
                            if k == i as int {
                                assert(qpre.child(k).items().contains(qn.child(k).items()[j])
                                    || qn.child(k).items()[j] == *elem);
                                if qpre.child(k).items().contains(qn.child(k).items()[j]) {
                                    let w = choose|w: int|
                                        0 <= w < qpre.child(k).items().len() && qpre.child(
                                            k,
                                        ).items()[w] == qn.child(k).items()[j];
                                    assert(child_box(*bx, k).contains_spec(
                                        qpre.child(k).items()[w].bbox,
                                    ));
                                }
                            }
                        }
                    }
                }
                return ;
            }
        }
        self.values.push(clone_item(elem));
        proof {
            let qm = mid.children->Some_0;
            let qn = self.children->Some_0;
            assert(qn == qm);
            assert(mid.items() == mid.values@ + (qm.nw.items() + qm.ne.items() + qm.sw.items()
                + qm.se.items()));
            assert(self.items() == self.values@ + (qn.nw.items() + qn.ne.items() + qn.sw.items()
                + qn.se.items()));
            assert(self.values@ == mid.values@.push(*elem));
            assert(self.values@.to_multiset() == mid.values@.to_multiset().insert(*elem));
            assert(self.items().to_multiset() =~= mid.items().to_multiset().insert(*elem));
            assert forall|j: int| 0 <= j < mid.values@.len() implies self.values@.contains(
                #[trigger] mid.values@[j],
            ) by {
                assert(self.values@[j] == mid.values@[j]);
            }
        }
    }
}

/// The objects of `s` whose box the probe box overlaps, in order.
pub open spec fn overlap_matches(s: Seq<TreeItem>, target: QuadBox) -> Seq<TreeItem> {
    s.filter(|v: TreeItem| target.overlaps(v.bbox))
}

proof fn lemma_overlap_matches_push(s: Seq<TreeItem>, v: TreeItem, target: QuadBox)
    ensures
        overlap_matches(s.push(v), target) == if target.overlaps(v.bbox) {
            overlap_matches(s, target).push(v)
        } else {
            overlap_matches(s, target)
        },
{
    reveal(Seq::filter);
    assert(s.push(v).drop_last() =~= s);
}

proof fn lemma_overlap_matches_members(s: Seq<TreeItem>, target: QuadBox)
    ensures
        forall|j: int|
            0 <= j < overlap_matches(s, target).len() ==> s.contains(
                #[trigger] overlap_matches(s, target)[j],
            ),
    decreases s.len(),
{
    if s.len() > 0 {
        let dl = s.drop_last();
        let v = s.last();
        lemma_overlap_matches_members(dl, target);
        lemma_overlap_matches_push(dl, v, target);
        assert(s =~= dl.push(v));
        assert(forall|j: int| 0 <= j < dl.len() ==> s.contains(#[trigger] dl[j])) by {
            assert(forall|j: int| 0 <= j < dl.len() ==> dl[j] == s[j]);
        }
        assert(s.contains(s.last())) by {
            assert(s[s.len() - 1] == s.last());
        }
        assert forall|j: int| 0 <= j < overlap_matches(s, target).len() implies s.contains(
            #[trigger] overlap_matches(s, target)[j],
        ) by {
            if target.overlaps(v.bbox) {
                assert(overlap_matches(s, target) == overlap_matches(dl, target).push(v));
            } else {
                assert(overlap_matches(s, target) == overlap_matches(dl, target));
            }
        }
    }
}

impl Node {
    /// The stored objects of this subtree whose box the probe box overlaps,
    /// in depth-first preorder.
    spec fn matching(self, target: QuadBox) -> Seq<TreeItem>
        decreases self,
    {
        overlap_matches(self.values@, target) + (match self.children {
            Some(q) => q.nw.matching(target) + q.ne.matching(target) + q.sw.matching(target)
                + q.se.matching(target),
            None => Seq::empty(),
        })
    }
}

/// Every match is a stored object, and the probe box overlaps it.
proof fn lemma_matching_props(n: Node, target: QuadBox)
    ensures
        forall|j: int|
            0 <= j < n.matching(target).len() ==> n.items().contains(#[trigger] n.matching(target)[j])
                && target.overlaps(n.matching(target)[j].bbox),
    decreases n,
{
    lemma_overlap_matches_members(n.values@, target);
    let mv = overlap_matches(n.values@, target);
    assert forall|j: int| 0 <= j < n.values@.len() implies n.items().contains(
        #[trigger] n.values@[j],
    ) by {
        assert(n.items()[j] == n.values@[j]);
    }
    match n.children {
        None => {
            assert forall|j: int| 0 <= j < n.matching(target).len() implies n.items().contains(
                #[trigger] n.matching(target)[j],
            ) && target.overlaps(n.matching(target)[j].bbox) by {
                assert(n.matching(target)[j] == mv[j]);
                let w = choose|w: int| 0 <= w < n.values@.len() && n.values@[w] == mv[j];
                assert(n.items().contains(n.values@[w]));
            }
        },
        Some(q) => {
            lemma_matching_props(q.nw, target);
            lemma_matching_props(q.ne, target);
            lemma_matching_props(q.sw, target);
            lemma_matching_props(q.se, target);
            let vals = n.values@;
            assert forall|k: int, j: int|
                0 <= k < 4 && 0 <= j < q.child(k).items().len() implies n.items().contains(
                #[trigger] q.child(k).items()[j],
            ) by {
                let i0 = q.nw.items();
                let i1 = q.ne.items();
                let i2 = q.sw.items();
                let i3 = q.se.items();
                let off = vals.len() + (if k == 0 {
                    0int
                } else if k == 1 {
                    i0.len() as int
                } else if k == 2 {
                    i0.len() + i1.len() as int
                } else {
                    i0.len() + i1.len() + i2.len() as int
                });
                assert(n.items()[off + j] == q.child(k).items()[j]);
            }
            assert forall|j: int| 0 <= j < n.matching(target).len() implies n.items().contains(
                #[trigger] n.matching(target)[j],
            ) && target.overlaps(n.matching(target)[j].bbox) by {
                let m0 = q.nw.matching(target);
                let m1 = q.ne.matching(target);
                let m2 = q.sw.matching(target);
                let m3 = q.se.matching(target);
                let e = n.matching(target)[j];
                if j < mv.len() {
                    assert(e == mv[j]);
                    let w = choose|w: int| 0 <= w < vals.len() && vals[w] == mv[j];
                    assert(n.items().contains(vals[w]));
                } else {
                    let r = j - mv.len();
                    if r < m0.len() {
                        assert(e == m0[r]);
                        assert(q.child(0).items().contains(e));
                    } else if r < m0.len() + m1.len() {
                        assert(e == m1[r - m0.len()]);
                        assert(q.child(1).items().contains(e));
                    } else if r < m0.len() + m1.len() + m2.len() {
                        assert(e == m2[r - m0.len() - m1.len()]);
                        assert(q.child(2).items().contains(e));
                    } else {
                        assert(e == m3[r - m0.len() - m1.len() - m2.len()]);
                        assert(q.child(3).items().contains(e));
                    }
                    let k = if r < m0.len() {
                        0int
                    } else if r < m0.len() + m1.len() {
                        1int
                    } else if r < m0.len() + m1.len() + m2.len() {
                        2int
                    } else {
                        3int
                    };
                    let w = choose|w: int|
                        0 <= w < q.child(k).items().len() && q.child(k).items()[w] == e;
                    assert(n.items().contains(q.child(k).items()[w]));
                }
            }
        },
    }
}

/// In a well-formed subtree every stored object's box is well-formed.
proof fn lemma_items_wf(n: Node, bx: QuadBox, rem: nat, cap: nat)
    requires
        n.wf_in(bx, rem, cap),
    ensures
        forall|j: int| 0 <= j < n.items().len() ==> (#[trigger] n.items()[j]).bbox.wf(),
    decreases n,
{
    match n.children {
        None => {},
        Some(q) => {
            assert(q.child(0) == q.nw && q.child(1) == q.ne && q.child(2) == q.sw && q.child(3)
                == q.se);
            lemma_items_wf(q.nw, child_box(bx, 0), (rem - 1) as nat, cap);
            lemma_items_wf(q.ne, child_box(bx, 1), (rem - 1) as nat, cap);
            lemma_items_wf(q.sw, child_box(bx, 2), (rem - 1) as nat, cap);
            lemma_items_wf(q.se, child_box(bx, 3), (rem - 1) as nat, cap);
            let vals = n.values@;
            let i0 = q.nw.items();
            let i1 = q.ne.items();
            let i2 = q.sw.items();
            let i3 = q.se.items();
            assert forall|j: int| 0 <= j < n.items().len() implies (#[trigger] n.items()[j]).bbox.wf() by {
                if j < vals.len() {
                    assert(n.items()[j] == vals[j]);
                } else {
                    let r = j - vals.len();
                    if r < i0.len() {
                        assert(n.items()[j] == i0[r]);
                    } else if r < i0.len() + i1.len() {
                        assert(n.items()[j] == i1[r - i0.len()]);
                    } else if r < i0.len() + i1.len() + i2.len() {
                        assert(n.items()[j] == i2[r - i0.len() - i1.len()]);
                    } else {
                        assert(n.items()[j] == i3[r - i0.len() - i1.len() - i2.len()]);
                    }
                }
            }
        },
    }
}

impl Node {
    /// Collects into `ret_elems` every object stored in this subtree whose
    /// box `u_box` overlaps, descending only into children whose region
    /// rectangle `u_box` overlaps.
    #[verifier::rlimit(60)]
    fn query(
        &self,
        init_box: &QuadBox,
        u_box: &QuadBox,
        ret_elems: &mut Vec<TreeItem>,
        Ghost(rem): Ghost<nat>,
        Ghost(cap): Ghost<nat>,
    )
        requires
            init_box.wf(),
            u_box.wf(),
            self.wf_in(*init_box, rem, cap),
        ensures
            final(ret_elems)@ == old(ret_elems)@ + self.matching(*u_box),
        decreases *self,
    {
        let ghost entry = ret_elems@;
        let n = self.values.len();
        let mut i: usize = 0;
        while i < n
            invariant
                i <= n,
                n == self.values@.len(),
                u_box.wf(),
                forall|j: int|
                    0 <= j < self.values@.len() ==> (#[trigger] self.values@[j]).bbox.wf(),
                ret_elems@ == entry + overlap_matches(self.values@.take(i as int), *u_box),
            decreases n - i,
        {
            let v = self.values[i];
            proof {
                lemma_overlap_matches_push(self.values@.take(i as int), v, *u_box);
                assert(self.values@.take(i as int + 1) =~= self.values@.take(i as int).push(v));
            }
            if u_box.intersects(&v.bbox) {
                ret_elems.push(v);
            }
            i = i + 1;
        }
        proof {
            assert(self.values@.take(n as int) =~= self.values@);
        }
        let ghost mv = overlap_matches(self.values@, *u_box);
        match &self.children {
            Some(q) => {
                proof {
                    assert(rem >= 1);
                    assert(q.child(0) == q.nw && q.child(1) == q.ne && q.child(2) == q.sw
                        && q.child(3) == q.se);
                }
                let cb0 = Self::compute_box(init_box, 0);
                if u_box.intersects(&cb0) {
                    q.nw.query(&cb0, u_box, ret_elems, Ghost((rem - 1) as nat), Ghost(cap));
                } else {
                    proof {
                        lemma_pruned_child_empty(q.nw, cb0, *u_box, (rem - 1) as nat, cap);
                    }
                }
                let cb1 = Self::compute_box(init_box, 1);
                if u_box.intersects(&cb1) {
                    q.ne.query(&cb1, u_box, ret_elems, Ghost((rem - 1) as nat), Ghost(cap));
                } else {
                    proof {
                        lemma_pruned_child_empty(q.ne, cb1, *u_box, (rem - 1) as nat, cap);
                    }
                }
                let cb2 = Self::compute_box(init_box, 2);
                if u_box.intersects(&cb2) {
                    q.sw.query(&cb2, u_box, ret_elems, Ghost((rem - 1) as nat), Ghost(cap));
                } else {
                    proof {
                        lemma_pruned_child_empty(q.sw, cb2, *u_box, (rem - 1) as nat, cap);
                    }
                }
                let cb3 = Self::compute_box(init_box, 3);
                if u_box.intersects(&cb3) {
                    q.se.query(&cb3, u_box, ret_elems, Ghost((rem - 1) as nat), Ghost(cap));
                } else {
                    proof {
                        lemma_pruned_child_empty(q.se, cb3, *u_box, (rem - 1) as nat, cap);
                    }
                }
                proof {
                    assert(ret_elems@ =~= entry + self.matching(*u_box));
                }
            },
            None => {
                proof {
                    assert(ret_elems@ =~= entry + self.matching(*u_box));
                }
            },
        }
    }
}

/// A child subtree whose region the probe box does not overlap matches
/// nothing: every object it stores lies within that region.
proof fn lemma_pruned_child_empty(child: Node, cb: QuadBox, target: QuadBox, rem: nat, cap: nat)
    requires
        child.wf_in(cb, rem, cap),
        forall|j: int|
            0 <= j < child.items().len() ==> cb.contains_spec((#[trigger] child.items()[j]).bbox),
        !target.overlaps(cb),
    ensures
        child.matching(target) == Seq::<TreeItem>::empty(),
{
    lemma_matching_props(child, target);
    if child.matching(target).len() > 0 {
        let e = child.matching(target)[0];
        let w = choose|w: int| 0 <= w < child.items().len() && child.items()[w] == e;
        assert(cb.contains_spec(child.items()[w].bbox));
        assert(false);
    }
    assert(child.matching(target) =~= Seq::<TreeItem>::empty());
}

/// A subtree's matches are exactly the filter of its stored objects: the
/// pruned recursive collection and a linear scan agree, element for element
/// and in order.
proof fn lemma_matching_is_filter(n: Node, target: QuadBox)
    ensures
        n.matching(target) == overlap_matches(n.items(), target),
    decreases n,
{
    match n.children {
        None => {
            assert(n.items() =~= n.values@);
        },
        Some(q) => {
            lemma_matching_is_filter(q.nw, target);
            lemma_matching_is_filter(q.ne, target);
            lemma_matching_is_filter(q.sw, target);
            lemma_matching_is_filter(q.se, target);
            let pred = |v: TreeItem| target.overlaps(v.bbox);
            let vals = n.values@;
            let i0 = q.nw.items();
            let i1 = q.ne.items();
            let i2 = q.sw.items();
            let i3 = q.se.items();
            assert((i0 + i1).filter(pred) == i0.filter(pred) + i1.filter(pred));
            assert((i0 + i1 + i2).filter(pred) == (i0 + i1).filter(pred) + i2.filter(pred));
            assert((i0 + i1 + i2 + i3).filter(pred) == (i0 + i1 + i2).filter(pred) + i3.filter(
                pred,
            ));
            assert((vals + (i0 + i1 + i2 + i3)).filter(pred) == vals.filter(pred) + (i0 + i1 + i2
                + i3).filter(pred));
            assert(n.matching(target) =~= overlap_matches(n.items(), target));
        },
    }
}

/// The matched objects of `s`, as a multiset.
pub open spec fn overlap_mfilter(m: Multiset<TreeItem>, target: QuadBox) -> Multiset<TreeItem> {
    m.filter(|v: TreeItem| target.overlaps(v.bbox))
}

/// Filtering a sequence and filtering its multiset agree.
proof fn lemma_overlap_matches_multiset(s: Seq<TreeItem>, target: QuadBox)
    ensures
        overlap_matches(s, target).to_multiset() == overlap_mfilter(s.to_multiset(), target),
    decreases s.len(),
{
    if s.len() == 0 {
        assert(overlap_matches(s, target) =~= s) by {
            reveal(Seq::filter);
        }
        assert(overlap_matches(s, target).to_multiset() =~= overlap_mfilter(
            s.to_multiset(),
            target,
        ));
    } else {
        let dl = s.drop_last();
        let v = s.last();
        lemma_overlap_matches_multiset(dl, target);
        lemma_overlap_matches_push(dl, v, target);
        assert(s =~= dl.push(v));
        assert(s.to_multiset() =~= dl.to_multiset().insert(v));
        assert(overlap_matches(s, target).to_multiset() =~= overlap_mfilter(
            s.to_multiset(),
            target,
        ));
    }
}

/// Index versus brute force: whatever order objects entered a collection,
/// the matches of a probe box are the same multiset as a linear scan of any
/// sequence holding the same objects.
pub proof fn lemma_query_brute_force_equivalence(
    stored: Seq<TreeItem>,
    inserted: Seq<TreeItem>,
    target: QuadBox,
)
    requires
        stored.to_multiset() == inserted.to_multiset(),
    ensures
        overlap_matches(stored, target).to_multiset() == overlap_matches(
            inserted,
            target,
        ).to_multiset(),
{
    lemma_overlap_matches_multiset(stored, target);
    lemma_overlap_matches_multiset(inserted, target);
}

/// The shape of a subtree, as the contracts speak of it: the objects the
/// node stores, and either no children or all four.
#[verifier::ext_equal]
pub struct SubtreeModel {
    pub values: Seq<TreeItem>,
    pub children: Option<Box<QuadrantsModel>>,
}

/// The four children of a split node, in the fixed quadrant order.
#[verifier::ext_equal]
pub struct QuadrantsModel {
    pub nw: SubtreeModel,
    pub ne: SubtreeModel,
    pub sw: SubtreeModel,
    pub se: SubtreeModel,
}

impl QuadrantsModel {
    pub open spec fn child(self, i: int) -> SubtreeModel {
        if i == 0 {
            self.nw
        } else if i == 1 {
            self.ne
        } else if i == 2 {
            self.sw
        } else {
            self.se
        }
    }

    pub open spec fn with_child(self, i: int, n: SubtreeModel) -> QuadrantsModel {
        if i == 0 {
            QuadrantsModel { nw: n, ne: self.ne, sw: self.sw, se: self.se }
        } else if i == 1 {
            QuadrantsModel { nw: self.nw, ne: n, sw: self.sw, se: self.se }
        } else if i == 2 {
            QuadrantsModel { nw: self.nw, ne: self.ne, sw: n, se: self.se }
        } else {
            QuadrantsModel { nw: self.nw, ne: self.ne, sw: self.sw, se: n }
        }
    }
}

/// An unsplit node holding the given objects.
pub open spec fn model_leaf(vs: Seq<TreeItem>) -> SubtreeModel {
    SubtreeModel { values: vs, children: None }
}

/// The split step: four fresh children; each object fully contained in one
/// child quadrant moves there, the rest stay at the node.
pub open spec fn model_split(m: SubtreeModel, bx: QuadBox) -> SubtreeModel {
    SubtreeModel {
        values: kept_of(m.values, bx),
        children: Some(
            Box::new(
                QuadrantsModel {
                    nw: model_leaf(routed_of(m.values, bx, 0)),
                    ne: model_leaf(routed_of(m.values, bx, 1)),
                    sw: model_leaf(routed_of(m.values, bx, 2)),
                    se: model_leaf(routed_of(m.values, bx, 3)),
                },
            ),
        ),
    }
}

/// One insertion into a subtree with region `bx` and `rem` split levels
/// left: a leaf appends while the depth floor is reached or it has room,
/// and splits first otherwise; at a split node the object goes into the
/// one child that fully contains it, at depth + 1, and stays here when no
/// single child does.
pub open spec fn model_add(
    m: SubtreeModel,
    bx: QuadBox,
    rem: nat,
    cap: nat,
    item: TreeItem,
) -> SubtreeModel
    decreases rem,
{
    if rem == 0 || (m.children is None && m.values.len() < cap) {
        SubtreeModel { values: m.values.push(item), children: m.children }
    } else {
        let base = if m.children is None {
            model_split(m, bx)
        } else {
            m
        };
        let r = route_of(bx, item.bbox);
        if r == -1 {
            SubtreeModel { values: base.values.push(item), children: base.children }
        } else {
            let q = *base.children->Some_0;
            SubtreeModel {
                values: base.values,
                children: Some(
                    Box::new(
                        q.with_child(
                            r,
                            model_add(q.child(r), child_box(bx, r), (rem - 1) as nat, cap, item),
                        ),
                    ),
                ),
            }
        }
    }
}

/// One insertion at the tree's root: an absent root is an empty leaf.
pub open spec fn tree_model_add(
    m: Option<SubtreeModel>,
    bx: QuadBox,
    rem: nat,
    cap: nat,
    item: TreeItem,
) -> Option<SubtreeModel> {
    let base = match m {
        Some(x) => x,
        None => model_leaf(Seq::empty()),
    };
    Some(model_add(base, bx, rem, cap, item))
}

/// Every object stored in the modelled subtree, in depth-first preorder.
pub open spec fn model_items(m: SubtreeModel) -> Seq<TreeItem>
    decreases m,
{
    m.values + (match m.children {
        Some(q) => model_items(q.nw) + model_items(q.ne) + model_items(q.sw) + model_items(q.se),
        None => Seq::empty(),
    })
}

/// The region rectangles of the modelled subtree, in depth-first preorder.
pub open spec fn model_regions(m: SubtreeModel, bx: QuadBox) -> Seq<Option<QuadBox>>
    decreases m,
{
    seq![Some(bx)] + (match m.children {
        Some(q) => model_regions(q.nw, child_box(bx, 0)) + model_regions(q.ne, child_box(bx, 1))
            + model_regions(q.sw, child_box(bx, 2)) + model_regions(q.se, child_box(bx, 3)),
        None => Seq::empty(),
    })
}

/// The objects stored at exactly depth `d` of the modelled subtree.
pub open spec fn model_level(m: SubtreeModel, d: nat) -> Seq<TreeItem>
    decreases m,
{
    if d == 0 {
        m.values
    } else {
        match m.children {
            Some(q) => model_level(q.nw, (d - 1) as nat) + model_level(q.ne, (d - 1) as nat)
                + model_level(q.sw, (d - 1) as nat) + model_level(q.se, (d - 1) as nat),
            None => Seq::empty(),
        }
    }
}

pub open spec fn model_items_opt(m: Option<SubtreeModel>) -> Seq<TreeItem> {
    match m {
        Some(x) => model_items(x),
        None => Seq::empty(),
    }
}

pub open spec fn model_regions_opt(m: Option<SubtreeModel>, bx: QuadBox) -> Seq<Option<QuadBox>> {
    match m {
        Some(x) => model_regions(x, bx),
        None => Seq::empty(),
    }
}

pub open spec fn model_level_opt(m: Option<SubtreeModel>, d: nat) -> Seq<TreeItem> {
    match m {
        Some(x) => model_level(x, d),
        None => Seq::empty(),
    }
}

/// The node a path of quadrant indices leads to, from the given node down.
pub open spec fn model_node_at(m: SubtreeModel, path: Seq<int>) -> Option<SubtreeModel>
    decreases path.len(),
{
    if path.len() == 0 {
        Some(m)
    } else {
        match m.children {
            Some(q) => if 0 <= path[0] < 4 {
                model_node_at(q.child(path[0]), path.drop_first())
            } else {
                None
            },
            None => None,
        }
    }
}

/// The region of the node a path leads to.
pub open spec fn model_box_at(bx: QuadBox, path: Seq<int>) -> QuadBox
    decreases path.len(),
{
    if path.len() == 0 {
        bx
    } else {
        model_box_at(child_box(bx, path[0]), path.drop_first())
    }
}

/// Straddling-object stability: an object stored at a node and fitting no
/// single child quadrant of that node's region is still stored at that
/// same node after an insertion — and so after arbitrarily many — whatever
/// splits happen beneath it.
pub proof fn lemma_straddler_stays(
    m: SubtreeModel,
    bx: QuadBox,
    rem: nat,
    cap: nat,
    item: TreeItem,
    path: Seq<int>,
    v: TreeItem,
)
    requires
        model_node_at(m, path) is Some,
        model_node_at(m, path)->Some_0.values.contains(v),
        route_of(model_box_at(bx, path), v.bbox) == -1,
    ensures
        model_node_at(model_add(m, bx, rem, cap, item), path) is Some,
        model_node_at(model_add(m, bx, rem, cap, item), path)->Some_0.values.contains(v),
    decreases rem,
{
    let m2 = model_add(m, bx, rem, cap, item);
    if rem == 0 || (m.children is None && m.values.len() < cap) {
        if path.len() == 0 {
            let j = choose|j: int| 0 <= j < m.values.len() && m.values[j] == v;
            assert(m2.values[j] == v);
        }
    } else {
        let base = if m.children is None {
            model_split(m, bx)
        } else {
            m
        };
        if m.children is None {
            // the node was a leaf: only the empty path names a node in it
            assert(path.len() == 0);
            let j = choose|j: int| 0 <= j < m.values.len() && m.values[j] == v;
            assert(kept_of(m.values, bx).contains(v));
        }
        let r = route_of(bx, item.bbox);
        if r == -1 {
            if path.len() == 0 {
                let j = choose|j: int| 0 <= j < base.values.len() && base.values[j] == v;
                assert(m2.values[j] == v);
            } else {
                assert(m2.children == base.children);
            }
        } else {
            let q = *base.children->Some_0;
            let qn = *m2.children->Some_0;
            if path.len() == 0 {
                assert(m2.values == base.values);
            } else {
                let r0 = path[0];
                if r0 == r {
                    lemma_straddler_stays(
                        q.child(r),
                        child_box(bx, r),
                        (rem - 1) as nat,
                        cap,
                        item,
                        path.drop_first(),
                        v,
                    );
                    assert(qn.child(r0) == model_add(
                        q.child(r),
                        child_box(bx, r),
                        (rem - 1) as nat,
                        cap,
                        item,
                    ));
                } else {
                    assert(qn.child(r0) == q.child(r0));
                }
            }
        }
    }
}

impl Node {
    /// This subtree's shape.
    spec fn model(self) -> SubtreeModel
        decreases self,
    {
        SubtreeModel {
            values: self.values@,
            children: match self.children {
                Some(q) => Some(
                    Box::new(
                        QuadrantsModel {
                            nw: q.nw.model(),
                            ne: q.ne.model(),
                            sw: q.sw.model(),
                            se: q.se.model(),
                        },
                    ),
                ),
                None => None,
            },
        }
    }
}

/// The node-level observables agree with the model-level ones.
proof fn lemma_node_model_observables(n: Node, bx: QuadBox)
    ensures
        model_items(n.model()) == n.items(),
        model_regions(n.model(), bx) == n.region_boxes(bx),
        forall|d: nat| #[trigger] model_level(n.model(), d) == n.values_at_depth(d),
    decreases n,
{
    match n.children {
        None => {
            assert(model_items(n.model()) =~= n.items());
            assert(model_regions(n.model(), bx) =~= n.region_boxes(bx));
            assert forall|d: nat| #[trigger] model_level(n.model(), d) == n.values_at_depth(
                d,
            ) by {
                assert(model_level(n.model(), d) =~= n.values_at_depth(d));
            }
        },
        Some(q) => {
            lemma_node_model_observables(q.nw, child_box(bx, 0));
            lemma_node_model_observables(q.ne, child_box(bx, 1));
            lemma_node_model_observables(q.sw, child_box(bx, 2));
            lemma_node_model_observables(q.se, child_box(bx, 3));
            assert(model_items(n.model()) =~= n.items());
            assert(model_regions(n.model(), bx) =~= n.region_boxes(bx));
            assert forall|d: nat| #[trigger] model_level(n.model(), d) == n.values_at_depth(
                d,
            ) by {
                if d > 0 {
                    assert(model_level(q.nw.model(), (d - 1) as nat) == q.nw.values_at_depth(
                        (d - 1) as nat,
                    ));
                    assert(model_level(q.ne.model(), (d - 1) as nat) == q.ne.values_at_depth(
                        (d - 1) as nat,
                    ));
                    assert(model_level(q.sw.model(), (d - 1) as nat) == q.sw.values_at_depth(
                        (d - 1) as nat,
                    ));
                    assert(model_level(q.se.model(), (d - 1) as nat) == q.se.values_at_depth(
                        (d - 1) as nat,
                    ));
                }
                assert(model_level(n.model(), d) =~= n.values_at_depth(d));
            }
        },
    }
}

/// The spatial index: a region quadtree over a world rectangle, with a
/// configurable depth bound and per-node split threshold.
pub struct QuadTree {
    root: Option<Node>,
    u_box: QuadBox,
    max_depth: usize,
    max_num_of_elems: usize,
}

impl QuadTree {
    /// Every stored object, in depth-first preorder.
    pub closed spec fn items(self) -> Seq<TreeItem> {
        match self.root {
            Some(n) => n.items(),
            None => Seq::empty(),
        }
    }

    /// The tree's shape: absent until the first insertion, then the exact
    /// structure that `tree_model_add` builds, insertion by insertion.
    pub closed spec fn model(self) -> Option<SubtreeModel> {
        match self.root {
            Some(n) => Some(n.model()),
            None => None,
        }
    }

    /// The objects stored at the root node itself: those that fit no single
    /// quadrant of the world rectangle.
    pub closed spec fn root_values(self) -> Seq<TreeItem> {
        match self.root {
            Some(n) => n.values@,
            None => Seq::empty(),
        }
    }

    /// The world rectangle the tree was created over.
    pub closed spec fn world_box(self) -> QuadBox {
        self.u_box
    }

    /// The configured depth bound.
    pub closed spec fn depth_limit(self) -> nat {
        self.max_depth as nat
    }

    /// The configured per-node split threshold.
    pub closed spec fn capacity(self) -> nat {
        self.max_num_of_elems as nat
    }

    pub closed spec fn wf(self) -> bool {
        &&& self.u_box.wf()
        &&& match self.root {
            Some(n) => n.wf_in(self.u_box, self.max_depth as nat, self.max_num_of_elems as nat),
            None => true,
        }
    }

    /// An empty tree over the world rectangle `[0, 0, width, height]`.
    pub fn new(width: i64, height: i64, max_depth: usize, max_elements_per_node: usize) -> (r:
        QuadTree)
        requires
            0 <= width <= COORD_MAX,
            0 <= height <= COORD_MAX,
        ensures
            r.wf(),
            r.model() is None,
            r.items() == Seq::<TreeItem>::empty(),
            r.regions() == Seq::<Option<QuadBox>>::empty(),
            r.root_values() == Seq::<TreeItem>::empty(),
            r.world_box() == (QuadBox { x: 0, y: 0, width, height }),
            r.depth_limit() == max_depth,
            r.capacity() == max_elements_per_node,
    {
        QuadTree {
            root: None,
            u_box: QuadBox { x: 0, y: 0, width, height },
            max_depth,
            max_num_of_elems: max_elements_per_node,
        }
    }

    /// Inserts an independent copy of the object. The tree's whole shape
    /// after the call is fixed by `tree_model_add`: a leaf with room (or at
    /// the depth bound) appends; a full leaf above the bound splits,
    /// redistributing by full containment; a split node routes the object
    /// into the one child quadrant that fully contains it, and keeps it
    /// when no single child does.
    pub fn add(&mut self, elem: &TreeItem)
        requires
            old(self).wf(),
            elem.bbox.wf(),
        ensures
            final(self).wf(),
            final(self).model() == tree_model_add(
                old(self).model(),
                old(self).world_box(),
                old(self).depth_limit(),
                old(self).capacity(),
                *elem,
            ),
            final(self).items().to_multiset() == old(self).items().to_multiset().insert(*elem),
            final(self).world_box() == old(self).world_box(),
            final(self).depth_limit() == old(self).depth_limit(),
            final(self).capacity() == old(self).capacity(),
            forall|j: int|
                0 <= j < old(self).root_values().len() && route_of(
                    old(self).world_box(),
                    (#[trigger] old(self).root_values()[j]).bbox,
                ) == -1 ==> final(self).root_values().contains(old(self).root_values()[j]),
    {
        if self.root.is_none() {
            self.root = Some(Node::new());
        }
        proof {
            match old(self).root {
                Some(_) => {},
                None => {
                    assert(self.root->Some_0.model() =~~= model_leaf(Seq::empty()));
                },
            }
        }
        let mut n = self.root.take().unwrap();
        n.add(self.max_depth, &self.u_box, elem, self.max_num_of_elems);
        self.root = Some(n);
    }
}

/// The correction that a query yields for one matching object: the
/// penetration vector taken from the probe box's Minkowski difference with
/// that object's box; absent only when all four of its edge distances are
/// exactly zero.
pub open spec fn pen_result(target: QuadBox, b: QuadBox) -> Option<Vector2> {
    let p = pen_raw(
        target.md_x(b),
        target.md_x(b) + target.md_width(b),
        target.md_y(b),
        target.md_y(b) + target.md_height(b),
    );
    if target.md_x(b) == 0 && target.md_x(b) + target.md_width(b) == 0 && target.md_y(b) == 0
        && target.md_y(b) + target.md_height(b) == 0 {
        None
    } else {
        Some(Vector2 { x: (-p.0) as i64, y: (-p.1) as i64 })
    }
}

/// Anything the spatial index can be probed with: it exposes its bounding
/// box.
pub trait TreeObject: Sized {
    /// The object's internal invariant; constructors establish it and every
    /// method keeps it.
    spec fn inv(&self) -> bool;

    /// The object's bounding box, as the contracts speak of it.
    spec fn bbox_spec(&self) -> QuadBox;

    fn get_box(&self) -> (r: QuadBox)
        requires
            self.inv(),
        ensures
            r == self.bbox_spec(),
    ;
}

impl QuadTree {
    /// Every stored object whose box `u_box` overlaps, exactly the objects a
    /// linear scan of the stored collection finds, in the same order
    /// (the object-returning query mode).
    pub fn query_objects(&self, u_box: &QuadBox) -> (r: Vec<TreeItem>)
        requires
            self.wf(),
            u_box.wf(),
        ensures
            r@ == overlap_matches(self.items(), *u_box),
            forall|j: int|
                0 <= j < r@.len() ==> (#[trigger] r@[j]).bbox.wf() && u_box.overlaps(r@[j].bbox),
    {
        let mut ret: Vec<TreeItem> = Vec::new();
        match &self.root {
            Some(n) => {
                n.query(
                    &self.u_box,
                    u_box,
                    &mut ret,
                    Ghost(self.max_depth as nat),
                    Ghost(self.max_num_of_elems as nat),
                );
                proof {
                    lemma_matching_is_filter(*n, *u_box);
                    lemma_matching_props(*n, *u_box);
                    lemma_items_wf(
                        *n,
                        self.u_box,
                        self.max_depth as nat,
                        self.max_num_of_elems as nat,
                    );
                    assert forall|j: int| 0 <= j < ret@.len() implies (#[trigger] ret@[j]).bbox.wf()
                        && u_box.overlaps(ret@[j].bbox) by {
                        assert(ret@[j] == n.matching(*u_box)[j]);
                        let w = choose|w: int|
                            0 <= w < n.items().len() && n.items()[w] == n.matching(*u_box)[j];
                        assert(n.items()[w].bbox.wf());
                    }
                }
            },
            None => {
                proof {
                    reveal(Seq::filter);
                    assert(ret@ =~= overlap_matches(self.items(), *u_box));
                }
            },
        }
        ret
    }

    /// One optional correction vector per stored object that `u_box`
    /// overlaps (the correction-returning query mode): for the j-th match,
    /// the penetration vector of `u_box`'s Minkowski difference with it.
    /// Every returned entry is a correction, never nothing.
    pub fn query_box(&self, u_box: &QuadBox) -> (r: Vec<Option<Vector2>>)
        requires
            self.wf(),
            u_box.wf(),
        ensures
            r@.len() == overlap_matches(self.items(), *u_box).len(),
            forall|j: int|
                0 <= j < r@.len() ==> r@[j] == pen_result(
                    *u_box,
                    overlap_matches(self.items(), *u_box)[j].bbox,
                ),
            forall|j: int| 0 <= j < r@.len() ==> (#[trigger] r@[j]) is Some,
    {
        let objs = self.query_objects(u_box);
        let ghost matches = overlap_matches(self.items(), *u_box);
        let mut ret: Vec<Option<Vector2>> = Vec::new();
        let n = objs.len();
        let mut j: usize = 0;
        while j < n
            invariant
                j <= n,
                n == objs@.len(),
                objs@ == matches,
                u_box.wf(),
                forall|w: int|
                    0 <= w < objs@.len() ==> (#[trigger] objs@[w]).bbox.wf() && u_box.overlaps(
                        objs@[w].bbox,
                    ),
                ret@.len() == j,
                forall|w: int| 0 <= w < j ==> ret@[w] == pen_result(*u_box, matches[w].bbox),
                forall|w: int| 0 <= w < j ==> (#[trigger] ret@[w]) is Some,
            decreases n - j,
        {
            let b = objs[j].bbox;
            let md = u_box.minkowski_difference(&b);
            proof {
                lemma_pen_vector_resolves(*u_box, b);
            }
            let pen = u_box.pen_vector(&b, &md);
            ret.push(pen);
            j = j + 1;
        }
        ret
    }

    /// The correction-returning query, probing with an object's box.
    pub fn query<T: TreeObject>(&self, elem: &T) -> (r: Vec<Option<Vector2>>)
        requires
            self.wf(),
            elem.inv(),
            elem.bbox_spec().wf(),
        ensures
            r@.len() == overlap_matches(self.items(), elem.bbox_spec()).len(),
            forall|j: int|
                0 <= j < r@.len() ==> r@[j] == pen_result(
                    elem.bbox_spec(),
                    overlap_matches(self.items(), elem.bbox_spec())[j].bbox,
                ),
            forall|j: int| 0 <= j < r@.len() ==> (#[trigger] r@[j]) is Some,
    {
        let b = elem.get_box();
        self.query_box(&b)
    }
}

impl Node {
    /// The region rectangles of this subtree, in depth-first preorder.
    spec fn region_boxes(self, bx: QuadBox) -> Seq<Option<QuadBox>>
        decreases self,
    {
        seq![Some(bx)] + (match self.children {
            Some(q) => q.nw.region_boxes(child_box(bx, 0)) + q.ne.region_boxes(child_box(bx, 1))
                + q.sw.region_boxes(child_box(bx, 2)) + q.se.region_boxes(child_box(bx, 3)),
            None => Seq::empty(),
        })
    }

    /// The objects stored at exactly depth `d` below this node, in
    /// depth-first order, which within one level is also left-to-right
    /// breadth-first order.
    spec fn values_at_depth(self, d: nat) -> Seq<TreeItem>
        decreases self,
    {
        if d == 0 {
            self.values@
        } else {
            match self.children {
                Some(q) => q.nw.values_at_depth((d - 1) as nat) + q.ne.values_at_depth(
                    (d - 1) as nat,
                ) + q.sw.values_at_depth((d - 1) as nat) + q.se.values_at_depth((d - 1) as nat),
                None => Seq::empty(),
            }
        }
    }

    /// At every split node, what stays fits no single child quadrant.
    spec fn placed_shallowest(self, bx: QuadBox) -> bool
        decreases self,
    {
        match self.children {
            None => true,
            Some(q) => {
                &&& forall|i: int|
                    0 <= i < self.values@.len() ==> route_of(
                        bx,
                        (#[trigger] self.values@[i]).bbox,
                    ) == -1
                &&& forall|k: int|
                    0 <= k < 4 ==> (#[trigger] q.child(k)).placed_shallowest(child_box(bx, k))
            },
        }
    }

    /// Leaves that may still split hold at most `cap` objects.
    spec fn leaves_within(self, rem: nat, cap: nat) -> bool
        decreases self,
    {
        match self.children {
            None => rem > 0 ==> self.values@.len() <= cap,
            Some(q) => forall|k: int|
                0 <= k < 4 ==> (#[trigger] q.child(k)).leaves_within((rem - 1) as nat, cap),
        }
    }

    fn get_boxes(&self, init_box: &QuadBox, boxes: &mut Vec<Option<QuadBox>>)
        requires
            init_box.wf(),
        ensures
            final(boxes)@ == old(boxes)@ + self.region_boxes(*init_box),
        decreases *self,
    {
        boxes.push(Some(*init_box));
        match &self.children {
            Some(q) => {
                let cb0 = Self::compute_box(init_box, 0);
                q.nw.get_boxes(&cb0, boxes);
                let cb1 = Self::compute_box(init_box, 1);
                q.ne.get_boxes(&cb1, boxes);
                let cb2 = Self::compute_box(init_box, 2);
                q.sw.get_boxes(&cb2, boxes);
                let cb3 = Self::compute_box(init_box, 3);
                q.se.get_boxes(&cb3, boxes);
                proof {
                    assert(boxes@ =~= old(boxes)@ + self.region_boxes(*init_box));
                }
            },
            None => {
                proof {
                    assert(boxes@ =~= old(boxes)@ + self.region_boxes(*init_box));
                }
            },
        }
    }

    fn collect_items(&self, out: &mut Vec<TreeItem>)
        ensures
            final(out)@ == old(out)@ + self.items(),
        decreases *self,
    {
        let ghost entry = out@;
        let n = self.values.len();
        let mut i: usize = 0;
        while i < n
            invariant
                i <= n,
                n == self.values@.len(),
                out@ == entry + self.values@.take(i as int),
            decreases n - i,
        {
            let v = self.values[i];
            proof {
                assert(self.values@.take(i as int + 1) =~= self.values@.take(i as int).push(v));
            }
            out.push(v);
            i = i + 1;
        }
        proof {
            assert(self.values@.take(n as int) =~= self.values@);
        }
        match &self.children {
            Some(q) => {
                q.nw.collect_items(out);
                q.ne.collect_items(out);
                q.sw.collect_items(out);
                q.se.collect_items(out);
                proof {
                    assert(out@ =~= entry + self.items());
                }
            },
            None => {
                proof {
                    assert(out@ =~= entry + self.items());
                }
            },
        }
    }

    fn collect_at_depth(&self, d: usize, out: &mut Vec<TreeItem>)
        ensures
            final(out)@ == old(out)@ + self.values_at_depth(d as nat),
        decreases *self,
    {
        let ghost entry = out@;
        if d == 0 {
            let n = self.values.len();
            let mut i: usize = 0;
            while i < n
                invariant
                    i <= n,
                    n == self.values@.len(),
                    out@ == entry + self.values@.take(i as int),
                decreases n - i,
            {
                let v = self.values[i];
                proof {
                    assert(self.values@.take(i as int + 1) =~= self.values@.take(i as int).push(
                        v,
                    ));
                }
                out.push(v);
                i = i + 1;
            }
            proof {
                assert(self.values@.take(n as int) =~= self.values@);
            }
        } else {
            match &self.children {
                Some(q) => {
                    q.nw.collect_at_depth(d - 1, out);
                    q.ne.collect_at_depth(d - 1, out);
                    q.sw.collect_at_depth(d - 1, out);
                    q.se.collect_at_depth(d - 1, out);
                    proof {
                        assert(out@ =~= entry + self.values_at_depth(d as nat));
                    }
                },
                None => {
                    proof {
                        assert(out@ =~= entry + self.values_at_depth(d as nat));
                    }
                },
            }
        }
    }
}

/// A well-formed subtree keeps an object at a split node only when it fits
/// no single child.
proof fn lemma_wf_placed(n: Node, bx: QuadBox, rem: nat, cap: nat)
    requires
        n.wf_in(bx, rem, cap),
    ensures
        n.placed_shallowest(bx),
    decreases n,
{
    match n.children {
        None => {},
        Some(q) => {
            assert(q.child(0) == q.nw && q.child(1) == q.ne && q.child(2) == q.sw && q.child(3)
                == q.se);
            lemma_wf_placed(q.nw, child_box(bx, 0), (rem - 1) as nat, cap);
            lemma_wf_placed(q.ne, child_box(bx, 1), (rem - 1) as nat, cap);
            lemma_wf_placed(q.sw, child_box(bx, 2), (rem - 1) as nat, cap);
            lemma_wf_placed(q.se, child_box(bx, 3), (rem - 1) as nat, cap);
        },
    }
}

/// In a well-formed subtree, every leaf that may still split holds at most
/// `cap` objects.
proof fn lemma_wf_leaves(n: Node, bx: QuadBox, rem: nat, cap: nat)
    requires
        n.wf_in(bx, rem, cap),
    ensures
        n.leaves_within(rem, cap),
    decreases n,
{
    match n.children {
        None => {},
        Some(q) => {
            assert(q.child(0) == q.nw && q.child(1) == q.ne && q.child(2) == q.sw && q.child(3)
                == q.se);
            lemma_wf_leaves(q.nw, child_box(bx, 0), (rem - 1) as nat, cap);
            lemma_wf_leaves(q.ne, child_box(bx, 1), (rem - 1) as nat, cap);
            lemma_wf_leaves(q.sw, child_box(bx, 2), (rem - 1) as nat, cap);
            lemma_wf_leaves(q.se, child_box(bx, 3), (rem - 1) as nat, cap);
        },
    }
}

impl QuadTree {
    /// Every leaf above the depth floor holds at most `capacity()` objects:
    /// a leaf that an insertion fills beyond the threshold is split, so only
    /// nodes at the depth bound keep accepting objects without limit.
    pub closed spec fn all_leaves_within_capacity(self) -> bool {
        match self.root {
            Some(n) => n.leaves_within(self.max_depth as nat, self.max_num_of_elems as nat),
            None => true,
        }
    }

    /// Every stored object sits at the shallowest node whose region fully
    /// contains its box: at each split node, the objects kept there fit no
    /// single child quadrant, at every depth.
    pub closed spec fn stored_at_shallowest_fit(self) -> bool {
        match self.root {
            Some(n) => n.placed_shallowest(self.u_box),
            None => true,
        }
    }

    /// The region rectangles of every node, in depth-first preorder.
    pub closed spec fn regions(self) -> Seq<Option<QuadBox>> {
        match self.root {
            Some(n) => n.region_boxes(self.u_box),
            None => Seq::empty(),
        }
    }

    /// The objects stored at exactly depth `d`, in breadth-first order
    /// within the level.
    pub closed spec fn level_values(self, d: nat) -> Seq<TreeItem> {
        match self.root {
            Some(n) => n.values_at_depth(d),
            None => Seq::empty(),
        }
    }

    /// A depth-first preorder dump of every node's region rectangle.
    pub fn get_boxes(&self) -> (r: Vec<Option<QuadBox>>)
        requires
            self.wf(),
        ensures
            r@ == self.regions(),
    {
        let mut ret: Vec<Option<QuadBox>> = Vec::new();
        match &self.root {
            Some(n) => {
                n.get_boxes(&self.u_box, &mut ret);
            },
            None => {},
        }
        ret
    }

    /// Every stored object, in depth-first preorder.
    pub fn get_items(&self) -> (r: Vec<TreeItem>)
        ensures
            r@ == self.items(),
    {
        let mut ret: Vec<TreeItem> = Vec::new();
        match &self.root {
            Some(n) => {
                n.collect_items(&mut ret);
            },
            None => {},
        }
        ret
    }

    /// The stored objects grouped by depth, one entry per level from the
    /// root down to the depth bound.
    pub fn levels(&self) -> (r: Vec<Vec<TreeItem>>)
        requires
            self.depth_limit() < usize::MAX,
        ensures
            r@.len() == self.depth_limit() + 1,
            forall|d: int| 0 <= d < r@.len() ==> (#[trigger] r@[d])@ == self.level_values(d as nat),
    {
        let mut ret: Vec<Vec<TreeItem>> = Vec::new();
        let mut d: usize = 0;
        while d <= self.max_depth
            invariant
                self.depth_limit() < usize::MAX,
                d <= self.max_depth + 1,
                ret@.len() == d,
                forall|w: int|
                    0 <= w < d ==> (#[trigger] ret@[w])@ == self.level_values(w as nat),
            decreases self.max_depth + 1 - d,
        {
            let mut lvl: Vec<TreeItem> = Vec::new();
            match &self.root {
                Some(n) => {
                    n.collect_at_depth(d, &mut lvl);
                },
                None => {},
            }
            ret.push(lvl);
            d = d + 1;
        }
        ret
    }
}

/// The tree's observables are those of its shape: the stored objects, the
/// region dump and the per-depth levels can all be read off `model()`.
pub proof fn lemma_model_observables(t: QuadTree)
    ensures
        t.items() == model_items_opt(t.model()),
        t.regions() == model_regions_opt(t.model(), t.world_box()),
        forall|d: nat| #[trigger] t.level_values(d) == model_level_opt(t.model(), d),
{
    match t.root {
        Some(n) => {
            lemma_node_model_observables(n, t.world_box());
        },
        None => {},
    }
}

/// Containment-based routing puts every object at the shallowest node
/// whose region fully contains its box: in any well-formed tree, an object
/// kept at a split node fits no single child quadrant.
pub proof fn lemma_shallowest_placement(t: QuadTree)
    requires
        t.wf(),
    ensures
        t.stored_at_shallowest_fit(),
{
    match t.root {
        Some(n) => {
            lemma_wf_placed(n, t.world_box(), t.depth_limit(), t.capacity());
        },
        None => {},
    }
}

/// Splitting keeps every leaf above the depth floor within capacity: in any
/// well-formed tree, however it was filled, only nodes at the depth bound
/// may hold more than `capacity()` objects while unsplit.
pub proof fn lemma_split_correctness(t: QuadTree)
    requires
        t.wf(),
    ensures
        t.all_leaves_within_capacity(),
{
    match t.root {
        Some(n) => {
            lemma_wf_leaves(n, t.world_box(), t.depth_limit(), t.capacity());
        },
        None => {},
    }
}

/// Every match of a probe against a well-formed tree is a well-formed box
/// the probe overlaps.
pub proof fn lemma_query_matches_wf(t: QuadTree, target: QuadBox)
    requires
        t.wf(),
    ensures
        forall|j: int|
            0 <= j < overlap_matches(t.items(), target).len() ==> (#[trigger] overlap_matches(
                t.items(),
                target,
            )[j]).bbox.wf() && target.overlaps(overlap_matches(t.items(), target)[j].bbox),
{
    let ms = overlap_matches(t.items(), target);
    match t.root {
        Some(n) => {
            lemma_matching_is_filter(n, target);
            lemma_matching_props(n, target);
            lemma_items_wf(n, t.world_box(), t.depth_limit(), t.capacity());
            assert forall|j: int| 0 <= j < ms.len() implies (#[trigger] ms[j]).bbox.wf()
                && target.overlaps(ms[j].bbox) by {
                assert(ms[j] == n.matching(target)[j]);
                let w = choose|w: int|
                    0 <= w < n.items().len() && n.items()[w] == n.matching(target)[j];
                assert(n.items()[w].bbox.wf());
            }
        },
        None => {
            reveal(Seq::filter);
        },
    }
}

/// Whether box `a`, translated by `(dx, dy)`, would overlap box `b`.
pub open spec fn overlaps_after_shift(a: QuadBox, b: QuadBox, dx: int, dy: int) -> bool {
    &&& a.x + dx < b.right()
    &&& b.x < a.right() + dx
    &&& a.y + dy < b.bottom()
    &&& b.y < a.bottom() + dy
}

/// When two boxes overlap, the penetration vector exists, and translating
/// the first box by it removes the overlap.
pub proof fn lemma_pen_vector_resolves(a: QuadBox, b: QuadBox)
    requires
        a.overlaps(b),
    ensures
        ({
            let p = pen_raw(a.md_x(b), a.md_x(b) + a.md_width(b), a.md_y(b), a.md_y(b) + a.md_height(b));
            &&& !(p.0 == 0 && p.1 == 0)
            &&& !overlaps_after_shift(a, b, -p.0, -p.1)
        }),
{
}

} // verus!
