use crate::objects::{vec_within_limit, ObjectTrait, VAL_LIMIT};
use crate::quadtree::{
    abs_val, lemma_query_matches_wf, overlap_matches, pen_result, QuadBox, QuadTree, TreeItem,
    Vector2, COORD_MAX,
};
use vstd::arithmetic::div_mod::{
    lemma_div_is_ordered, lemma_div_multiples_vanish, lemma_div_pos_is_pos,
};
use vstd::prelude::*;

verus! {

broadcast use vstd::seq_lib::group_seq_lib_default;

/// Longest simulation step the integrator accepts, in the caller's time
/// unit (milliseconds in the reference host).
pub const DT_MAX: i64 = 100_000;

/// Largest speed component the physics tick accepts at its start.
pub const SPEED_MAX: i64 = 10_000_000_000;

/// Largest acceleration component the physics tick accepts.
pub const ACCEL_MAX: i64 = 1_000_000;

/// Largest component of a correction vector: an edge distance of the
/// Minkowski difference of two well-formed boxes, or a boundary correction,
/// is within this bound.
pub const PEN_ABS_MAX: i64 = 4_000_000_000;

/// Most correction vectors one collision pass accepts.
pub const PENS_MAX: usize = 100_000_000;

/// Truncating integer division — what the machine's signed division
/// computes — for a positive divisor.
pub open spec fn trunc_div(a: int, b: int) -> int {
    if a >= 0 {
        a / b
    } else {
        -((-a) / b)
    }
}

/// Truncating division cannot push a quotient past a bound on the dividend:
/// when the dividend is at most `k` times the divisor in magnitude, the
/// quotient is at most `k` in magnitude.
proof fn lemma_trunc_div_bound(a: int, b: int, k: int)
    requires
        b > 0,
        k >= 0,
        -(k * b) <= a <= k * b,
    ensures
        -k <= trunc_div(a, b) <= k,
{
    if a >= 0 {
        lemma_div_pos_is_pos(a, b);
        lemma_div_is_ordered(a, k * b, b);
        lemma_div_multiples_vanish(k, b);
        assert(k * b == b * k) by (nonlinear_arith);
        assert(a / b <= k);
    } else {
        lemma_div_pos_is_pos(-a, b);
        lemma_div_is_ordered(-a, k * b, b);
        lemma_div_multiples_vanish(k, b);
        assert(k * b == b * k) by (nonlinear_arith);
        assert((-a) / b <= k);
    }
}

/// A product of bounded factors is bounded by the product of the bounds.
proof fn lemma_mul_abs_bound(x: int, y: int, a: int, b: int)
    requires
        -a <= x <= a,
        -b <= y <= b,
        0 <= a,
        0 <= b,
    ensures
        -(a * b) <= x * y <= a * b,
{
    assert(-(a * b) <= x * y <= a * b) by (nonlinear_arith)
        requires
            -a <= x <= a,
            -b <= y <= b,
            0 <= a,
            0 <= b,
    ;
}

/// The slide response of a velocity against a contact whose correction
/// vector is `n`: the velocity is decomposed against the contact tangent
/// `(n.y, n.x)`; the tangential share is kept and the share along `n` is
/// replaced, in the normalized frame, then read back in integer
/// coordinates by a truncating division.
pub open spec fn deflect_spec(v: Vector2, n: Vector2) -> Vector2 {
    let den = n.x * n.x + n.y * n.y;
    let numx = (v.x * n.y + v.y * n.x) * n.y - (v.x * n.x + v.y * n.y) * n.x;
    let numy = (v.x * n.y + v.y * n.x) * n.x - (v.x * n.x + v.y * n.y) * n.y;
    Vector2 { x: trunc_div(numx, den) as i64, y: trunc_div(numy, den) as i64 }
}

/// The slide response never raises a speed component's magnitude, and its
/// components stay exactly representable.
pub proof fn lemma_deflect_bounds(v: Vector2, n: Vector2)
    requires
        !(n.x == 0 && n.y == 0),
        vec_within_limit(v),
    ensures
        abs_val(deflect_spec(v, n).x as int) <= abs_val(v.x as int),
        abs_val(deflect_spec(v, n).y as int) <= abs_val(v.y as int),
        deflect_spec(v, n).x as int == trunc_div(
            (v.x * n.y + v.y * n.x) * n.y - (v.x * n.x + v.y * n.y) * n.x,
            n.x * n.x + n.y * n.y,
        ),
        deflect_spec(v, n).y as int == trunc_div(
            (v.x * n.y + v.y * n.x) * n.x - (v.x * n.x + v.y * n.y) * n.y,
            n.x * n.x + n.y * n.y,
        ),
{
    assert(n.x * n.x + n.y * n.y > 0) by (nonlinear_arith)
        requires
            !(n.x == 0 && n.y == 0),
    ;
    assert((v.x * n.y + v.y * n.x) * n.y - (v.x * n.x + v.y * n.y) * n.x == v.x * (n.y * n.y - n.x
        * n.x)) by (nonlinear_arith);
    assert((v.x * n.y + v.y * n.x) * n.x - (v.x * n.x + v.y * n.y) * n.y == v.y * (n.x * n.x - n.y
        * n.y)) by (nonlinear_arith);
    assert(-(n.x * n.x + n.y * n.y) <= n.y * n.y - n.x * n.x <= n.x * n.x + n.y * n.y)
        by (nonlinear_arith);
    let den = n.x * n.x + n.y * n.y;
    let ax = abs_val(v.x as int);
    let ay = abs_val(v.y as int);
    lemma_mul_abs_bound(v.x as int, n.y * n.y - n.x * n.x, ax, den);
    lemma_mul_abs_bound(v.y as int, n.x * n.x - n.y * n.y, ay, den);
    lemma_trunc_div_bound(v.x * (n.y * n.y - n.x * n.x), den, ax);
    lemma_trunc_div_bound(v.y * (n.x * n.x - n.y * n.y), den, ay);
}

/// The slide response of `v` against the correction vector `n`.
fn deflect(v: Vector2, n: Vector2) -> (r: Vector2)
    requires
        !(n.x == 0 && n.y == 0),
        vec_within_limit(v),
        -PEN_ABS_MAX <= n.x <= PEN_ABS_MAX,
        -PEN_ABS_MAX <= n.y <= PEN_ABS_MAX,
    ensures
        r == deflect_spec(v, n),
        abs_val(r.x as int) <= abs_val(v.x as int),
        abs_val(r.y as int) <= abs_val(v.y as int),
{
    proof {
        lemma_deflect_bounds(v, n);
        lemma_mul_abs_bound(v.x as int, n.y as int, VAL_LIMIT as int, PEN_ABS_MAX as int);
        lemma_mul_abs_bound(v.y as int, n.x as int, VAL_LIMIT as int, PEN_ABS_MAX as int);
        lemma_mul_abs_bound(v.x as int, n.x as int, VAL_LIMIT as int, PEN_ABS_MAX as int);
        lemma_mul_abs_bound(v.y as int, n.y as int, VAL_LIMIT as int, PEN_ABS_MAX as int);
        lemma_mul_abs_bound(
            v.x * n.y + v.y * n.x,
            n.y as int,
            2 * (VAL_LIMIT as int) * (PEN_ABS_MAX as int),
            PEN_ABS_MAX as int,
        );
        lemma_mul_abs_bound(
            v.x * n.y + v.y * n.x,
            n.x as int,
            2 * (VAL_LIMIT as int) * (PEN_ABS_MAX as int),
            PEN_ABS_MAX as int,
        );
        lemma_mul_abs_bound(
            v.x * n.x + v.y * n.y,
            n.x as int,
            2 * (VAL_LIMIT as int) * (PEN_ABS_MAX as int),
            PEN_ABS_MAX as int,
        );
        lemma_mul_abs_bound(
            v.x * n.x + v.y * n.y,
            n.y as int,
            2 * (VAL_LIMIT as int) * (PEN_ABS_MAX as int),
            PEN_ABS_MAX as int,
        );
        lemma_mul_abs_bound(n.x as int, n.x as int, PEN_ABS_MAX as int, PEN_ABS_MAX as int);
        lemma_mul_abs_bound(n.y as int, n.y as int, PEN_ABS_MAX as int, PEN_ABS_MAX as int);
    }
    let vx = v.x as i128;
    let vy = v.y as i128;
    let nx = n.x as i128;
    let ny = n.y as i128;
    let den = nx * nx + ny * ny;
    let numx = (vx * ny + vy * nx) * ny - (vx * nx + vy * ny) * nx;
    let numy = (vx * ny + vy * nx) * nx - (vx * nx + vy * ny) * ny;
    proof {
        assert(nx == n.x && ny == n.y);
        assert(den == n.x * n.x + n.y * n.y);
        assert(n.x * n.x + n.y * n.y > 0) by (nonlinear_arith)
            requires
                !(n.x == 0 && n.y == 0),
        ;
        assert(den > 0);
    }
    let rx = numx / den;
    let ry = numy / den;
    Vector2 { x: rx as i64, y: ry as i64 }
}

/// An object's motion state, as the physics contracts speak of it.
pub struct ObjSnap {
    pub coordinate: Vector2,
    pub speed: Vector2,
    pub acel: Vector2,
    pub bbox: QuadBox,
}

/// The motion state of an object behind the capability trait.
pub open spec fn snap_of<T: ObjectTrait>(o: T) -> ObjSnap {
    ObjSnap {
        coordinate: o.coord_spec(),
        speed: o.speed_spec(),
        acel: o.acel_spec(),
        bbox: o.bbox_spec(),
    }
}

/// One collision response: the velocity slides against the contact, and
/// the correction moves the position (and with it the box) directly.
pub open spec fn apply_pen(s: ObjSnap, p: Vector2) -> ObjSnap {
    ObjSnap {
        coordinate: Vector2 {
            x: (s.coordinate.x + p.x) as i64,
            y: (s.coordinate.y + p.y) as i64,
        },
        speed: deflect_spec(s.speed, p),
        acel: s.acel,
        bbox: QuadBox {
            x: (s.bbox.x + p.x) as i64,
            y: (s.bbox.y + p.y) as i64,
            width: s.bbox.width,
            height: s.bbox.height,
        },
    }
}

pub open spec fn apply_pen_opt(s: ObjSnap, p: Option<Vector2>) -> ObjSnap {
    match p {
        Some(v) => apply_pen(s, v),
        None => s,
    }
}

/// The collision responses to a sequence of optional corrections, first to
/// last; absent entries change nothing.
pub open spec fn apply_pens(s: ObjSnap, pens: Seq<Option<Vector2>>) -> ObjSnap
    decreases pens.len(),
{
    if pens.len() == 0 {
        s
    } else {
        apply_pens(apply_pen_opt(s, pens[0]), pens.drop_first())
    }
}

proof fn lemma_apply_pens_push(s: ObjSnap, pens: Seq<Option<Vector2>>, p: Option<Vector2>)
    ensures
        apply_pens(s, pens.push(p)) == apply_pen_opt(apply_pens(s, pens), p),
    decreases pens.len(),
{
    if pens.len() == 0 {
        assert(pens.push(p).drop_first() =~= pens);
        assert(pens.push(p)[0] == p);
        assert(apply_pens(s, pens.push(p)) == apply_pens(apply_pen_opt(s, p), pens));
        assert(apply_pens(apply_pen_opt(s, p), pens) == apply_pen_opt(s, p));
    } else {
        assert(pens.push(p).drop_first() =~= pens.drop_first().push(p));
        assert(pens.push(p)[0] == pens[0]);
        assert(apply_pens(s, pens.push(p)) == apply_pens(
            apply_pen_opt(s, pens[0]),
            pens.drop_first().push(p),
        ));
        lemma_apply_pens_push(apply_pen_opt(s, pens[0]), pens.drop_first(), p);
    }
}

/// A correction vector a collision pass accepts: absent, or a non-zero
/// vector within the correction bound.
pub open spec fn pen_ok(p: Option<Vector2>) -> bool {
    match p {
        Some(v) => {
            &&& !(v.x == 0 && v.y == 0)
            &&& -PEN_ABS_MAX <= v.x <= PEN_ABS_MAX
            &&& -PEN_ABS_MAX <= v.y <= PEN_ABS_MAX
        },
        None => true,
    }
}

/// Across a whole collision pass, speed component magnitudes never grow,
/// the acceleration and the box extents stay, and the position moves by at
/// most the correction bound per correction.
pub proof fn lemma_apply_pens_bounds(s: ObjSnap, pens: Seq<Option<Vector2>>)
    requires
        forall|j: int| 0 <= j < pens.len() ==> pen_ok(#[trigger] pens[j]),
        -VAL_LIMIT <= s.speed.x <= VAL_LIMIT,
        -VAL_LIMIT <= s.speed.y <= VAL_LIMIT,
        -VAL_LIMIT + pens.len() * PEN_ABS_MAX <= s.coordinate.x <= VAL_LIMIT - pens.len()
            * PEN_ABS_MAX,
        -VAL_LIMIT + pens.len() * PEN_ABS_MAX <= s.coordinate.y <= VAL_LIMIT - pens.len()
            * PEN_ABS_MAX,
        -VAL_LIMIT + pens.len() * PEN_ABS_MAX <= s.bbox.x <= VAL_LIMIT - pens.len() * PEN_ABS_MAX,
        -VAL_LIMIT + pens.len() * PEN_ABS_MAX <= s.bbox.y <= VAL_LIMIT - pens.len() * PEN_ABS_MAX,
    ensures
        abs_val(apply_pens(s, pens).speed.x as int) <= abs_val(s.speed.x as int),
        abs_val(apply_pens(s, pens).speed.y as int) <= abs_val(s.speed.y as int),
        apply_pens(s, pens).acel == s.acel,
        apply_pens(s, pens).bbox.width == s.bbox.width,
        apply_pens(s, pens).bbox.height == s.bbox.height,
        abs_val(apply_pens(s, pens).coordinate.x - s.coordinate.x) <= pens.len() * PEN_ABS_MAX,
        abs_val(apply_pens(s, pens).coordinate.y - s.coordinate.y) <= pens.len() * PEN_ABS_MAX,
        abs_val(apply_pens(s, pens).bbox.x - s.bbox.x) <= pens.len() * PEN_ABS_MAX,
        abs_val(apply_pens(s, pens).bbox.y - s.bbox.y) <= pens.len() * PEN_ABS_MAX,
        apply_pens(s, pens).coordinate.x - s.coordinate.x == apply_pens(s, pens).bbox.x - s.bbox.x,
        apply_pens(s, pens).coordinate.y - s.coordinate.y == apply_pens(s, pens).bbox.y - s.bbox.y,
    decreases pens.len(),
{
    if pens.len() > 0 {
        let s1 = apply_pen_opt(s, pens[0]);
        match pens[0] {
            Some(v) => {
                lemma_deflect_bounds(s.speed, v);
            },
            None => {},
        }
        assert(forall|j: int|
            0 <= j < pens.drop_first().len() ==> pen_ok(#[trigger] pens.drop_first()[j]));
        lemma_apply_pens_bounds(s1, pens.drop_first());
    }
}

/// Semi-implicit Euler over one step: the velocity first, from the
/// acceleration; then the position, from the old velocity's linear term
/// and the acceleration's halved quadratic term.
pub open spec fn integrate(s: ObjSnap, dt: i64) -> ObjSnap {
    let dx = s.speed.x * dt + trunc_div(s.acel.x * dt * dt, 2);
    let dy = s.speed.y * dt + trunc_div(s.acel.y * dt * dt, 2);
    ObjSnap {
        coordinate: Vector2 {
            x: (s.coordinate.x + dx) as i64,
            y: (s.coordinate.y + dy) as i64,
        },
        speed: Vector2 {
            x: (s.speed.x + s.acel.x * dt) as i64,
            y: (s.speed.y + s.acel.y * dt) as i64,
        },
        acel: s.acel,
        bbox: QuadBox {
            x: (s.bbox.x + dx) as i64,
            y: (s.bbox.y + dy) as i64,
            width: s.bbox.width,
            height: s.bbox.height,
        },
    }
}

/// Largest position component the integrator accepts: whatever one step
/// adds still fits the capability contract's coordinate bound.
pub const POS_MAX: i64 = 900_000_000_000_000_000;

/// Largest position component a collision pass accepts: the largest drift
/// a full pass can add still leaves the integrator's bound.
pub const POS_COLLIDE_MAX: i64 = 400_000_000_000_000_000;

/// The movement integrator: semi-implicit Euler.
pub struct BaseMovementModel;

/// The collision responder: velocity decomposition against the contact,
/// plus hard positional correction.
pub struct BaseCollisionModel;

impl BaseMovementModel {
    /// One integration step, in this exact order: the velocity takes the
    /// acceleration's contribution; the position then moves by the old
    /// velocity's linear term plus the acceleration's halved quadratic
    /// term.
    pub fn process_movement<T: ObjectTrait>(&self, object: &mut T, time_delta: i64)
        requires
            old(object).inv(),
            0 <= time_delta <= DT_MAX,
            -SPEED_MAX <= old(object).speed_spec().x <= SPEED_MAX,
            -SPEED_MAX <= old(object).speed_spec().y <= SPEED_MAX,
            -ACCEL_MAX <= old(object).acel_spec().x <= ACCEL_MAX,
            -ACCEL_MAX <= old(object).acel_spec().y <= ACCEL_MAX,
            -POS_MAX <= old(object).coord_spec().x <= POS_MAX,
            -POS_MAX <= old(object).coord_spec().y <= POS_MAX,
        ensures
            final(object).inv(),
            snap_of(*final(object)) == integrate(snap_of(*old(object)), time_delta),
    {
        let speed = object.get_speed();
        let acel = object.get_acel();
        proof {
            lemma_mul_abs_bound(acel.x as int, time_delta as int, ACCEL_MAX as int, DT_MAX as int);
            lemma_mul_abs_bound(acel.y as int, time_delta as int, ACCEL_MAX as int, DT_MAX as int);
            lemma_mul_abs_bound(
                acel.x * time_delta,
                time_delta as int,
                (ACCEL_MAX as int) * (DT_MAX as int),
                DT_MAX as int,
            );
            lemma_mul_abs_bound(
                acel.y * time_delta,
                time_delta as int,
                (ACCEL_MAX as int) * (DT_MAX as int),
                DT_MAX as int,
            );
            lemma_mul_abs_bound(speed.x as int, time_delta as int, SPEED_MAX as int, DT_MAX as int);
            lemma_mul_abs_bound(speed.y as int, time_delta as int, SPEED_MAX as int, DT_MAX as int);
        }
        object.update_speed(Vector2 { x: acel.x * time_delta, y: acel.y * time_delta });
        let qx = acel.x * time_delta * time_delta / 2;
        let qy = acel.y * time_delta * time_delta / 2;
        object.update_coordinate(
            Vector2 { x: speed.x * time_delta + qx, y: speed.y * time_delta + qy },
        );
    }
}

impl BaseCollisionModel {
    /// One collision pass: for each present correction, the velocity
    /// slides against the contact and the correction moves the position
    /// directly, first to last.
    pub fn process_collision<T: ObjectTrait>(
        &self,
        object: &mut T,
        pen_vectors: &Vec<Option<Vector2>>,
    )
        requires
            old(object).inv(),
            pen_vectors@.len() <= PENS_MAX,
            forall|j: int| 0 <= j < pen_vectors@.len() ==> pen_ok(#[trigger] pen_vectors@[j]),
            -SPEED_MAX <= old(object).speed_spec().x <= SPEED_MAX,
            -SPEED_MAX <= old(object).speed_spec().y <= SPEED_MAX,
            -POS_COLLIDE_MAX <= old(object).coord_spec().x <= POS_COLLIDE_MAX,
            -POS_COLLIDE_MAX <= old(object).coord_spec().y <= POS_COLLIDE_MAX,
        ensures
            final(object).inv(),
            snap_of(*final(object)) == apply_pens(snap_of(*old(object)), pen_vectors@),
    {
        let ghost s0 = snap_of(*old(object));
        proof {
            old(object).lemma_box_at_coordinate();
        }
        let n = pen_vectors.len();
        let mut i: usize = 0;
        while i < n
            invariant
                i <= n,
                n == pen_vectors@.len(),
                n <= PENS_MAX,
                forall|j: int| 0 <= j < pen_vectors@.len() ==> pen_ok(#[trigger] pen_vectors@[j]),
                object.inv(),
                s0 == snap_of(*old(object)),
                -SPEED_MAX <= s0.speed.x <= SPEED_MAX,
                -SPEED_MAX <= s0.speed.y <= SPEED_MAX,
                -POS_COLLIDE_MAX <= s0.coordinate.x <= POS_COLLIDE_MAX,
                -POS_COLLIDE_MAX <= s0.coordinate.y <= POS_COLLIDE_MAX,
                snap_of(*object) == apply_pens(s0, pen_vectors@.take(i as int)),
                abs_val(object.speed_spec().x as int) <= abs_val(s0.speed.x as int),
                abs_val(object.speed_spec().y as int) <= abs_val(s0.speed.y as int),
                s0.coordinate.x - (i as int) * PEN_ABS_MAX <= object.coord_spec().x
                    <= s0.coordinate.x + (i as int) * PEN_ABS_MAX,
                s0.coordinate.y - (i as int) * PEN_ABS_MAX <= object.coord_spec().y
                    <= s0.coordinate.y + (i as int) * PEN_ABS_MAX,
                object.bbox_spec().x == object.coord_spec().x,
                object.bbox_spec().y == object.coord_spec().y,
            decreases n - i,
        {
            let pen = pen_vectors[i];
            match pen {
                Some(val) => {
                    let speed = object.get_speed();
                    let coords = object.get_coordinate();
                    let new_speed = deflect(speed, val);
                    object.set_speed(new_speed);
                    object.set_coordinate(
                        Vector2 { x: coords.x + val.x, y: coords.y + val.y },
                    );
                },
                None => {},
            }
            proof {
                lemma_apply_pens_push(s0, pen_vectors@.take(i as int), pen_vectors@[i as int]);
                assert(pen_vectors@.take(i as int + 1) =~= pen_vectors@.take(i as int).push(
                    pen_vectors@[i as int],
                ));
            }
            i = i + 1;
        }
        proof {
            assert(pen_vectors@.take(n as int) =~= pen_vectors@);
        }
    }
}

/// The boundary correction for an object's box against the world edges
/// `[0, w] x [0, h]`: one combined vector, never more than one per pass,
/// the horizontal share favoring the right edge and the vertical share the
/// bottom edge when both sides are crossed.
pub open spec fn boundary_mtv(w: i64, h: i64, b: QuadBox) -> Option<Vector2> {
    let rx0: int = if b.x <= 0 {
        0 - b.x
    } else {
        0
    };
    let rx: int = if b.right() >= w {
        w - b.right()
    } else {
        rx0
    };
    let ry0: int = if b.y <= 0 {
        0 - b.y
    } else {
        0
    };
    let ry: int = if b.bottom() >= h {
        h - b.bottom()
    } else {
        ry0
    };
    if rx == 0 && ry == 0 {
        None
    } else {
        Some(Vector2 { x: rx as i64, y: ry as i64 })
    }
}

/// A boundary correction is a correction a collision pass accepts.
pub proof fn lemma_boundary_mtv_ok(w: i64, h: i64, b: QuadBox)
    requires
        b.wf(),
        0 <= w <= COORD_MAX,
        0 <= h <= COORD_MAX,
    ensures
        pen_ok(boundary_mtv(w, h, b)),
{
}

/// The correction a query yields for an overlapping pair is one a
/// collision pass accepts: present, non-zero and within the bound.
pub proof fn lemma_pen_result_ok(target: QuadBox, b: QuadBox)
    requires
        target.wf(),
        b.wf(),
        target.overlaps(b),
    ensures
        pen_ok(pen_result(target, b)),
{
}

/// The corrections a query of the stored objects yields for a probe box:
/// one per match, in match order.
pub open spec fn pens_of(items: Seq<TreeItem>, target: QuadBox) -> Seq<Option<Vector2>> {
    Seq::new(
        overlap_matches(items, target).len(),
        |j: int| pen_result(target, overlap_matches(items, target)[j].bbox),
    )
}

/// One whole physics tick for one object: the collision responses to every
/// stored object its box overlaps, then the boundary response, then the
/// integration step.
pub open spec fn tick_object(s: ObjSnap, items: Seq<TreeItem>, w: i64, h: i64, dt: i64) -> ObjSnap {
    integrate(apply_pens(s, pens_of(items, s.bbox).push(boundary_mtv(w, h, s.bbox))), dt)
}

/// An object in a state the physics tick accepts.
pub open spec fn object_ready<T: ObjectTrait>(o: T) -> bool {
    &&& o.inv()
    &&& o.bbox_spec().wf()
    &&& -SPEED_MAX <= o.speed_spec().x <= SPEED_MAX
    &&& -SPEED_MAX <= o.speed_spec().y <= SPEED_MAX
    &&& -ACCEL_MAX <= o.acel_spec().x <= ACCEL_MAX
    &&& -ACCEL_MAX <= o.acel_spec().y <= ACCEL_MAX
}

/// A mutable borrow of one element of a vector.
fn nth_mut<T>(v: &mut Vec<T>, i: usize) -> (r: &mut T)
    requires
        i < old(v)@.len(),
    ensures
        *r == old(v)@[i as int],
        final(v)@ == old(v)@.update(i as int, *final(r)),
{
    &mut v[i]
}

/// The cursor-following movement state: it only tracks the cursor
/// position a host reports.
pub struct MouseMovementModel {
    mouse_position: Vector2,
}

impl MouseMovementModel {
    /// The cursor position last reported.
    pub closed spec fn position_spec(self) -> Vector2 {
        self.mouse_position
    }

    pub fn new() -> (r: MouseMovementModel)
        ensures
            r.position_spec() == (Vector2 { x: 0, y: 0 }),
    {
        MouseMovementModel { mouse_position: Vector2 { x: 0, y: 0 } }
    }

    pub fn set_mouse_position(&mut self, coords: Vector2)
        ensures
            final(self).position_spec() == coords,
    {
        self.mouse_position = coords;
    }
}

/// Runs the collision responder and the movement integrator for every
/// object whenever at least one period has passed since the previous run.
/// It is a plain threshold: whatever time passed beyond the period is
/// forgotten, so under load the effective rate can drift.
pub struct Model {
    m_model: BaseMovementModel,
    c_model: BaseCollisionModel,
    screen_width: i64,
    screen_height: i64,
    last_time: u64,
    period: u64,
}

impl Model {
    pub closed spec fn screen_width_spec(self) -> i64 {
        self.screen_width
    }

    pub closed spec fn screen_height_spec(self) -> i64 {
        self.screen_height
    }

    pub closed spec fn last_time_spec(self) -> u64 {
        self.last_time
    }

    pub closed spec fn period_spec(self) -> u64 {
        self.period
    }

    pub closed spec fn wf(self) -> bool {
        &&& 0 <= self.screen_width <= COORD_MAX
        &&& 0 <= self.screen_height <= COORD_MAX
    }

    /// A gate over the world `[0, width] x [0, height]`, with `now` as the
    /// time of the last (notional) step.
    pub fn new(
        m_model: BaseMovementModel,
        c_model: BaseCollisionModel,
        width: i64,
        height: i64,
        period: u64,
        now: u64,
    ) -> (r: Model)
        requires
            0 <= width <= COORD_MAX,
            0 <= height <= COORD_MAX,
        ensures
            r.wf(),
            r.screen_width_spec() == width,
            r.screen_height_spec() == height,
            r.period_spec() == period,
            r.last_time_spec() == now,
    {
        Model {
            m_model,
            c_model,
            screen_width: width,
            screen_height: height,
            last_time: now,
            period,
        }
    }

    pub fn get_m_model(&mut self) -> (r: &mut BaseMovementModel)
        ensures
            final(self).screen_width_spec() == old(self).screen_width_spec(),
            final(self).screen_height_spec() == old(self).screen_height_spec(),
            final(self).last_time_spec() == old(self).last_time_spec(),
            final(self).period_spec() == old(self).period_spec(),
    {
        &mut self.m_model
    }

    pub fn get_c_model(&mut self) -> (r: &mut BaseCollisionModel)
        ensures
            final(self).screen_width_spec() == old(self).screen_width_spec(),
            final(self).screen_height_spec() == old(self).screen_height_spec(),
            final(self).last_time_spec() == old(self).last_time_spec(),
            final(self).period_spec() == old(self).period_spec(),
    {
        &mut self.c_model
    }

    /// The boundary correction for an object against the world edges,
    /// crossing of two edges at once included.
    pub fn screen_collision<T: ObjectTrait>(&self, object: &T) -> (r: Option<Vector2>)
        requires
            self.wf(),
            object.inv(),
            object.bbox_spec().wf(),
        ensures
            r == boundary_mtv(
                self.screen_width_spec(),
                self.screen_height_spec(),
                object.bbox_spec(),
            ),
    {
        let bx = object.get_box();
        let mut ret = Vector2 { x: 0, y: 0 };
        if bx.x <= 0 {
            ret.x = -bx.x;
        }
        if bx.x + bx.width >= self.screen_width {
            ret.x = self.screen_width - (bx.x + bx.width);
        }
        if bx.y <= 0 {
            ret.y = -bx.y;
        }
        if bx.y + bx.height >= self.screen_height {
            ret.y = self.screen_height - (bx.y + bx.height);
        }
        if ret.x != 0 || ret.y != 0 {
            Some(ret)
        } else {
            None
        }
    }

    /// One simulation step over every movable object: query the index for
    /// corrections, add the boundary correction, respond, then integrate.
    pub fn process<T: ObjectTrait>(
        &self,
        mov_objects: &mut Vec<T>,
        obj_tree: &QuadTree,
        time_delta: i64,
    )
        requires
            self.wf(),
            obj_tree.wf(),
            obj_tree.items().len() < PENS_MAX,
            0 <= time_delta <= DT_MAX,
            forall|k: int|
                0 <= k < old(mov_objects)@.len() ==> object_ready(#[trigger] old(mov_objects)@[k]),
        ensures
            final(mov_objects)@.len() == old(mov_objects)@.len(),
            forall|k: int|
                0 <= k < old(mov_objects)@.len() ==> snap_of(#[trigger] final(mov_objects)@[k])
                    == tick_object(
                    snap_of(old(mov_objects)@[k]),
                    obj_tree.items(),
                    self.screen_width_spec(),
                    self.screen_height_spec(),
                    time_delta,
                ) && final(mov_objects)@[k].inv(),
    {
        let n = mov_objects.len();
        let mut k: usize = 0;
        while k < n
            invariant
                k <= n,
                n == mov_objects@.len(),
                mov_objects@.len() == old(mov_objects)@.len(),
                self.wf(),
                obj_tree.wf(),
                obj_tree.items().len() < PENS_MAX,
                0 <= time_delta <= DT_MAX,
                forall|w: int|
                    0 <= w < old(mov_objects)@.len() ==> object_ready(
                        #[trigger] old(mov_objects)@[w],
                    ),
                forall|w: int| k <= w < n ==> mov_objects@[w] == old(mov_objects)@[w],
                forall|w: int|
                    0 <= w < k ==> snap_of(#[trigger] mov_objects@[w]) == tick_object(
                        snap_of(old(mov_objects)@[w]),
                        obj_tree.items(),
                        self.screen_width_spec(),
                        self.screen_height_spec(),
                        time_delta,
                    ) && mov_objects@[w].inv(),
            decreases n - k,
        {
            let ghost prior = mov_objects@;
            let obj = nth_mut(mov_objects, k);
            let ghost s0 = snap_of(*obj);
            proof {
                assert(object_ready(*obj));
                obj.lemma_box_at_coordinate();
                lemma_query_matches_wf(*obj_tree, obj.bbox_spec());
            }
            let mut pen_vector = obj_tree.query(&*obj);
            let boundary = self.screen_collision(&*obj);
            pen_vector.push(boundary);
            let ghost all_pens = pens_of(obj_tree.items(), s0.bbox).push(
                boundary_mtv(self.screen_width_spec(), self.screen_height_spec(), s0.bbox),
            );
            proof {
                let items = obj_tree.items();
                let ms = overlap_matches(items, s0.bbox);
                assert(ms.len() <= items.len());
                assert forall|j: int| 0 <= j < pen_vector@.len() implies pen_ok(
                    #[trigger] pen_vector@[j],
                ) by {
                    if j < ms.len() {
                        lemma_pen_result_ok(s0.bbox, ms[j].bbox);
                    } else {
                        lemma_boundary_mtv_ok(
                            self.screen_width_spec(),
                            self.screen_height_spec(),
                            s0.bbox,
                        );
                    }
                }
                assert(pen_vector@ =~= all_pens);
            }
            self.c_model.process_collision(obj, &pen_vector);
            proof {
                lemma_apply_pens_bounds(s0, all_pens);
            }
            self.m_model.process_movement(obj, time_delta);
            proof {
                assert(mov_objects@ =~= prior.update(
                    k as int,
                    mov_objects@[k as int],
                ));
            }
            k = k + 1;
        }
    }

    /// The fixed-period gate: when at least `period` has elapsed since the
    /// previous step, run one step with the whole elapsed time as the
    /// delta and restart the clock; otherwise change nothing.
    pub fn run<T: ObjectTrait>(&mut self, mov_objects: &mut Vec<T>, obj_tree: &QuadTree, now: u64)
        requires
            old(self).wf(),
            obj_tree.wf(),
            obj_tree.items().len() < PENS_MAX,
            forall|k: int|
                0 <= k < old(mov_objects)@.len() ==> object_ready(#[trigger] old(mov_objects)@[k]),
            now >= old(self).last_time_spec() ==> now - old(self).last_time_spec() <= DT_MAX as u64,
        ensures
            final(self).wf(),
            final(self).screen_width_spec() == old(self).screen_width_spec(),
            final(self).screen_height_spec() == old(self).screen_height_spec(),
            final(self).period_spec() == old(self).period_spec(),
            final(mov_objects)@.len() == old(mov_objects)@.len(),
            now >= old(self).last_time_spec() && now - old(self).last_time_spec() >= old(
                self,
            ).period_spec() ==> final(self).last_time_spec() == now && forall|k: int|
                0 <= k < old(mov_objects)@.len() ==> snap_of(#[trigger] final(mov_objects)@[k])
                    == tick_object(
                    snap_of(old(mov_objects)@[k]),
                    obj_tree.items(),
                    old(self).screen_width_spec(),
                    old(self).screen_height_spec(),
                    (now - old(self).last_time_spec()) as i64,
                ) && final(mov_objects)@[k].inv(),
            !(now >= old(self).last_time_spec() && now - old(self).last_time_spec() >= old(
                self,
            ).period_spec()) ==> *final(self) == *old(self) && final(mov_objects)@ == old(
                mov_objects,
            )@,
    {
        if now >= self.last_time {
            let time_delta = now - self.last_time;
            if time_delta >= self.period {
                self.last_time = now;
                self.process(mov_objects, obj_tree, time_delta as i64);
            }
        }
    }
}

} // verus!
