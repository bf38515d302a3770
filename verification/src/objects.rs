use crate::quadtree::{QuadBox, TreeObject, Vector2, COORD_MAX};
use vstd::prelude::*;

verus! {

/// Bound on the coordinates a caller may move an object to, and on the
/// speeds and accelerations it may set: far beyond any world size, yet
/// leaving `i64` headroom for the shapes' internal arithmetic.
pub const VAL_LIMIT: i64 = 1_000_000_000_000_000_000;

/// A two-component value within `VAL_LIMIT` on both axes.
pub open spec fn vec_within_limit(v: Vector2) -> bool {
    &&& -VAL_LIMIT <= v.x <= VAL_LIMIT
    &&& -VAL_LIMIT <= v.y <= VAL_LIMIT
}

/// The capability contract a movable object offers the physics tick:
/// getters and setters for position, velocity and acceleration, over the
/// bounding box that `TreeObject` already exposes. The box sits at the
/// object's coordinate and keeps its size as the object moves.
pub trait ObjectTrait: TreeObject {
    /// The object's position: the top-left corner of its bounding box.
    spec fn coord_spec(&self) -> Vector2;

    /// The object's velocity.
    spec fn speed_spec(&self) -> Vector2;

    /// The object's acceleration.
    spec fn acel_spec(&self) -> Vector2;

    /// The bounding box sits at the coordinate, and its extents stay within
    /// the world coordinate bound.
    proof fn lemma_box_at_coordinate(&self)
        requires
            self.inv(),
        ensures
            self.bbox_spec().x == self.coord_spec().x,
            self.bbox_spec().y == self.coord_spec().y,
            0 <= self.bbox_spec().width <= COORD_MAX,
            0 <= self.bbox_spec().height <= COORD_MAX,
    ;

    fn get_coordinate(&self) -> (r: Vector2)
        requires
            self.inv(),
        ensures
            r == self.coord_spec(),
    ;

    fn get_speed(&self) -> (r: Vector2)
        requires
            self.inv(),
        ensures
            r == self.speed_spec(),
    ;

    fn get_acel(&self) -> (r: Vector2)
        requires
            self.inv(),
        ensures
            r == self.acel_spec(),
    ;

    fn set_coordinate(&mut self, new_vec: Vector2)
        requires
            old(self).inv(),
            vec_within_limit(new_vec),
        ensures
            final(self).inv(),
            final(self).coord_spec() == new_vec,
            final(self).speed_spec() == old(self).speed_spec(),
            final(self).acel_spec() == old(self).acel_spec(),
            final(self).bbox_spec() == (QuadBox {
                x: new_vec.x,
                y: new_vec.y,
                width: old(self).bbox_spec().width,
                height: old(self).bbox_spec().height,
            }),
    ;

    fn set_speed(&mut self, speed: Vector2)
        requires
            old(self).inv(),
            vec_within_limit(speed),
        ensures
            final(self).inv(),
            final(self).speed_spec() == speed,
            final(self).coord_spec() == old(self).coord_spec(),
            final(self).acel_spec() == old(self).acel_spec(),
            final(self).bbox_spec() == old(self).bbox_spec(),
    ;

    fn set_acel(&mut self, acel: Vector2)
        requires
            old(self).inv(),
            vec_within_limit(acel),
        ensures
            final(self).inv(),
            final(self).acel_spec() == acel,
            final(self).coord_spec() == old(self).coord_spec(),
            final(self).speed_spec() == old(self).speed_spec(),
            final(self).bbox_spec() == old(self).bbox_spec(),
    ;

    fn update_coordinate(&mut self, new_vec: Vector2)
        requires
            old(self).inv(),
            -VAL_LIMIT <= old(self).coord_spec().x + new_vec.x <= VAL_LIMIT,
            -VAL_LIMIT <= old(self).coord_spec().y + new_vec.y <= VAL_LIMIT,
        ensures
            final(self).inv(),
            final(self).coord_spec().x == old(self).coord_spec().x + new_vec.x,
            final(self).coord_spec().y == old(self).coord_spec().y + new_vec.y,
            final(self).speed_spec() == old(self).speed_spec(),
            final(self).acel_spec() == old(self).acel_spec(),
            final(self).bbox_spec() == (QuadBox {
                x: (old(self).bbox_spec().x + new_vec.x) as i64,
                y: (old(self).bbox_spec().y + new_vec.y) as i64,
                width: old(self).bbox_spec().width,
                height: old(self).bbox_spec().height,
            }),
    ;

    fn update_speed(&mut self, speed: Vector2)
        requires
            old(self).inv(),
            -VAL_LIMIT <= old(self).speed_spec().x + speed.x <= VAL_LIMIT,
            -VAL_LIMIT <= old(self).speed_spec().y + speed.y <= VAL_LIMIT,
        ensures
            final(self).inv(),
            final(self).speed_spec().x == old(self).speed_spec().x + speed.x,
            final(self).speed_spec().y == old(self).speed_spec().y + speed.y,
            final(self).coord_spec() == old(self).coord_spec(),
            final(self).acel_spec() == old(self).acel_spec(),
            final(self).bbox_spec() == old(self).bbox_spec(),
    ;

    fn update_acel(&mut self, acel: Vector2)
        requires
            old(self).inv(),
            -VAL_LIMIT <= old(self).acel_spec().x + acel.x <= VAL_LIMIT,
            -VAL_LIMIT <= old(self).acel_spec().y + acel.y <= VAL_LIMIT,
        ensures
            final(self).inv(),
            final(self).acel_spec().x == old(self).acel_spec().x + acel.x,
            final(self).acel_spec().y == old(self).acel_spec().y + acel.y,
            final(self).coord_spec() == old(self).coord_spec(),
            final(self).speed_spec() == old(self).speed_spec(),
            final(self).bbox_spec() == old(self).bbox_spec(),
    ;
}

/// Bound on a shape's stored fields: wide enough for every position a
/// method contract admits, plus the offset between a circle's center and
/// its corner.
pub const FIELD_LIMIT: i64 = 2_000_000_000_000_000_000;

pub open spec fn vec_within_field_limit(v: Vector2) -> bool {
    &&& -FIELD_LIMIT <= v.x <= FIELD_LIMIT
    &&& -FIELD_LIMIT <= v.y <= FIELD_LIMIT
}

/// An axis-aligned rectangular object.
#[derive(Clone, Copy, PartialEq, Eq, Structural, Debug)]
pub struct Rectangle {
    coordinate: Vector2,
    width: i64,
    height: i64,
    speed: Vector2,
    acel: Vector2,
}

impl Rectangle {
    pub fn new(coordinate: Vector2, width: i64, height: i64, speed: Vector2, acel: Vector2) -> (r:
        Rectangle)
        requires
            vec_within_limit(coordinate),
            vec_within_limit(speed),
            vec_within_limit(acel),
            0 <= width <= COORD_MAX,
            0 <= height <= COORD_MAX,
        ensures
            r.inv(),
            r.coord_spec() == coordinate,
            r.speed_spec() == speed,
            r.acel_spec() == acel,
            r.bbox_spec() == (QuadBox { x: coordinate.x, y: coordinate.y, width, height }),
    {
        Rectangle { coordinate, width, height, speed, acel }
    }
}

impl TreeObject for Rectangle {
    closed spec fn inv(&self) -> bool {
        &&& 0 <= self.width <= COORD_MAX
        &&& 0 <= self.height <= COORD_MAX
        &&& vec_within_field_limit(self.coordinate)
        &&& vec_within_field_limit(self.speed)
        &&& vec_within_field_limit(self.acel)
    }

    closed spec fn bbox_spec(&self) -> QuadBox {
        QuadBox {
            x: self.coordinate.x,
            y: self.coordinate.y,
            width: self.width,
            height: self.height,
        }
    }

    fn get_box(&self) -> (r: QuadBox) {
        QuadBox {
            x: self.coordinate.x,
            y: self.coordinate.y,
            width: self.width,
            height: self.height,
        }
    }
}

impl ObjectTrait for Rectangle {
    closed spec fn coord_spec(&self) -> Vector2 {
        self.coordinate
    }

    closed spec fn speed_spec(&self) -> Vector2 {
        self.speed
    }

    closed spec fn acel_spec(&self) -> Vector2 {
        self.acel
    }

    proof fn lemma_box_at_coordinate(&self) {
    }

    fn get_coordinate(&self) -> (r: Vector2) {
        self.coordinate
    }

    fn get_speed(&self) -> (r: Vector2) {
        self.speed
    }

    fn get_acel(&self) -> (r: Vector2) {
        self.acel
    }

    fn set_coordinate(&mut self, new_vec: Vector2) {
        self.coordinate = new_vec;
    }

    fn set_speed(&mut self, speed: Vector2) {
        self.speed = speed;
    }

    fn set_acel(&mut self, acel: Vector2) {
        self.acel = acel;
    }

    fn update_coordinate(&mut self, new_vec: Vector2) {
        self.coordinate = Vector2 {
            x: self.coordinate.x + new_vec.x,
            y: self.coordinate.y + new_vec.y,
        };
    }

    fn update_speed(&mut self, speed: Vector2) {
        self.speed = Vector2 { x: self.speed.x + speed.x, y: self.speed.y + speed.y };
    }

    fn update_acel(&mut self, acel: Vector2) {
        self.acel = Vector2 { x: self.acel.x + acel.x, y: self.acel.y + acel.y };
    }
}

/// A circular object, stored by center and radius; its bounding box is the
/// square around it, and its coordinate is that box's top-left corner.
#[derive(Clone, Copy, PartialEq, Eq, Structural, Debug)]
pub struct Circle {
    coordinate: Vector2,
    radius: i64,
    speed: Vector2,
    acel: Vector2,
}

impl Circle {
    /// A circle from its top-left corner coordinate and radius.
    pub fn new(coordinate: Vector2, radius: i64, speed: Vector2, acel: Vector2) -> (r: Circle)
        requires
            vec_within_limit(coordinate),
            vec_within_limit(speed),
            vec_within_limit(acel),
            0 <= radius,
            2 * radius <= COORD_MAX,
        ensures
            r.inv(),
            r.coord_spec() == coordinate,
            r.speed_spec() == speed,
            r.acel_spec() == acel,
            r.bbox_spec() == (QuadBox {
                x: coordinate.x,
                y: coordinate.y,
                width: (2 * radius) as i64,
                height: (2 * radius) as i64,
            }),
    {
        Circle {
            coordinate: Vector2 { x: coordinate.x + radius, y: coordinate.y + radius },
            radius,
            speed,
            acel,
        }
    }
}

impl TreeObject for Circle {
    closed spec fn inv(&self) -> bool {
        &&& 0 <= self.radius
        &&& 2 * self.radius <= COORD_MAX
        &&& vec_within_field_limit(self.coordinate)
        &&& vec_within_field_limit(self.speed)
        &&& vec_within_field_limit(self.acel)
    }

    closed spec fn bbox_spec(&self) -> QuadBox {
        QuadBox {
            x: (self.coordinate.x - self.radius) as i64,
            y: (self.coordinate.y - self.radius) as i64,
            width: (2 * self.radius) as i64,
            height: (2 * self.radius) as i64,
        }
    }

    fn get_box(&self) -> (r: QuadBox) {
        QuadBox {
            x: self.coordinate.x - self.radius,
            y: self.coordinate.y - self.radius,
            width: 2 * self.radius,
            height: 2 * self.radius,
        }
    }
}

impl ObjectTrait for Circle {
    closed spec fn coord_spec(&self) -> Vector2 {
        Vector2 {
            x: (self.coordinate.x - self.radius) as i64,
            y: (self.coordinate.y - self.radius) as i64,
        }
    }

    closed spec fn speed_spec(&self) -> Vector2 {
        self.speed
    }

    closed spec fn acel_spec(&self) -> Vector2 {
        self.acel
    }

    proof fn lemma_box_at_coordinate(&self) {
    }

    fn get_coordinate(&self) -> (r: Vector2) {
        Vector2 { x: self.coordinate.x - self.radius, y: self.coordinate.y - self.radius }
    }

    fn get_speed(&self) -> (r: Vector2) {
        self.speed
    }

    fn get_acel(&self) -> (r: Vector2) {
        self.acel
    }

    fn set_coordinate(&mut self, new_vec: Vector2) {
        self.coordinate = Vector2 { x: new_vec.x + self.radius, y: new_vec.y + self.radius };
    }

    fn set_speed(&mut self, speed: Vector2) {
        self.speed = speed;
    }

    fn set_acel(&mut self, acel: Vector2) {
        self.acel = acel;
    }

    fn update_coordinate(&mut self, new_vec: Vector2) {
        self.coordinate = Vector2 {
            x: self.coordinate.x + new_vec.x,
            y: self.coordinate.y + new_vec.y,
        };
    }

    fn update_speed(&mut self, speed: Vector2) {
        self.speed = Vector2 { x: self.speed.x + speed.x, y: self.speed.y + speed.y };
    }

    fn update_acel(&mut self, acel: Vector2) {
        self.acel = Vector2 { x: self.acel.x + acel.x, y: self.acel.y + acel.y };
    }
}

} // verus!
