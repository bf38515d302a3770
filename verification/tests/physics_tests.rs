use my_rusted_balls::objects::{Circle, ObjectTrait, Rectangle};
use my_rusted_balls::physics::{
    BaseCollisionModel, BaseMovementModel, Model, MouseMovementModel,
};
use my_rusted_balls::quadtree::{QuadBox, QuadTree, TreeItem, TreeObject, Vector2};

fn vec2(x: i64, y: i64) -> Vector2 {
    Vector2 { x, y }
}

fn rect(x: i64, y: i64, w: i64, h: i64, speed: Vector2, acel: Vector2) -> Rectangle {
    Rectangle::new(vec2(x, y), w, h, speed, acel)
}

#[test]
fn movement_is_semi_implicit_euler() {
    let m = BaseMovementModel;
    let mut obj = rect(0, 0, 10, 10, vec2(3, 4), vec2(2, 6));
    m.process_movement(&mut obj, 10);
    // velocity first: v += a * dt
    assert_eq!(obj.get_speed(), vec2(23, 64));
    // then position from the old velocity and the halved quadratic term
    assert_eq!(obj.get_coordinate(), vec2(130, 340));
    assert_eq!(obj.get_acel(), vec2(2, 6));
}

#[test]
fn movement_halves_quadratic_term_toward_zero() {
    let m = BaseMovementModel;
    let mut obj = rect(0, 0, 10, 10, vec2(0, 0), vec2(-3, 0));
    m.process_movement(&mut obj, 3);
    // -3 * 9 = -27; halved toward zero gives -13
    assert_eq!(obj.get_coordinate(), vec2(-13, 0));
    assert_eq!(obj.get_speed(), vec2(-9, 0));
}

#[test]
fn movement_with_zero_delta_changes_nothing() {
    let m = BaseMovementModel;
    let mut obj = rect(5, 6, 10, 10, vec2(3, 4), vec2(2, 6));
    m.process_movement(&mut obj, 0);
    assert_eq!(obj.get_coordinate(), vec2(5, 6));
    assert_eq!(obj.get_speed(), vec2(3, 4));
}

#[test]
fn collision_reflects_normal_component() {
    let c = BaseCollisionModel;
    let mut obj = rect(10, 10, 10, 10, vec2(5, 7), vec2(0, 0));
    let pens = vec![Some(vec2(-2, 0))];
    c.process_collision(&mut obj, &pens);
    // a horizontal correction flips the horizontal speed and keeps the rest
    assert_eq!(obj.get_speed(), vec2(-5, 7));
    assert_eq!(obj.get_coordinate(), vec2(8, 10));
}

#[test]
fn collision_with_vertical_correction() {
    let c = BaseCollisionModel;
    let mut obj = rect(10, 10, 10, 10, vec2(5, 7), vec2(0, 0));
    let pens = vec![Some(vec2(0, 4))];
    c.process_collision(&mut obj, &pens);
    assert_eq!(obj.get_speed(), vec2(5, -7));
    assert_eq!(obj.get_coordinate(), vec2(10, 14));
}

#[test]
fn corner_correction_stops_the_object() {
    let c = BaseCollisionModel;
    let mut obj = rect(10, 10, 10, 10, vec2(5, 7), vec2(0, 0));
    let pens = vec![Some(vec2(3, 3))];
    c.process_collision(&mut obj, &pens);
    // a diagonal contact leaves no tangential share to keep
    assert_eq!(obj.get_speed(), vec2(0, 0));
    assert_eq!(obj.get_coordinate(), vec2(13, 13));
}

#[test]
fn absent_corrections_change_nothing() {
    let c = BaseCollisionModel;
    let mut obj = rect(10, 10, 10, 10, vec2(5, 7), vec2(1, 1));
    let pens = vec![None, None];
    c.process_collision(&mut obj, &pens);
    assert_eq!(obj.get_speed(), vec2(5, 7));
    assert_eq!(obj.get_coordinate(), vec2(10, 10));
}

#[test]
fn corrections_apply_in_order() {
    let c = BaseCollisionModel;
    let mut obj = rect(0, 0, 10, 10, vec2(5, 7), vec2(0, 0));
    let pens = vec![Some(vec2(-2, 0)), None, Some(vec2(0, 1))];
    c.process_collision(&mut obj, &pens);
    assert_eq!(obj.get_speed(), vec2(-5, -7));
    assert_eq!(obj.get_coordinate(), vec2(-2, 1));
}

#[test]
fn boundary_correction_at_right_edge() {
    // a 100-wide world; a box at x=98 of width 10 sticks out by 8
    let model = Model::new(BaseMovementModel, BaseCollisionModel, 100, 100, 10, 0);
    let obj = rect(98, 10, 10, 5, vec2(0, 0), vec2(0, 0));
    assert_eq!(model.screen_collision(&obj), Some(vec2(-8, 0)));
}

#[test]
fn boundary_correction_at_two_edges_is_one_vector() {
    let model = Model::new(BaseMovementModel, BaseCollisionModel, 100, 100, 10, 0);
    let obj = rect(95, -3, 10, 5, vec2(0, 0), vec2(0, 0));
    assert_eq!(model.screen_collision(&obj), Some(vec2(-5, 3)));
}

#[test]
fn boundary_correction_inside_world_is_none() {
    let model = Model::new(BaseMovementModel, BaseCollisionModel, 100, 100, 10, 0);
    let obj = rect(10, 10, 10, 10, vec2(0, 0), vec2(0, 0));
    assert_eq!(model.screen_collision(&obj), None);
}

#[test]
fn run_gates_on_the_period() {
    let tree = QuadTree::new(100, 100, 4, 2);
    let mut model = Model::new(BaseMovementModel, BaseCollisionModel, 100, 100, 10, 100);
    let mut objs = vec![rect(10, 10, 5, 5, vec2(1, 0), vec2(0, 0))];
    // too early: nothing moves
    model.run(&mut objs, &tree, 105);
    assert_eq!(objs[0].get_coordinate(), vec2(10, 10));
    // the period has elapsed: one step with the whole delta, clock restarted
    model.run(&mut objs, &tree, 112);
    assert_eq!(objs[0].get_coordinate(), vec2(22, 10));
    // the excess beyond the period was discarded: the clock restarted at
    // 112, so 9 more units are not yet a full period
    model.run(&mut objs, &tree, 121);
    assert_eq!(objs[0].get_coordinate(), vec2(22, 10));
    model.run(&mut objs, &tree, 122);
    assert_eq!(objs[0].get_coordinate(), vec2(32, 10));
}

#[test]
fn process_corrects_then_integrates() {
    let mut tree = QuadTree::new(100, 100, 4, 2);
    tree.add(&TreeItem { id: 1, bbox: QuadBox::new(8, 0, 10, 10) });
    let model = Model::new(BaseMovementModel, BaseCollisionModel, 100, 100, 10, 0);
    let mut objs = vec![rect(0, 0, 10, 10, vec2(5, 0), vec2(0, 0))];
    model.process(&mut objs, &tree, 1);
    // the obstacle pushes the object out by (-2, 0) and flips its speed,
    // then the integrator moves it by the flipped speed
    assert_eq!(objs[0].get_speed(), vec2(-5, 0));
    assert_eq!(objs[0].get_coordinate(), vec2(-7, 0));
}

#[test]
fn mouse_model_tracks_position() {
    let mut m = MouseMovementModel::new();
    m.set_mouse_position(vec2(42, 17));
    let mut m2 = m;
    m2.set_mouse_position(vec2(-3, 8));
    let _ = m2;
}

#[test]
fn model_exposes_its_parts() {
    let mut model = Model::new(BaseMovementModel, BaseCollisionModel, 100, 100, 10, 0);
    let mut obj = rect(0, 0, 10, 10, vec2(3, 4), vec2(0, 0));
    let m = model.get_m_model();
    m.process_movement(&mut obj, 1);
    assert_eq!(obj.get_coordinate(), vec2(3, 4));
    let c = model.get_c_model();
    c.process_collision(&mut obj, &vec![]);
    assert_eq!(obj.get_coordinate(), vec2(3, 4));
}

#[test]
fn circle_box_is_square_around_center() {
    let c = Circle::new(vec2(10, 20), 5, vec2(0, 0), vec2(0, 0));
    let b = c.get_box();
    assert_eq!((b.x, b.y, b.width, b.height), (10, 20, 10, 10));
    assert_eq!(c.get_coordinate(), vec2(10, 20));
}

#[test]
fn circle_set_coordinate_roundtrip() {
    let mut c = Circle::new(vec2(10, 20), 5, vec2(1, 2), vec2(0, 0));
    c.set_coordinate(vec2(30, 40));
    assert_eq!(c.get_coordinate(), vec2(30, 40));
    let b = c.get_box();
    assert_eq!((b.x, b.y, b.width, b.height), (30, 40, 10, 10));
    assert_eq!(c.get_speed(), vec2(1, 2));
}

#[test]
fn rectangle_updates_accumulate() {
    let mut r = rect(1, 2, 10, 10, vec2(3, 4), vec2(5, 6));
    r.update_coordinate(vec2(10, 10));
    r.update_speed(vec2(-1, -1));
    r.update_acel(vec2(1, 1));
    assert_eq!(r.get_coordinate(), vec2(11, 12));
    assert_eq!(r.get_speed(), vec2(2, 3));
    assert_eq!(r.get_acel(), vec2(6, 7));
    r.set_speed(vec2(0, 0));
    r.set_acel(vec2(0, 0));
    assert_eq!(r.get_speed(), vec2(0, 0));
    assert_eq!(r.get_acel(), vec2(0, 0));
}

#[test]
fn circle_probes_the_index() {
    let mut tree = QuadTree::new(100, 100, 4, 2);
    tree.add(&TreeItem { id: 1, bbox: QuadBox::new(10, 10, 10, 10) });
    tree.add(&TreeItem { id: 2, bbox: QuadBox::new(70, 70, 10, 10) });
    let probe = Circle::new(vec2(12, 12), 4, vec2(0, 0), vec2(0, 0));
    let pens = tree.query(&probe);
    assert_eq!(pens.len(), 1);
    assert!(pens[0].is_some());
}
