use my_rusted_balls::quadtree::{QuadBox, QuadTree, TreeItem, Vector2};
use rand::Rng;

fn item(id: u64, x: i64, y: i64, w: i64, h: i64) -> TreeItem {
    TreeItem { id, bbox: QuadBox::new(x, y, w, h) }
}

fn sorted_ids(items: &[TreeItem]) -> Vec<u64> {
    let mut ids: Vec<u64> = items.iter().map(|it| it.id).collect();
    ids.sort();
    ids
}

#[test]
fn box_accessors() {
    let b = QuadBox::new(10, 20, 30, 40);
    assert_eq!(b.get_lefttop(), Vector2 { x: 10, y: 20 });
    assert_eq!(b.get_right_x(), 40);
    assert_eq!(b.get_bottom_y(), 60);
    assert_eq!(b.get_size(), Vector2 { x: 30, y: 40 });
    assert_eq!(b.get_center(), Vector2 { x: 25, y: 40 });
}

#[test]
fn box_contains() {
    let outer = QuadBox::new(0, 0, 100, 100);
    let inner = QuadBox::new(10, 10, 20, 20);
    assert!(outer.contains(&inner));
    assert!(!inner.contains(&outer));
    // containment is inclusive on the edges
    assert!(outer.contains(&QuadBox::new(0, 0, 100, 100)));
    assert!(!outer.contains(&QuadBox::new(90, 90, 11, 11)));
}

#[test]
fn intersects_is_symmetric() {
    let cases = [
        (QuadBox::new(0, 0, 10, 10), QuadBox::new(5, 5, 10, 10)),
        (QuadBox::new(0, 0, 10, 10), QuadBox::new(10, 0, 10, 10)),
        (QuadBox::new(0, 0, 10, 10), QuadBox::new(50, 50, 3, 3)),
        (QuadBox::new(-5, -5, 10, 10), QuadBox::new(4, 4, 1, 1)),
    ];
    for (a, b) in cases.iter() {
        assert_eq!(a.intersects(b), b.intersects(a));
    }
}

#[test]
fn touching_edges_do_not_intersect() {
    let a = QuadBox::new(0, 0, 10, 10);
    assert!(!a.intersects(&QuadBox::new(10, 0, 10, 10)));
    assert!(!a.intersects(&QuadBox::new(0, 10, 10, 10)));
    assert!(!a.intersects(&QuadBox::new(10, 10, 5, 5)));
    assert!(a.intersects(&QuadBox::new(9, 9, 10, 10)));
}

#[test]
fn minkowski_difference_values() {
    let a = QuadBox::new(0, 0, 10, 10);
    let b = QuadBox::new(8, 0, 10, 10);
    let md = a.minkowski_difference(&b);
    assert_eq!((md.x, md.y, md.width, md.height), (-18, -10, 20, 20));
}

#[test]
fn minkowski_straddles_origin_when_overlapping() {
    let a = QuadBox::new(0, 0, 10, 10);
    let b = QuadBox::new(8, 3, 10, 10);
    assert!(a.intersects(&b));
    let md = a.minkowski_difference(&b);
    assert!(md.x < 0 && md.x + md.width > 0);
    assert!(md.y < 0 && md.y + md.height > 0);
}

#[test]
fn pen_vector_resolves_overlap() {
    let a = QuadBox::new(0, 0, 10, 10);
    let b = QuadBox::new(8, 0, 10, 10);
    let md = a.minkowski_difference(&b);
    let pen = a.pen_vector(&b, &md);
    assert_eq!(pen, Some(Vector2 { x: -2, y: 0 }));
    let v = pen.unwrap();
    let moved = QuadBox::new(a.x + v.x, a.y + v.y, a.width, a.height);
    assert!(!moved.intersects(&b));
}

#[test]
fn pen_vector_picks_smallest_axis() {
    // deeper horizontal than vertical penetration: the vertical correction wins
    let a = QuadBox::new(0, 0, 10, 10);
    let b = QuadBox::new(2, 9, 10, 10);
    let md = a.minkowski_difference(&b);
    let pen = a.pen_vector(&b, &md).unwrap();
    assert_eq!(pen, Vector2 { x: 0, y: -1 });
    let moved = QuadBox::new(a.x + pen.x, a.y + pen.y, a.width, a.height);
    assert!(!moved.intersects(&b));
}

#[test]
fn pen_vector_zero_for_touching_edges() {
    // boxes that merely touch still yield a correction: the zero vector
    let a = QuadBox::new(0, 0, 10, 10);
    let b = QuadBox::new(10, 0, 10, 10);
    let md = a.minkowski_difference(&b);
    assert_eq!(a.pen_vector(&b, &md), Some(Vector2 { x: 0, y: 0 }));
    let c = QuadBox::new(10, 2, 10, 5);
    let d = QuadBox::new(0, 0, 10, 5);
    let md2 = c.minkowski_difference(&d);
    assert_eq!((md2.x, md2.y, md2.width, md2.height), (0, -3, 20, 10));
    assert_eq!(c.pen_vector(&d, &md2), Some(Vector2 { x: 0, y: 0 }));
}

#[test]
fn pen_vector_none_only_when_all_distances_vanish() {
    // the one correction-free case: all four edge distances exactly zero
    let a = QuadBox::new(5, 5, 0, 0);
    let md = a.minkowski_difference(&a);
    assert_eq!((md.x, md.y, md.width, md.height), (0, 0, 0, 0));
    assert_eq!(a.pen_vector(&a, &md), None);
}

#[test]
fn empty_tree_queries_nothing() {
    let tree = QuadTree::new(100, 100, 4, 2);
    assert_eq!(tree.query_objects(&QuadBox::new(0, 0, 100, 100)).len(), 0);
    assert_eq!(tree.get_items().len(), 0);
    assert_eq!(tree.get_boxes().len(), 0);
}

#[test]
fn single_split_scenario() {
    // world 100x100, capacity 2, depth bound 4
    let mut tree = QuadTree::new(100, 100, 4, 2);
    tree.add(&item(1, 10, 10, 5, 5));
    tree.add(&item(2, 20, 20, 5, 5));
    assert_eq!(tree.get_boxes().len(), 1);
    tree.add(&item(3, 80, 80, 5, 5));
    // the third insertion splits the root, exactly once
    assert_eq!(tree.get_boxes().len(), 5);
    let hits = tree.query_objects(&QuadBox::new(0, 0, 50, 50));
    assert_eq!(sorted_ids(&hits), vec![1, 2]);
}

#[test]
fn split_keeps_leaves_within_capacity() {
    let mut tree = QuadTree::new(100, 100, 8, 2);
    tree.add(&item(1, 1, 1, 2, 2));
    tree.add(&item(2, 5, 5, 2, 2));
    tree.add(&item(3, 9, 9, 2, 2));
    // the one overfull leaf was split
    assert!(tree.get_boxes().len() > 1);
    assert_eq!(tree.get_items().len(), 3);
    let levels = tree.levels();
    for lvl in levels.iter() {
        // no level of this sparse tree collects more than it was given
        assert!(lvl.len() <= 3);
    }
    let hits = tree.query_objects(&QuadBox::new(0, 0, 100, 100));
    assert_eq!(sorted_ids(&hits), vec![1, 2, 3]);
}

#[test]
fn straddling_object_stays_at_its_node() {
    let mut tree = QuadTree::new(100, 100, 6, 2);
    // straddles the root's center lines at (50, 50)
    let straddler = item(99, 48, 48, 6, 6);
    tree.add(&straddler);
    // force repeated splitting beneath the root
    for k in 0..20u64 {
        let x = (k % 4) as i64 * 3;
        let y = (k / 4) as i64 * 3;
        tree.add(&item(k, x, y, 2, 2));
    }
    let levels = tree.levels();
    assert!(levels[0].iter().any(|it| it.id == 99));
    assert_eq!(levels.iter().map(|l| l.len()).sum::<usize>(), 21);
}

#[test]
fn query_matches_brute_force_scan() {
    let mut rng = rand::thread_rng();
    let mut tree = QuadTree::new(1000, 1000, 8, 4);
    let mut all: Vec<TreeItem> = Vec::new();
    for id in 0..500u64 {
        let it = item(
            id,
            rng.gen_range(0..950),
            rng.gen_range(0..950),
            rng.gen_range(1..60),
            rng.gen_range(1..60),
        );
        tree.add(&it);
        all.push(it);
    }
    for _ in 0..50 {
        let target = QuadBox::new(rng.gen_range(0..900), rng.gen_range(0..900), 80, 80);
        let tree_hits = tree.query_objects(&target);
        let brute: Vec<TreeItem> =
            all.iter().copied().filter(|it| it.bbox.intersects(&target)).collect();
        assert_eq!(sorted_ids(&tree_hits), sorted_ids(&brute));
        // the correction-returning mode yields one entry per hit, never absent
        let pens = tree.query_box(&target);
        assert_eq!(pens.len(), tree_hits.len());
        assert!(pens.iter().all(|p| p.is_some()));
    }
}

#[test]
fn items_are_stored_as_copies() {
    let mut tree = QuadTree::new(100, 100, 4, 2);
    let mut it = item(7, 10, 10, 5, 5);
    tree.add(&it);
    // mutating the caller's object after insertion leaves the tree's copy alone
    it.bbox = QuadBox::new(90, 90, 5, 5);
    let stored = tree.get_items();
    assert_eq!(stored.len(), 1);
    assert_eq!(stored[0].bbox.x, 10);
    assert_eq!(it.bbox.x, 90);
}

#[test]
fn oversized_object_stays_at_root() {
    let mut tree = QuadTree::new(100, 100, 4, 1);
    tree.add(&item(1, 10, 10, 60, 60));
    tree.add(&item(2, 1, 1, 4, 4));
    tree.add(&item(3, 5, 5, 4, 4));
    let levels = tree.levels();
    assert!(levels[0].iter().any(|it| it.id == 1));
    let hits = tree.query_objects(&QuadBox::new(0, 0, 100, 100));
    assert_eq!(sorted_ids(&hits), vec![1, 2, 3]);
}

#[test]
fn straddler_of_an_inner_node_stays_there() {
    let mut tree = QuadTree::new(100, 100, 6, 1);
    tree.add(&item(1, 1, 1, 2, 2));
    // straddles the north-west quadrant's center lines at (25, 25)
    tree.add(&item(50, 23, 23, 6, 6));
    for k in 0..6u64 {
        let off = 2 + (k as i64) * 3;
        tree.add(&item(2 + k, off, off, 2, 2));
    }
    let levels = tree.levels();
    // the straddler sits one level below the root, and further splitting
    // beneath it never moves it
    assert!(levels[1].iter().any(|it| it.id == 50));
    assert_eq!(tree.get_items().len(), 8);
}

#[test]
fn duplicate_objects_are_both_stored() {
    let mut tree = QuadTree::new(100, 100, 4, 2);
    let it = item(5, 10, 10, 5, 5);
    tree.add(&it);
    tree.add(&it);
    assert_eq!(tree.get_items().len(), 2);
    let hits = tree.query_objects(&QuadBox::new(0, 0, 50, 50));
    assert_eq!(sorted_ids(&hits), vec![5, 5]);
}

#[test]
fn zero_size_box_on_an_edge_does_not_intersect() {
    let interior_point = QuadBox::new(5, 5, 0, 0);
    let edge_point = QuadBox::new(0, 5, 0, 0);
    let around = QuadBox::new(0, 0, 10, 10);
    // a degenerate box strictly inside still overlaps; one on the edge
    // only touches
    assert!(interior_point.intersects(&around));
    assert!(around.intersects(&interior_point));
    assert!(!edge_point.intersects(&around));
    assert!(around.contains(&interior_point));
    assert!(around.contains(&edge_point));
}

#[test]
fn box_touching_center_line_goes_into_its_child() {
    // right edge exactly on the world's vertical center line: the box is
    // fully contained in the north-west quadrant and moves there on split
    let mut tree = QuadTree::new(100, 100, 4, 1);
    tree.add(&item(1, 10, 10, 40, 20));
    tree.add(&item(2, 60, 60, 5, 5));
    let levels = tree.levels();
    assert!(levels[0].is_empty());
    assert_eq!(sorted_ids(&levels[1]), vec![1, 2]);
}
