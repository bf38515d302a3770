use my_rusted_balls::objects::{ObjectTrait, Rectangle};
use my_rusted_balls::quadtree::{QuadBox, QuadTree, TreeItem, TreeObject, Vector2};
use rand::Rng;
use std::time::{Duration, Instant};

fn gen_vec_of_objects(
    size: u32,
    width: u32,
    height: u32,
    min_rec_width: u32,
    max_rec_width: u32,
    min_rec_height: u32,
    max_rec_height: u32,
) -> Vec<TreeItem> {
    let mut ret: Vec<TreeItem> = Vec::new();
    let mut rng = rand::thread_rng();
    for n in 0..size {
        ret.push(TreeItem {
            id: n as u64,
            bbox: QuadBox::new(
                rng.gen_range(0..width) as i64,
                rng.gen_range(0..height) as i64,
                rng.gen_range(min_rec_width..max_rec_width) as i64,
                rng.gen_range(min_rec_height..max_rec_height) as i64,
            ),
        });
    }
    ret
}

fn brut_force_find(elems: &Vec<TreeItem>, target: QuadBox) -> Vec<Option<Vector2>> {
    let mut ret: Vec<Option<Vector2>> = Vec::new();
    for n in elems.iter() {
        let tmp = n.bbox;
        let bx = tmp.minkowski_difference(&target);
        if n.bbox.intersects(&target) {
            ret.push(tmp.pen_vector(&target, &bx));
        }
    }
    ret
}

#[test]
fn quadtree_benchmark() {
    const WINDOW_WIDTH: u32 = 1024;
    const WINDOW_HEIGHT: u32 = 1024;
    const NUM_OF_OBJECTS: u32 = 100000;
    const MAX_REC_WIDTH: u32 = 100;
    const MIN_REC_WIDTH: u32 = 10;
    const MAX_REC_HEIGHT: u32 = 100;
    const MIN_REC_HEIGHT: u32 = 10;
    let mut tree = QuadTree::new(WINDOW_WIDTH as i64, WINDOW_HEIGHT as i64, 128, 4);
    let elems = gen_vec_of_objects(
        NUM_OF_OBJECTS,
        WINDOW_WIDTH,
        WINDOW_HEIGHT,
        MIN_REC_WIDTH,
        MAX_REC_WIDTH,
        MIN_REC_HEIGHT,
        MAX_REC_HEIGHT,
    );
    for n in elems.iter() {
        tree.add(n);
    }
    let mut target = Rectangle::new(
        Vector2 { x: 100, y: 100 },
        50,
        50,
        Vector2 { x: 0, y: 0 },
        Vector2 { x: 0, y: 0 },
    );

    const ATTEMPTS: u32 = 1000;
    let mut rng = rand::thread_rng();
    let mut total_brut: Duration = Duration::new(0, 0);
    let mut total_tree: Duration = Duration::new(0, 0);
    for _n in 0..ATTEMPTS {
        target.set_coordinate(Vector2 {
            x: rng.gen_range(0..WINDOW_WIDTH - 50) as i64,
            y: rng.gen_range(0..WINDOW_HEIGHT - 50) as i64,
        });
        let now = Instant::now();
        brut_force_find(&elems, target.get_box());
        total_brut += now.elapsed();
        let now = Instant::now();
        tree.query(&target);
        total_tree += now.elapsed();
    }
    println!(
        "Total brut: {:.3?} Total tree: {:.3?}",
        total_brut / ATTEMPTS,
        total_tree / ATTEMPTS
    );
}
