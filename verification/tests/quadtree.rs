use lart::double::double_key;
use lart::quadtree::{Bounds, Entry, QuadTree, LEAF_CAPACITY};
use rand::{Rng, SeedableRng};
use rand_xoshiro::Xoshiro256StarStar;

fn entry(x: u64, y: u64, value: usize) -> Entry<usize> {
    Entry { x, y, value }
}

fn bounds(min_x: u64, min_y: u64, max_x: u64, max_y: u64) -> Bounds {
    Bounds { min_x, min_y, max_x, max_y }
}

fn scan(elements: &[Entry<usize>], q: &Bounds) -> Vec<Entry<usize>> {
    let mut found: Vec<Entry<usize>> = elements
        .iter()
        .filter(|e| q.min_x <= e.x && e.x <= q.max_x && q.min_y <= e.y && e.y <= q.max_y)
        .cloned()
        .collect();
    found.sort_by_key(|e| (e.value, e.x, e.y));
    found
}

fn search(tree: &QuadTree<usize>, q: &Bounds) -> Vec<Entry<usize>> {
    let mut found: Vec<Entry<usize>> = tree.in_range(q).into_iter().cloned().collect();
    found.sort_by_key(|e| (e.value, e.x, e.y));
    found
}

#[test]
fn leaf_capacity_is_64() {
    assert_eq!(LEAF_CAPACITY, 64);
}

#[test]
fn bounds_hold_their_edges() {
    let b = bounds(2, 3, 5, 7);
    assert!(b.contains(2, 3) && b.contains(5, 7) && b.contains(2, 7) && b.contains(4, 5));
    assert!(!b.contains(1, 5) && !b.contains(6, 5) && !b.contains(4, 2) && !b.contains(4, 8));
    assert!(Bounds::everything().contains(0, 0));
    assert!(Bounds::everything().contains(u64::MAX, u64::MAX));
}

#[test]
fn bounds_intersect_when_they_share_a_place() {
    let b = bounds(2, 3, 5, 7);
    assert!(b.intersects(&bounds(5, 7, 9, 9)));
    assert!(b.intersects(&bounds(0, 0, 2, 3)));
    assert!(b.intersects(&bounds(3, 4, 4, 5)));
    assert!(b.intersects(&bounds(0, 0, 100, 100)));
    assert!(!b.intersects(&bounds(6, 3, 9, 7)));
    assert!(!b.intersects(&bounds(2, 8, 5, 9)));
    assert!(!b.intersects(&bounds(0, 0, 1, 100)));
    // A box whose edges are the wrong way round holds no place.
    assert!(!b.intersects(&bounds(4, 4, 3, 5)));
    assert!(!bounds(4, 4, 3, 5).intersects(&b));
}

#[test]
fn a_small_tree_finds_what_lies_in_the_box() {
    let elements = vec![entry(1, 1, 0), entry(5, 5, 1), entry(9, 1, 2), entry(5, 9, 3)];
    let tree = QuadTree::new(bounds(0, 0, 10, 10), elements.clone());
    assert_eq!(search(&tree, &bounds(0, 0, 5, 5)), vec![entry(1, 1, 0), entry(5, 5, 1)]);
    assert_eq!(search(&tree, &bounds(5, 5, 5, 5)), vec![entry(5, 5, 1)]);
    assert_eq!(search(&tree, &bounds(6, 6, 8, 8)), vec![]);
    assert_eq!(search(&tree, &Bounds::everything()), elements);
    assert_eq!(search(&tree, &bounds(6, 0, 5, 10)), vec![]);
}

#[test]
fn an_empty_tree_finds_nothing() {
    let tree: QuadTree<usize> = QuadTree::new(bounds(0, 0, 10, 10), vec![]);
    assert!(tree.in_range(&Bounds::everything()).is_empty());
}

#[test]
fn in_range_is_a_scan_of_the_elements() {
    let mut rng = Xoshiro256StarStar::seed_from_u64(2024);
    for round in 0..40 {
        let n = [0usize, 1, 64, 65, 200, 1000, 3000][round % 7];
        let side: u64 = [1, 2, 7, 100, 1 << 20, u64::MAX][round % 6];
        let elements: Vec<Entry<usize>> =
            (0..n).map(|i| entry(rng.gen_range(0..=side), rng.gen_range(0..=side), i)).collect();
        let tree = QuadTree::new(bounds(0, 0, side, side), elements.clone());
        assert_eq!(search(&tree, &Bounds::everything()), elements);
        for _ in 0..50 {
            let (a, b) = (rng.gen_range(0..=side), rng.gen_range(0..=side));
            let (c, d) = (rng.gen_range(0..=side), rng.gen_range(0..=side));
            let q = bounds(a.min(b), c.min(d), a.max(b), c.max(d));
            assert_eq!(search(&tree, &q), scan(&elements, &q), "round {round}, box {q:?}");
        }
    }
}

#[test]
fn elements_beyond_the_box_of_the_tree_are_found_too() {
    let mut rng = Xoshiro256StarStar::seed_from_u64(7);
    let elements: Vec<Entry<usize>> =
        (0..500).map(|i| entry(rng.gen_range(0..1000), rng.gen_range(0..1000), i)).collect();
    let tree = QuadTree::new(bounds(400, 400, 600, 600), elements.clone());
    for _ in 0..200 {
        let (a, b) = (rng.gen_range(0..1000u64), rng.gen_range(0..1000u64));
        let (c, d) = (rng.gen_range(0..1000u64), rng.gen_range(0..1000u64));
        let q = bounds(a.min(b), c.min(d), a.max(b), c.max(d));
        assert_eq!(search(&tree, &q), scan(&elements, &q));
    }
    let backwards = QuadTree::new(bounds(600, 600, 400, 400), elements.clone());
    assert_eq!(search(&backwards, &bounds(0, 0, 500, 500)), scan(&elements, &bounds(0, 0, 500, 500)));
}

#[test]
fn many_elements_at_one_place_are_all_kept() {
    let elements: Vec<Entry<usize>> = (0..1000).map(|i| entry(3, 3, i)).collect();
    let tree = QuadTree::new(bounds(0, 0, 1 << 40, 1 << 40), elements.clone());
    assert_eq!(search(&tree, &bounds(3, 3, 3, 3)), elements);
    assert_eq!(search(&tree, &bounds(0, 0, 2, 10)), vec![]);
    assert_eq!(search(&tree, &bounds(4, 0, 10, 10)), vec![]);
}

#[test]
fn doubles_are_found_by_their_keys() {
    let key = |v: f64| double_key(v.to_bits());
    let points = [(-2.5f64, 1.0f64), (-0.5, -0.5), (0.0, 0.0), (0.25, 3.0), (1e-9, -1e9), (7.0, 7.0)];
    let elements: Vec<Entry<usize>> =
        points.iter().enumerate().map(|(i, (x, y))| entry(key(*x), key(*y), i)).collect();
    let tree = QuadTree::new(bounds(key(-10.0), key(-10.0), key(10.0), key(10.0)), elements);
    let q = bounds(key(-1.0), key(-1.0), key(1.0), key(4.0));
    let found: Vec<usize> = search(&tree, &q).into_iter().map(|e| e.value).collect();
    assert_eq!(found, vec![1, 2, 3]);
    let q = bounds(key(f64::NEG_INFINITY), key(-2e9), key(f64::INFINITY), key(0.0));
    let found: Vec<usize> = search(&tree, &q).into_iter().map(|e| e.value).collect();
    assert_eq!(found, vec![1, 2, 4]);
}

#[test]
fn a_tree_of_many_elements_at_the_corners_finds_each_corner() {
    // More than a leaf holds in each quarter of the box, so that the tree
    // is cut more than once.
    let mut elements = vec![];
    for i in 0..400usize {
        let (x, y) = [(0u64, 0u64), (100, 0), (0, 100), (100, 100)][i % 4];
        elements.push(entry(x + (i as u64 / 4) % 3, y + (i as u64 / 12) % 3, i));
    }
    let tree = QuadTree::new(bounds(0, 0, 102, 102), elements.clone());
    for (x, y) in [(0u64, 0u64), (100, 0), (0, 100), (100, 100)] {
        let q = bounds(x, y, x + 2, y + 2);
        let found = search(&tree, &q);
        assert_eq!(found.len(), 100);
        assert_eq!(found, scan(&elements, &q));
    }
    // The middle of the box is at 51: what lies on it goes with the left.
    let q = bounds(0, 0, 51, 102);
    assert_eq!(search(&tree, &q).len(), 200);
}
