use isoline::quad_tree::{create_node, TreeNode};
use isoline::util::{Image, Point};

#[test]
fn test_create_uneven_quadtree() {
    let data: [i32; 9] = [1,2,3,
                          4,5,6,
                          7,8,9];
    let img = Image::new(&data, 3, 3);
    let tree = create_node(&img, Point {x: 0, y: 0}, 3, 3);

    assert_eq!(tree.lower_bound, 1);
    assert_eq!(tree.upper_bound, 9);

    let top_left = tree.top_left.unwrap();
    let top_right = tree.top_right.unwrap();
    let bottom_left = tree.bottom_left.unwrap();
    let bottom_right = tree.bottom_right.unwrap();

    assert_eq!(top_left.width, 2);
    assert_eq!(top_right.width, 2);
    assert_eq!(bottom_left.width, 2);
    assert_eq!(bottom_right.width, 2);

    assert_eq!(top_left.height, 2);
    assert_eq!(top_right.height, 2);
    assert_eq!(bottom_left.height, 2);
    assert_eq!(bottom_right.height, 2);

    assert_eq!(top_left.upper_bound, 5);
    assert_eq!(top_right.upper_bound, 6);
    assert_eq!(bottom_left.upper_bound, 8);
    assert_eq!(bottom_right.upper_bound, 9);

    assert_eq!(top_left.lower_bound, 1);
    assert_eq!(top_right.lower_bound, 2);
    assert_eq!(bottom_left.lower_bound, 4);
    assert_eq!(bottom_right.lower_bound, 5);
}

#[test]
fn test_create_even_quadtree() {
    let data = [1,1,1,1,2,2,2,2,
                1,1,1,1,2,2,2,2,
                3,3,3,3,4,4,4,4,
                3,3,3,3,4,4,4,4];
    let img = Image::new(&data, 8, 4);
    let tree = create_node(&img, Point {x: 0, y: 0}, 8, 4);

    assert_eq!(tree.lower_bound, 1);
    assert_eq!(tree.upper_bound, 4);

    let top_left = tree.top_left.unwrap();
    let top_right = tree.top_right.unwrap();
    let bottom_left = tree.bottom_left.unwrap();
    let bottom_right = tree.bottom_right.unwrap();

    assert_eq!(top_left.width, 4);
    assert_eq!(top_right.width, 5);
    assert_eq!(bottom_left.width, 4);
    assert_eq!(bottom_right.width, 5);

    assert_eq!(top_left.height, 2);
    assert_eq!(top_right.height, 2);
    assert_eq!(bottom_left.height, 3);
    assert_eq!(bottom_right.height, 3);

    assert_eq!(top_left.upper_bound, 1);
    assert_eq!(top_right.upper_bound, 2);
    assert_eq!(bottom_left.upper_bound, 3);
    assert_eq!(bottom_right.upper_bound, 4);

    assert_eq!(top_left.lower_bound, 1);
    assert_eq!(top_right.lower_bound, 1);
    assert_eq!(bottom_left.lower_bound, 1);
    assert_eq!(bottom_right.lower_bound, 1);
}

#[test]
fn test_under_threshold()
{
    let data = [1,2,5,6,2,2,2,2,
                3,4,7,8,2,2,2,2,
                3,3,3,3,4,4,4,4,
                3,3,3,3,4,4,4,4];
    let img = Image::new(&data, 8, 4);
    let tree = create_node(&img, Point {x: 0, y: 0}, 8, 4);

    let cells = tree.under_threshold(2);
    assert_eq!(cells.len(), 10);

    let cells = tree.under_threshold(3);

    assert_eq!(cells.len(), 17);


    let data = [1, 2, 3, 4, 4, 3, 2, 1,
                2, 3, 4, 5, 5, 4, 3, 2,
                3, 4, 5, 6, 6, 5, 4, 3,
                4, 5, 6, 7, 7, 6, 5, 4,
                4, 5, 6, 7, 7, 6, 5, 4,
                3, 4, 5, 6, 6, 5, 4, 3,
                2, 3, 4, 5, 5, 4, 3, 2,
                1, 2, 3, 4, 4, 3, 2, 1
    ];
    let img = Image::new(&data, 8, 8);
    let tree = create_node(&img, Point {x: 0, y: 0}, img.width, img.height);
    let cells = tree.under_threshold(7);
    println!("{:?}", cells);
}

#[test]
fn test_above_threshold()
{
    let data = [1, 2, 3, 4, 3, 2, 1,
                2, 3, 4, 5, 4, 3, 2,
                3, 4, 5, 6, 5, 4, 3,
                4, 5, 6, 7, 6, 5, 4,
                3, 4, 5, 6, 5, 4, 3,
                2, 3, 4, 5, 4, 3, 2,
                1, 2, 3, 4, 3, 2, 1
    ];
    let img = Image::new(&data, 7, 7);
    let tree = create_node(&img, Point {x: 0, y: 0}, img.width, img.height);
    let cells = tree.above_threshold(7);

    assert_eq!(cells, vec![
        Point {x: 2, y: 2},
        Point {x: 3, y: 2},
        Point {x: 2, y: 3},
        Point {x: 3, y: 3}]);

    let data = [1, 2, 3, 4, 4, 3, 2, 1,
                2, 3, 4, 5, 5, 4, 3, 2,
                3, 4, 7, 7, 6, 5, 4, 3,
                4, 5, 7, 7, 6, 6, 5, 4,
                4, 5, 6, 6, 6, 6, 5, 4,
                3, 4, 5, 6, 6, 5, 4, 3,
                2, 3, 4, 5, 5, 4, 3, 2,
                1, 2, 3, 4, 4, 3, 2, 1
    ];
    let img = Image::new(&data, 8, 8);
    let tree = create_node(&img, Point {x: 0, y: 0}, img.width, img.height);
    let cells = tree.above_threshold(7);

    println!("{:?}", cells);
}

fn corner_range(data: &[i32], w: u32, h: u32, x: u32, y: u32) -> (i32, i32) {
    let mut lo = i32::MAX;
    let mut hi = i32::MIN;
    for (dx, dy) in [(0, 0), (1, 0), (0, 1), (1, 1)] {
        let (cx, cy) = (x + dx, y + dy);
        if cx < w && cy < h {
            let v = data[(cy * w + cx) as usize];
            lo = lo.min(v);
            hi = hi.max(v);
        }
    }
    (lo, hi)
}

#[test]
fn pruning_keeps_every_straddling_cell() {
    let (w, h) = (9u32, 6u32);
    let data: Vec<i32> = (0..w * h).map(|i| ((i * 37 + 11) % 17) as i32 - 5).collect();
    let img = Image::new(&data, w, h);
    let tree = TreeNode::create(&img);
    for t in -7..14 {
        let cells = tree.above_threshold(t);
        for y in 0..h - 1 {
            for x in 0..w - 1 {
                let (lo, hi) = corner_range(&data, w, h, x, y);
                let listed = cells.contains(&Point { x, y });
                if lo <= t && t <= hi {
                    assert!(listed, "cell ({}, {}) missing at {}", x, y, t);
                }
                assert_eq!(listed, hi >= t);
            }
        }
        let mut sorted = cells.clone();
        sorted.sort_by_key(|p| (p.x, p.y));
        sorted.dedup();
        assert_eq!(sorted.len(), cells.len());
    }
}

#[test]
fn bounds_are_exact_over_the_grid() {
    let data = [5, -3, 8, 0, 2, 11];
    let img = Image::new(&data, 3, 2);
    let tree = TreeNode::create(&img);
    assert_eq!(tree.lower_bound, -3);
    assert_eq!(tree.upper_bound, 11);
    assert_eq!(tree.above_threshold(12), vec![]);
    assert_eq!(tree.under_threshold(-4), vec![]);
}

#[test]
fn single_row_and_empty_grids() {
    let data = [1, 5, 2];
    let img = Image::new(&data, 3, 1);
    let tree = TreeNode::create(&img);
    assert_eq!(tree.above_threshold(5), vec![Point { x: 0, y: 0 }, Point { x: 1, y: 0 }]);
    let empty = Image::new(&[], 0, 0);
    let tree = TreeNode::create(&empty);
    assert_eq!(tree.above_threshold(0), vec![]);
}
