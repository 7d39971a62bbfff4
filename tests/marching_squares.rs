use isoline::marching_squares::{
    dist_between_option_values, dist_between_values, get_next_segment, interpolate,
    trace_path, trace_segments, Direction, MarchingSquares, NextSegmentError, Path, Segment,
    SegmentMap,
};
use isoline::util::{Fraction, Image, Point};
use std::collections::HashMap;

fn value(f: &Fraction) -> f32 {
    f.num as f32 / f.den as f32
}

fn pt(p: &Point<Fraction>) -> Point<f32> {
    Point { x: value(&p.x), y: value(&p.y) }
}

fn points(path: &Path) -> Vec<Point<f32>> {
    path.points.iter().map(pt).collect()
}

fn check_segment(s: &Segment, start: (f32, f32), end: (f32, f32), cell: (u32, u32), d: Direction) {
    assert_eq!(pt(&s.start), Point { x: start.0, y: start.1 });
    assert_eq!(pt(&s.end), Point { x: end.0, y: end.1 });
    assert_eq!(s.cell_coord, Point { x: cell.0, y: cell.1 });
    assert_eq!(s.direction, d);
}

const PEAK: [i32; 64] = [
    1, 2, 3, 4, 4, 3, 2, 1,
    2, 3, 4, 5, 5, 4, 3, 2,
    3, 4, 5, 6, 6, 5, 4, 3,
    4, 5, 6, 8, 8, 6, 5, 4,
    4, 5, 6, 8, 8, 6, 5, 4,
    3, 4, 5, 6, 6, 5, 4, 3,
    2, 3, 4, 5, 5, 4, 3, 2,
    1, 2, 3, 4, 4, 3, 2, 1,
];

fn octagon() -> Vec<Point<f32>> {
    vec![
        Point { x: 2.5, y: 3.0 },
        Point { x: 3.0, y: 2.5 },
        Point { x: 4.0, y: 2.5 },
        Point { x: 4.5, y: 3.0 },
        Point { x: 4.5, y: 4.0 },
        Point { x: 4.0, y: 4.5 },
        Point { x: 3.0, y: 4.5 },
        Point { x: 2.5, y: 4.0 },
        Point { x: 2.5, y: 3.0 },
    ]
}

fn first_of(map: &SegmentMap, x: u32, y: u32) -> usize {
    map.fragments_of(&Point { x, y }).unwrap().0
}

#[test]
fn test_path() {
    assert_eq!(1, 1)
}

#[test]
fn test_cell_state() {
    let data = [
        1, 2, 5, 6, 2, 2, 2, 2,
        3, 4, 7, 8, 2, 2, 2, 2,
        3, 3, 3, 3, 4, 4, 4, 4,
        3, 3, 3, 3, 4, 4, 4, 4,
    ];
    let img = Image::new(&data, 8, 4);
    let marching_squares = MarchingSquares::new(&img);

    assert_eq!(marching_squares.cell_state(&Point { x: 0, y: 0 }, 2), 0b0111);
    assert_eq!(marching_squares.cell_state(&Point { x: 0, y: 0 }, 1), 0b1111);
    assert_eq!(marching_squares.cell_state(&Point { x: 0, y: 0 }, 3), 0b0011);
    assert_eq!(marching_squares.cell_state(&Point { x: 0, y: 0 }, 4), 0b0001);
    assert_eq!(marching_squares.cell_state(&Point { x: 0, y: 2 }, 3), 0b1111);
}

#[test]
fn test_interpolate() {
    assert_eq!(value(&interpolate((1, 2), 1, 2)), 1.5);
    assert_eq!(value(&interpolate((1, 1), 1, 2)), 2.0);
    assert_eq!(value(&interpolate((0, 1), 1, 2)), 1.0);

    assert_eq!(value(&interpolate((1, 2), 2, 1)), 1.5);
    assert_eq!(value(&interpolate((1, 1), 2, 1)), 1.0);
    assert_eq!(value(&interpolate((0, 1), 2, 1)), 2.0);
}

fn ratio(r: (u64, u64)) -> f32 {
    r.0 as f32 / r.1 as f32
}

#[test]
fn test_distance_between_values() {
    assert_eq!(ratio(dist_between_values(3, 2, 4)), 0.5);
    assert_eq!(ratio(dist_between_values(2, 1, 2)), 1.0);
    assert_eq!(ratio(dist_between_values(1, 1, 2)), 0.0);

    assert_eq!(ratio(dist_between_values(3, 4, 2)), 0.5);
    assert_eq!(ratio(dist_between_values(2, 2, 1)), 0.0);
    assert_eq!(ratio(dist_between_values(1, 2, 1)), 1.0);

    assert_eq!(dist_between_values(8, 20, 0), (12, 20));
}

#[test]
fn test_cell_to_segments() {
    let data = [
        1, 2, 5, 6, 2, 2, 2, 2,
        3, 4, 7, 8, 2, 2, 2, 2,
        3, 3, 3, 3, 4, 4, 4, 4,
        3, 3, 3, 3, 4, 4, 4, 4,
    ];
    let img = Image::new(&data, 8, 4);
    let marching_squares = MarchingSquares::new(&img);

    let s = marching_squares.cell_to_segments(&Point { x: 0, y: 0 }, 2);
    assert_eq!(s.len(), 1);
    check_segment(&s[0], (0.0, 0.5), (1.0, 0.0), (0, 0), Direction::Up);

    let s = marching_squares.cell_to_segments(&Point { x: 0, y: 0 }, 3);
    assert_eq!(s.len(), 1);
    check_segment(&s[0], (0.0, 1.0), (1.0, 0.5), (0, 0), Direction::Right);

    let s = marching_squares.cell_to_segments(&Point { x: 0, y: 0 }, 4);
    assert_eq!(s.len(), 1);
    check_segment(&s[0], (1.0, 1.0), (1.0, 1.0), (0, 0), Direction::Right);
}

#[test]
fn test_segments_for_threshold() {
    let img = Image::new(&PEAK, 8, 8);
    let marching_squares = MarchingSquares::new(&img);

    let segments = marching_squares.segments_for_threshold(7);

    for segment in &segments.segments {
        println!("{:?}", segment);
    }
    assert_eq!(segments.cells.len(), 8);
}

#[test]
fn test_next_segment() {
    let img = Image::new(&PEAK, 8, 8);
    let marching_squares = MarchingSquares::new(&img);
    let segments = marching_squares.segments_for_threshold(7);

    let steps = [
        ((2, 2), (3, 2)),
        ((3, 2), (4, 2)),
        ((4, 2), (4, 3)),
        ((4, 3), (4, 4)),
        ((4, 4), (3, 4)),
        ((3, 4), (2, 4)),
        ((2, 4), (2, 3)),
        ((2, 3), (2, 2)),
    ];
    for ((x, y), (nx, ny)) in steps {
        let segment = first_of(&segments, x, y);
        let expected: Result<usize, NextSegmentError> = Ok(first_of(&segments, nx, ny));
        assert_eq!(get_next_segment(&segments, segment), expected);
    }
}

#[test]
fn test_trace_path() {
    let img = Image::new(&PEAK, 8, 8);
    let marching_squares = MarchingSquares::new(&img);
    let segments = marching_squares.segments_for_threshold(7);
    let mut visited = vec![false; segments.segments.len()];

    let (path, _) = trace_path(&segments, &mut visited, first_of(&segments, 2, 2));
    // The loop closes on its seed fragment, whose start and end end the path.
    let mut expected = octagon();
    expected.push(Point { x: 2.5, y: 3.0 });
    expected.push(Point { x: 3.0, y: 2.5 });
    assert_eq!(points(&path), expected);
    assert!(path.circular);
    assert!(visited.iter().all(|v| *v));
}

#[test]
fn test_trace_segments() {
    let img = Image::new(&PEAK, 8, 8);
    let marching_squares = MarchingSquares::new(&img);

    let segments = marching_squares.segments_for_threshold(7);
    let paths = trace_segments(&segments);
    assert_eq!(paths.len(), 1);
    let path = points(&paths[0]);
    assert_eq!(path.len(), 11);

    for point in octagon() {
        assert!(path.contains(&point));
    }
}

#[test]
fn peak_yields_one_closed_loop() {
    let img = Image::new(&PEAK, 8, 8);
    let marching_squares = MarchingSquares::new(&img);
    let layer = marching_squares.isoline(7);
    assert_eq!(layer.threshold, 7);
    assert_eq!(layer.paths.len(), 1);
    let path = &layer.paths[0];
    assert!(path.circular);
    let p = points(path);
    assert_eq!(p.len(), 11);
    // The loop comes back to its first point, then repeats its seed fragment.
    for q in &octagon() {
        assert!(p.contains(q));
    }
    assert_eq!(p[p.len() - 2], p[0]);
    assert_eq!(p[p.len() - 1], p[1]);
    assert_eq!(p[p.len() - 3], p[0]);
}

#[test]
fn threshold_outside_range_yields_no_paths() {
    let img = Image::new(&PEAK, 8, 8);
    let marching_squares = MarchingSquares::new(&img);
    assert_eq!(marching_squares.isoline(9).paths.len(), 0);
    assert_eq!(marching_squares.isoline(i32::MAX).paths.len(), 0);
    assert_eq!(marching_squares.isoline(0).paths.len(), 0);
    assert_eq!(marching_squares.isoline(i32::MIN).paths.len(), 0);
}

#[test]
fn saddle_with_high_centre_joins_left_top_and_right_bottom() {
    let data = [4, 10, 10, 4];
    let img = Image::new(&data, 2, 2);
    let ms = MarchingSquares::new(&img);
    assert_eq!(ms.cell_state(&Point { x: 0, y: 0 }, 5), 0b0110);
    let s = ms.cell_to_segments(&Point { x: 0, y: 0 }, 5);
    assert_eq!(s.len(), 2);
    check_segment(&s[0], (0.0, 1.0 / 6.0), (1.0 / 6.0, 0.0), (0, 0), Direction::Up);
    check_segment(&s[1], (1.0, 5.0 / 6.0), (5.0 / 6.0, 1.0), (0, 0), Direction::Down);
}

#[test]
fn saddle_with_low_centre_joins_right_top_and_left_bottom() {
    let data = [4, 10, 10, 4];
    let img = Image::new(&data, 2, 2);
    let ms = MarchingSquares::new(&img);
    // The mean, 7, is below 8: the complementary pairs are joined.
    assert_eq!(ms.cell_state(&Point { x: 0, y: 0 }, 8), 0b0110);
    let s = ms.cell_to_segments(&Point { x: 0, y: 0 }, 8);
    assert_eq!(s.len(), 2);
    check_segment(&s[0], (1.0, 1.0 / 3.0), (2.0 / 3.0, 0.0), (0, 0), Direction::Up);
    check_segment(&s[1], (0.0, 2.0 / 3.0), (1.0 / 3.0, 1.0), (0, 0), Direction::Down);
    // At the mean itself the centre counts as low too.
    let s = ms.cell_to_segments(&Point { x: 0, y: 0 }, 7);
    check_segment(&s[0], (1.0, 0.5), (0.5, 0.0), (0, 0), Direction::Up);
}

#[test]
fn other_saddle_and_uniform_cells() {
    let data = [10, 4, 4, 10];
    let img = Image::new(&data, 2, 2);
    let ms = MarchingSquares::new(&img);
    assert_eq!(ms.cell_state(&Point { x: 0, y: 0 }, 5), 0b1001);
    let s = ms.cell_to_segments(&Point { x: 0, y: 0 }, 5);
    assert_eq!(s.len(), 2);
    assert_eq!(s[0].direction, Direction::Right);
    assert_eq!(s[1].direction, Direction::Left);
    assert_eq!(ms.cell_to_segments(&Point { x: 0, y: 0 }, 4).len(), 0);
    assert_eq!(ms.cell_to_segments(&Point { x: 0, y: 0 }, 11).len(), 0);
}

#[test]
fn crossing_at_a_corner_value_is_the_corner() {
    assert_eq!(dist_between_option_values(5, Some(5), Some(9)), (0, 1));
    assert_eq!(dist_between_option_values(9, Some(5), Some(9)), (1, 1));
    assert_eq!(dist_between_option_values(5, Some(5), Some(5)), (0, 1));
    assert_eq!(dist_between_option_values(5, Some(5), None), (0, 1));
    assert_eq!(dist_between_option_values(5, None, Some(5)), (1, 1));
    assert_eq!(dist_between_option_values(6, Some(5), Some(9)), (1, 4));
    assert_eq!(dist_between_option_values(6, Some(9), Some(5)), (3, 4));
}

#[test]
fn fragments_are_conserved() {
    let img = Image::new(&PEAK, 8, 8);
    let ms = MarchingSquares::new(&img);
    for t in 1..9 {
        let map = ms.segments_for_threshold(t);
        let paths = trace_segments(&map);
        let total: usize = paths.iter().map(|p| p.points.len()).sum();
        let closed = paths.iter().filter(|p| p.circular).count();
        assert!(total >= map.segments.len() + paths.len());
        assert!(total <= map.segments.len() + 3 * paths.len());
        assert!(total >= map.segments.len() + paths.len() + 2 * closed);
    }
    let map = ms.segments_for_threshold(7);
    let paths = trace_segments(&map);
    let total: usize = paths.iter().map(|p| p.points.len()).sum();
    assert_eq!(map.segments.len(), 8);
    assert_eq!(total, 8 + 1 + 2);
}

#[test]
fn open_paths_at_the_grid_edge() {
    // A ramp rising to the right: the contour runs top to bottom and leaves the grid.
    let data = [0, 10, 20, 0, 10, 20, 0, 10, 20];
    let img = Image::new(&data, 3, 3);
    let ms = MarchingSquares::new(&img);
    let layer = ms.isoline(5);
    // The upper cell is traced first and leaves the grid; the lower one then
    // runs into it and stops there, repeating the fragment it reached.
    assert_eq!(layer.paths.len(), 2);
    assert!(!layer.paths[0].circular);
    assert!(!layer.paths[1].circular);
    assert_eq!(points(&layer.paths[0]), vec![Point { x: 0.5, y: 1.0 }, Point { x: 0.5, y: 0.0 }]);
    assert_eq!(
        points(&layer.paths[1]),
        vec![
            Point { x: 0.5, y: 2.0 },
            Point { x: 0.5, y: 1.0 },
            Point { x: 0.5, y: 1.0 },
            Point { x: 0.5, y: 0.0 },
        ]
    );
}

#[test]
fn closed_path_ends_with_its_seed() {
    let img = Image::new(&PEAK, 8, 8);
    let ms = MarchingSquares::new(&img);
    for t in [5, 6, 7] {
        let map = ms.segments_for_threshold(t);
        let paths = trace_segments(&map);
        for path in paths.iter().filter(|p| p.circular) {
            let n = path.points.len();
            let p = points(path);
            assert_eq!(p[n - 2], p[0]);
            assert_eq!(p[n - 1], p[1]);
        }
    }
}

#[test]
fn extraction_is_repeatable() {
    let img = Image::new(&PEAK, 8, 8);
    let a = MarchingSquares::new(&img);
    let b = MarchingSquares::new(&img);
    for t in 0..10 {
        let pa: Vec<(Vec<Point<f32>>, bool)> =
            a.isoline(t).paths.iter().map(|p| (points(p), p.circular)).collect();
        let pb: Vec<(Vec<Point<f32>>, bool)> =
            b.isoline(t).paths.iter().map(|p| (points(p), p.circular)).collect();
        let again: Vec<(Vec<Point<f32>>, bool)> =
            a.isoline(t).paths.iter().map(|p| (points(p), p.circular)).collect();
        assert_eq!(pa, pb);
        assert_eq!(pa, again);
    }
}

#[test]
fn layers_follow_threshold_order() {
    let img = Image::new(&PEAK, 8, 8);
    let ms = MarchingSquares::new(&img);
    let layers = ms.isolines(&[7, 9, 3]);
    assert_eq!(layers.len(), 3);
    assert_eq!(layers[0].threshold, 7);
    assert_eq!(layers[1].threshold, 9);
    assert_eq!(layers[2].threshold, 3);
    assert_eq!(layers[0].paths.len(), 1);
    assert_eq!(layers[1].paths.len(), 0);
    assert!(ms.isolines(&[]).is_empty());
}

fn whole(v: u64) -> Fraction {
    Fraction { num: v, den: 1 }
}

#[test]
fn next_segment_errors() {
    let a = Segment {
        start: Point { x: whole(0), y: whole(0) },
        end: Point { x: whole(1), y: Fraction { num: 1, den: 2 } },
        cell_coord: Point { x: 0, y: 0 },
        direction: Direction::Right,
    };
    let b = Segment {
        start: Point { x: whole(1), y: Fraction { num: 1, den: 3 } },
        end: Point { x: whole(2), y: whole(0) },
        cell_coord: Point { x: 1, y: 0 },
        direction: Direction::Up,
    };
    let c = Segment {
        start: Point { x: whole(1), y: Fraction { num: 2, den: 4 } },
        end: Point { x: whole(2), y: whole(1) },
        cell_coord: Point { x: 1, y: 0 },
        direction: Direction::Down,
    };
    let mut cells = HashMap::new();
    cells.insert(0u64, (0usize, 1usize));
    cells.insert(1u64 << 32, (1usize, 1usize));
    let map = SegmentMap { segments: vec![a, b], cells: cells.clone() };
    assert_eq!(get_next_segment(&map, 0), Err(NextSegmentError::SegmentMismatch));
    assert_eq!(get_next_segment(&map, 1), Err(NextSegmentError::OffImage));

    cells.insert(1u64 << 32, (1usize, 2usize));
    let map = SegmentMap { segments: vec![a, b, c], cells };
    assert_eq!(get_next_segment(&map, 0), Ok(2));
    assert_eq!(get_next_segment(&map, 2), Err(NextSegmentError::OffImage));
}
