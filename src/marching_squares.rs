use crate::quad_tree::TreeNode;
use crate::util::{positions_equal, same_position, Fraction, Image, Point};
use std::collections::HashMap;
use vstd::prelude::*;

verus! {

/// A polyline along a contour; `circular` marks a path that closed on the
/// fragment it started from.
pub struct Path {
    pub points: Vec<Point<Fraction>>,
    pub circular: bool,
}

impl View for Path {
    type V = (Seq<Point<Fraction>>, bool);

    open spec fn view(&self) -> Self::V {
        (self.points@, self.circular)
    }
}

/// All the paths traced at one threshold.
pub struct IsolineLayer {
    pub threshold: i32,
    pub paths: Vec<Path>,
}

/// The neighbouring cell in which a fragment continues.
#[derive(Clone, Copy, Debug, PartialEq, Eq)]
pub enum Direction {
    Up,
    Down,
    Left,
    Right,
}

/// A side of a cell.
#[derive(Clone, Copy, Debug, PartialEq, Eq)]
pub enum Edge {
    Top,
    Bottom,
    Left,
    Right,
}

/// An oriented piece of contour inside one cell, from a crossing on one of
/// its edges to a crossing on another, with the higher samples on its right.
#[derive(Clone, Copy, Debug)]
pub struct Segment {
    pub start: Point<Fraction>,
    pub end: Point<Fraction>,
    pub cell_coord: Point<u32>,
    pub direction: Direction,
}

/// The four samples of a cell, `None` where a corner is off the grid.
#[derive(Clone, Copy, Debug)]
pub struct Corners {
    pub top_left: Option<i32>,
    pub top_right: Option<i32>,
    pub bottom_left: Option<i32>,
    pub bottom_right: Option<i32>,
}

/// The corners of the cell whose top-left sample is `c`.
pub open spec fn corners_of(img: Image, c: Point<u32>) -> Corners {
    let x = c.x as int;
    let y = c.y as int;
    Corners {
        top_left: img.value_at(x, y),
        top_right: img.value_at(x + 1, y),
        bottom_left: img.value_at(x, y + 1),
        bottom_right: img.value_at(x + 1, y + 1),
    }
}

/// A corner counts as above the threshold when its sample is present and at
/// least the threshold.
pub open spec fn is_above(v: Option<i32>, t: int) -> bool {
    match v {
        Some(s) => s >= t,
        None => false,
    }
}

pub open spec fn bit(b: bool) -> int {
    if b {
        1
    } else {
        0
    }
}

/// The four-bit classification code `top-left top-right bottom-left bottom-right`.
pub open spec fn spec_cell_state(k: Corners, t: int) -> u8 {
    (8 * bit(is_above(k.top_left, t)) + 4 * bit(is_above(k.top_right, t)) + 2 * bit(
        is_above(k.bottom_left, t),
    ) + bit(is_above(k.bottom_right, t))) as u8
}

pub open spec fn value_or_zero(v: Option<i32>) -> int {
    match v {
        Some(s) => s as int,
        None => 0,
    }
}

pub open spec fn count_present(v: Option<i32>) -> int {
    if v is Some {
        1
    } else {
        0
    }
}

/// The mean of the present corner samples lies strictly above `t`.
pub open spec fn mean_above(k: Corners, t: int) -> bool {
    let sum = value_or_zero(k.top_left) + value_or_zero(k.top_right) + value_or_zero(
        k.bottom_left,
    ) + value_or_zero(k.bottom_right);
    let n = count_present(k.top_left) + count_present(k.top_right) + count_present(
        k.bottom_left,
    ) + count_present(k.bottom_right);
    sum > t * n
}

/// The edges joined by the fragments of a cell with code `state`, each pair
/// from the start edge to the end edge. The saddle codes are resolved by
/// `high_centre`, whether the mean of the corners lies above the threshold.
pub open spec fn segment_edges(state: u8, high_centre: bool) -> Seq<(Edge, Edge)> {
    match state {
        0b1110u8 => seq![(Edge::Right, Edge::Bottom)],
        0b0001u8 => seq![(Edge::Bottom, Edge::Right)],
        0b0010u8 => seq![(Edge::Left, Edge::Bottom)],
        0b1101u8 => seq![(Edge::Bottom, Edge::Left)],
        0b0011u8 => seq![(Edge::Left, Edge::Right)],
        0b1100u8 => seq![(Edge::Right, Edge::Left)],
        0b0100u8 => seq![(Edge::Right, Edge::Top)],
        0b1011u8 => seq![(Edge::Top, Edge::Right)],
        0b0101u8 => seq![(Edge::Bottom, Edge::Top)],
        0b1010u8 => seq![(Edge::Top, Edge::Bottom)],
        0b0111u8 => seq![(Edge::Left, Edge::Top)],
        0b1000u8 => seq![(Edge::Top, Edge::Left)],
        0b0110u8 => if high_centre {
            seq![(Edge::Left, Edge::Top), (Edge::Right, Edge::Bottom)]
        } else {
            seq![(Edge::Right, Edge::Top), (Edge::Left, Edge::Bottom)]
        },
        0b1001u8 => if high_centre {
            seq![(Edge::Top, Edge::Right), (Edge::Bottom, Edge::Left)]
        } else {
            seq![(Edge::Bottom, Edge::Right), (Edge::Top, Edge::Left)]
        },
        _ => seq![],
    }
}

/// The direction of the neighbour across `e`.
pub open spec fn direction_of(e: Edge) -> Direction {
    match e {
        Edge::Top => Direction::Up,
        Edge::Bottom => Direction::Down,
        Edge::Left => Direction::Left,
        Edge::Right => Direction::Right,
    }
}

/// The threshold lies between the two samples of an edge, where both are present.
pub open spec fn brackets(t: int, a: Option<i32>, b: Option<i32>) -> bool {
    match (a, b) {
        (Some(va), Some(vb)) => (va <= t <= vb) || (vb <= t <= va),
        _ => true,
    }
}

/// How far along from `va` to `vb` the value `t` lies, as `(p, q)` for `p / q`;
/// `t` equal to an endpoint gives exactly that endpoint.
pub open spec fn value_fraction(t: int, va: int, vb: int) -> (int, int) {
    if t == va {
        (0, 1)
    } else if t == vb {
        (1, 1)
    } else if vb > va {
        (t - va, vb - va)
    } else {
        (va - t, va - vb)
    }
}

/// Where along an edge from corner `a` to corner `b` the contour crosses:
/// at `b` when `a` is off the grid, at `a` when `b` is.
pub open spec fn edge_fraction(t: int, a: Option<i32>, b: Option<i32>) -> (int, int) {
    match (a, b) {
        (None, _) => (1, 1),
        (Some(_), None) => (0, 1),
        (Some(va), Some(vb)) => value_fraction(t, va as int, vb as int),
    }
}

/// The coordinate `left + (right - left) * p / q`.
pub open spec fn spec_interpolate(p: int, q: int, left: int, right: int) -> Fraction {
    Fraction { num: (left * q + (right - left) * p) as u64, den: q as u64 }
}

pub open spec fn whole(v: int) -> Fraction {
    Fraction { num: v as u64, den: 1 }
}

/// The corners at the two ends of edge `e`, in the order it is interpolated.
pub open spec fn edge_ends(k: Corners, e: Edge) -> (Option<i32>, Option<i32>) {
    match e {
        Edge::Top => (k.top_left, k.top_right),
        Edge::Bottom => (k.bottom_left, k.bottom_right),
        Edge::Left => (k.bottom_left, k.top_left),
        Edge::Right => (k.top_right, k.bottom_right),
    }
}

/// Where the contour at `t` crosses edge `e` of the cell at `c`.
pub open spec fn crossing(k: Corners, c: Point<u32>, t: int, e: Edge) -> Point<Fraction> {
    let x = c.x as int;
    let y = c.y as int;
    let f = edge_fraction(t, edge_ends(k, e).0, edge_ends(k, e).1);
    match e {
        Edge::Top => Point { x: spec_interpolate(f.0, f.1, x, x + 1), y: whole(y) },
        Edge::Bottom => Point { x: spec_interpolate(f.0, f.1, x, x + 1), y: whole(y + 1) },
        Edge::Left => Point { x: whole(x), y: spec_interpolate(f.0, f.1, y + 1, y) },
        Edge::Right => Point { x: whole(x + 1), y: spec_interpolate(f.0, f.1, y, y + 1) },
    }
}

/// The fragment of the cell at `c` joining edge `from` to edge `to`.
pub open spec fn spec_segment(k: Corners, c: Point<u32>, t: int, from: Edge, to: Edge) -> Segment {
    Segment {
        start: crossing(k, c, t, from),
        end: crossing(k, c, t, to),
        cell_coord: c,
        direction: direction_of(to),
    }
}

/// The fragments of the cell at `c` for threshold `t`, in order.
pub open spec fn spec_fragments(img: Image, c: Point<u32>, t: int) -> Seq<Segment> {
    let k = corners_of(img, c);
    segment_edges(spec_cell_state(k, t), mean_above(k, t)).map_values(
        |p: (Edge, Edge)| spec_segment(k, c, t, p.0, p.1),
    )
}

/// The positions of the corners at the two ends of edge `e` of the cell at
/// `c`, in the order it is interpolated.
pub open spec fn edge_corners(c: Point<u32>, e: Edge) -> (Point<Fraction>, Point<Fraction>) {
    let x = c.x as int;
    let y = c.y as int;
    match e {
        Edge::Top => (Point { x: whole(x), y: whole(y) }, Point { x: whole(x + 1), y: whole(y) }),
        Edge::Bottom => (
            Point { x: whole(x), y: whole(y + 1) },
            Point { x: whole(x + 1), y: whole(y + 1) },
        ),
        Edge::Left => (Point { x: whole(x), y: whole(y + 1) }, Point { x: whole(x), y: whole(y) }),
        Edge::Right => (
            Point { x: whole(x + 1), y: whole(y) },
            Point { x: whole(x + 1), y: whole(y + 1) },
        ),
    }
}

/// Interpolation boundary: where the threshold equals the sample of a
/// present corner of an edge, the crossing is exactly at that corner; where
/// one corner of the edge is off the grid, it is exactly at the other.
pub proof fn lemma_crossing_at_corner(k: Corners, c: Point<u32>, t: int, e: Edge)
    requires
        c.x < u32::MAX,
        c.y < u32::MAX,
    ensures
        ({
            let (a, b) = edge_ends(k, e);
            let p = crossing(k, c, t, e);
            &&& (a is Some && a.unwrap() == t) ==> p == edge_corners(c, e).0
            &&& (b is Some && b.unwrap() == t && a is Some && a.unwrap() != t) ==> p
                == edge_corners(c, e).1
            &&& a is None ==> p == edge_corners(c, e).1
            &&& a is Some && b is None ==> p == edge_corners(c, e).0
        }),
{
    let (a, b) = edge_ends(k, e);
    let f = edge_fraction(t, a, b);
    assert forall|l: int, r: int| spec_interpolate(0, 1, l, r) == whole(l) && spec_interpolate(
        1,
        1,
        l,
        r,
    ) == whole(r) by {
        assert(l * 1 + (r - l) * 0 == l) by (nonlinear_arith);
        assert(l * 1 + (r - l) * 1 == r) by (nonlinear_arith);
    }
}

fn corner_bit(v: Option<i32>, threshold: i32) -> (r: u8)
    ensures
        r == bit(is_above(v, threshold as int)),
{
    match v {
        Some(s) => if s >= threshold {
            1
        } else {
            0
        },
        None => 0,
    }
}

/// How far along from `start` to `end` the value `value` lies.
pub fn dist_between_values(value: i32, start: i32, end: i32) -> (r: (u64, u64))
    requires
        (start <= value <= end) || (end <= value <= start),
    ensures
        r.0 == value_fraction(value as int, start as int, end as int).0,
        r.1 == value_fraction(value as int, start as int, end as int).1,
        0 <= r.0 <= r.1,
        0 < r.1 <= u32::MAX,
        value == start ==> r == (0u64, 1u64),
        value == end && value != start ==> r == (1u64, 1u64),
{
    if value == start {
        return (0, 1);
    }
    if value == end {
        return (1, 1);
    }
    if end > start {
        (((value as i64) - (start as i64)) as u64, ((end as i64) - (start as i64)) as u64)
    } else {
        (((start as i64) - (value as i64)) as u64, ((start as i64) - (end as i64)) as u64)
    }
}

/// Where along an edge from corner `start` to corner `end` the value `value`
/// lies; a corner off the grid puts the crossing at the other corner.
pub fn dist_between_option_values(value: i32, start: Option<i32>, end: Option<i32>) -> (r: (
    u64,
    u64,
))
    requires
        brackets(value as int, start, end),
    ensures
        r.0 == edge_fraction(value as int, start, end).0,
        r.1 == edge_fraction(value as int, start, end).1,
        0 <= r.0 <= r.1,
        0 < r.1 <= u32::MAX,
        start is None ==> r == (1u64, 1u64),
        start is Some && end is None ==> r == (0u64, 1u64),
        start == Some(value) ==> r == (0u64, 1u64),
        end == Some(value) && start is Some && start != Some(value) ==> r == (1u64, 1u64),
{
    match (start, end) {
        (None, _) => (1, 1),
        (Some(_), None) => (0, 1),
        (Some(a), Some(b)) => dist_between_values(value, a, b),
    }
}

/// The coordinate `left + (right - left) * p / q`, for neighbouring `left`
/// and `right`.
pub fn interpolate(frac: (u64, u64), left: u32, right: u32) -> (r: Fraction)
    requires
        frac.0 <= frac.1,
        0 < frac.1 <= u32::MAX,
        right == left + 1 || left == right + 1,
    ensures
        r == spec_interpolate(frac.0 as int, frac.1 as int, left as int, right as int),
        r.wf(),
{
    let (p, q) = frac;
    proof {
        assert((left as int) * (q as int) <= (u32::MAX as int) * (u32::MAX as int))
            by (nonlinear_arith)
            requires
                left <= u32::MAX,
                q <= u32::MAX,
        ;
    }
    if right > left {
        proof {
            assert((right as int - left as int) * (p as int) == p) by (nonlinear_arith)
                requires
                    right == left + 1,
            ;
        }
        Fraction { num: left as u64 * q + p, den: q }
    } else {
        proof {
            assert((left as int) * (q as int) >= q) by (nonlinear_arith)
                requires
                    left >= 1,
                    q >= 0,
            ;
            assert((right as int - left as int) * (p as int) == -p) by (nonlinear_arith)
                requires
                    left == right + 1,
            ;
        }
        Fraction { num: left as u64 * q - p, den: q }
    }
}

fn direction_to(e: Edge) -> (r: Direction)
    ensures
        r == direction_of(e),
{
    match e {
        Edge::Top => Direction::Up,
        Edge::Bottom => Direction::Down,
        Edge::Left => Direction::Left,
        Edge::Right => Direction::Right,
    }
}

/// Where the contour at `threshold` crosses edge `e` of the cell at `cell`.
fn edge_point(k: &Corners, cell: &Point<u32>, threshold: i32, e: Edge) -> (r: Point<Fraction>)
    requires
        cell.x < u32::MAX,
        cell.y < u32::MAX,
        brackets(threshold as int, edge_ends(*k, e).0, edge_ends(*k, e).1),
    ensures
        r == crossing(*k, *cell, threshold as int, e),
{
    let x = cell.x;
    let y = cell.y;
    match e {
        Edge::Top => {
            let f = dist_between_option_values(threshold, k.top_left, k.top_right);
            Point { x: interpolate(f, x, x + 1), y: Fraction { num: y as u64, den: 1 } }
        },
        Edge::Bottom => {
            let f = dist_between_option_values(threshold, k.bottom_left, k.bottom_right);
            Point { x: interpolate(f, x, x + 1), y: Fraction { num: (y + 1) as u64, den: 1 } }
        },
        Edge::Left => {
            let f = dist_between_option_values(threshold, k.bottom_left, k.top_left);
            Point { x: Fraction { num: x as u64, den: 1 }, y: interpolate(f, y + 1, y) }
        },
        Edge::Right => {
            let f = dist_between_option_values(threshold, k.top_right, k.bottom_right);
            Point { x: Fraction { num: (x + 1) as u64, den: 1 }, y: interpolate(f, y, y + 1) }
        },
    }
}

/// The fragment of the cell at `cell` from edge `from` to edge `to`.
fn make_segment(k: &Corners, cell: &Point<u32>, threshold: i32, from: Edge, to: Edge) -> (r:
    Segment)
    requires
        cell.x < u32::MAX,
        cell.y < u32::MAX,
        brackets(threshold as int, edge_ends(*k, from).0, edge_ends(*k, from).1),
        brackets(threshold as int, edge_ends(*k, to).0, edge_ends(*k, to).1),
    ensures
        r == spec_segment(*k, *cell, threshold as int, from, to),
{
    Segment {
        start: edge_point(k, cell, threshold, from),
        end: edge_point(k, cell, threshold, to),
        cell_coord: *cell,
        direction: direction_to(to),
    }
}

fn sample_or_zero(v: Option<i32>) -> (r: i64)
    ensures
        r == value_or_zero(v),
{
    match v {
        Some(s) => s as i64,
        None => 0,
    }
}

fn present(v: Option<i32>) -> (r: i64)
    ensures
        r == count_present(v),
{
    match v {
        Some(_) => 1,
        None => 0,
    }
}

/// Whether the mean of the present corners lies strictly above `threshold`.
fn centre_above(k: &Corners, threshold: i32) -> (r: bool)
    ensures
        r == mean_above(*k, threshold as int),
{
    let sum = sample_or_zero(k.top_left) + sample_or_zero(k.top_right) + sample_or_zero(
        k.bottom_left,
    ) + sample_or_zero(k.bottom_right);
    let n = present(k.top_left) + present(k.top_right) + present(k.bottom_left) + present(
        k.bottom_right,
    );
    proof {
        assert(-4 * 0x8000_0000 <= threshold * n <= 4 * 0x8000_0000) by (nonlinear_arith)
            requires
                0 <= n <= 4,
                -0x8000_0000 <= threshold < 0x8000_0000,
        ;
    }
    sum > threshold as i64 * n
}

/// The extraction of contours from one grid, with the grid's index.
pub struct MarchingSquares<'a> {
    pub img: &'a Image,
    pub quad_tree: TreeNode,
}

impl<'a> MarchingSquares<'a> {
    /// The index is well formed over the grid and covers all of it.
    pub open spec fn wf(self) -> bool {
        &&& self.img.wf()
        &&& self.quad_tree.wf(*self.img)
        &&& self.quad_tree.origin == (Point::<u32> { x: 0, y: 0 })
        &&& self.quad_tree.width == self.img.width
        &&& self.quad_tree.height == self.img.height
    }

    /// Indexes `img` for extraction.
    pub fn new(img: &'a Image) -> (r: MarchingSquares<'a>)
        requires
            img.wf(),
        ensures
            r.wf(),
            r.img == img,
    {
        let quad_tree = TreeNode::create(img);
        MarchingSquares { img, quad_tree }
    }

    /// The four samples of the cell at `cell`.
    pub fn corners(&self, cell: &Point<u32>) -> (r: Corners)
        requires
            self.img.wf(),
            cell.x < u32::MAX,
            cell.y < u32::MAX,
        ensures
            r == corners_of(*self.img, *cell),
    {
        Corners {
            top_left: self.img.get_val(cell),
            top_right: self.img.get_val(&Point { x: cell.x + 1, y: cell.y }),
            bottom_left: self.img.get_val(&Point { x: cell.x, y: cell.y + 1 }),
            bottom_right: self.img.get_val(&Point { x: cell.x + 1, y: cell.y + 1 }),
        }
    }

    /// The four-bit code of the cell at `cell`, one bit per corner in the
    /// order top-left, top-right, bottom-left, bottom-right, set when the
    /// corner is present and at least `threshold`.
    pub fn cell_state(&self, cell: &Point<u32>, threshold: i32) -> (r: u8)
        requires
            self.img.wf(),
            cell.x < u32::MAX,
            cell.y < u32::MAX,
        ensures
            r == spec_cell_state(corners_of(*self.img, *cell), threshold as int),
            r < 16,
    {
        let k = self.corners(cell);
        let mut state: u8 = 0;
        state = state * 2 + corner_bit(k.top_left, threshold);
        state = state * 2 + corner_bit(k.top_right, threshold);
        state = state * 2 + corner_bit(k.bottom_left, threshold);
        state = state * 2 + corner_bit(k.bottom_right, threshold);
        state
    }

    /// The fragments at `threshold` of every cell that the index reports,
    /// grouped by cell.
    pub fn segments_for_threshold(&self, threshold: i32) -> (r: SegmentMap)
        requires
            self.wf(),
        ensures
            r.wf(),
            r.segments@ == collect_fragments(
                *self.img,
                self.quad_tree.spec_above(threshold as int),
                threshold as int,
            ),
    {
        broadcast use vstd::std_specs::hash::group_hash_axioms;

        let ghost img = *self.img;
        let ghost t = threshold as int;
        let cells = self.quad_tree.above_threshold(threshold);
        proof {
            crate::quad_tree::lemma_above_exact(self.quad_tree, img, t);
        }
        let mut segments: Vec<Segment> = Vec::new();
        let mut map: HashMap<u64, (usize, usize)> = HashMap::new();
        let mut idx: usize = 0;
        while idx < cells.len()
            invariant
                self.wf(),
                img == *self.img,
                t == threshold as int,
                cells@ == self.quad_tree.spec_above(t),
                cells@.no_duplicates(),
                forall|c: Point<u32>| #[trigger]
                    cells@.contains(c) ==> self.quad_tree.covers(c),
                0 <= idx <= cells.len(),
                segments@ == collect_fragments(img, cells@.subrange(0, idx as int), t),
                (SegmentMap { segments, cells: map }).wf(),
            decreases cells.len() - idx,
        {
            let cell = cells[idx];
            proof {
                assert(cells@.contains(cells@[idx as int]));
                assert(cell.x < u32::MAX && cell.y < u32::MAX);
            }
            let mut frags = self.cell_to_segments(&cell, threshold);
            let ghost before = segments@;
            let ghost old_map = map@;
            let ghost sm0 = SegmentMap { segments, cells: map };
            assert(sm0.wf() && sm0.segments@ == before && sm0.cells@ == old_map);
            proof {
                let front = cells@.subrange(0, idx as int);
                let next = cells@.subrange(0, idx + 1);
                assert(next.drop_last() =~= front);
                assert(next.last() == cell);
                lemma_fragments_of_cell(img, cell, t);
                lemma_collected_cells(img, front, t);
            }
            if frags.len() > 0 {
                let start = segments.len();
                let count = frags.len();
                let key = key_of(&cell);
                proof {
                    if old_map.contains_key(key) {
                        let (s0, n0) = old_map[key];
                        assert(s0 <= s0 < s0 + n0);
                        assert(cell_key(before[s0 as int].cell_coord) == key);
                        lemma_key_injective(before[s0 as int].cell_coord, cell);
                        let front = cells@.subrange(0, idx as int);
                        assert(front.contains(before[s0 as int].cell_coord));
                        let j = choose|j: int| 0 <= j < front.len() && front[j] == cell;
                        assert(cells@[j] == cells@[idx as int]);
                    }
                }
                let ghost new_frags = frags@;
                segments.append(&mut frags);
                map.insert(key, (start, count));
                proof {
                    let sm = SegmentMap { segments, cells: map };
                    assert forall|k: u64| #[trigger] map@.contains_key(k) implies {
                        let (s, n) = map@[k];
                        &&& 1 <= n <= 2
                        &&& s + n <= segments@.len()
                        &&& forall|i: int|
                            s <= i < s + n ==> cell_key(#[trigger] segments@[i].cell_coord) == k
                    } by {
                        if k != key {
                            assert(old_map.contains_key(k));
                            let (s, n) = map@[k];
                            assert forall|i: int| s <= i < s + n implies cell_key(
                                #[trigger] segments@[i].cell_coord,
                            ) == k by {
                                assert(segments@[i] == before[i]);
                            }
                        } else {
                            assert forall|i: int| start <= i < start + count implies cell_key(
                                #[trigger] segments@[i].cell_coord,
                            ) == k by {
                                assert(segments@[i] == new_frags[i - start]);
                            }
                        }
                    }
                    assert forall|i: int| 0 <= i < segments@.len() implies {
                        let k = cell_key(#[trigger] segments@[i].cell_coord);
                        &&& map@.contains_key(k)
                        &&& map@[k].0 <= i < map@[k].0 + map@[k].1
                    } by {
                        if i < start {
                            assert(segments@[i] == before[i]);
                            let k = cell_key(before[i].cell_coord);
                            assert(old_map.contains_key(k));
                            if k == key {
                                lemma_key_injective(before[i].cell_coord, cell);
                                let front = cells@.subrange(0, idx as int);
                                assert(front.contains(cell));
                                let j = choose|j: int| 0 <= j < front.len() && front[j] == cell;
                                assert(cells@[j] == cells@[idx as int]);
                            }
                        } else {
                            assert(segments@[i] == new_frags[i - start]);
                        }
                    }
                }
            }
            proof {
                let next = cells@.subrange(0, idx + 1);
                assert(segments@ =~= collect_fragments(img, next, t));
            }
            idx = idx + 1;
        }
        proof {
            assert(cells@.subrange(0, cells@.len() as int) =~= cells@);
        }
        SegmentMap { segments, cells: map }
    }

    /// The fragments of the cell at `cell` for `threshold`: none for a cell
    /// wholly below or above, one for a cell with one, three or two adjacent
    /// corners above, and two for a saddle.
    pub fn cell_to_segments(&self, cell: &Point<u32>, threshold: i32) -> (r: Vec<Segment>)
        requires
            self.img.wf(),
            cell.x < u32::MAX,
            cell.y < u32::MAX,
        ensures
            r@ == spec_fragments(*self.img, *cell, threshold as int),
    {
        let k = self.corners(cell);
        let state = self.cell_state(cell, threshold);
        let t = threshold;
        let c = cell;
        let r = match state {
            0b1110u8 => vec![make_segment(&k, c, t, Edge::Right, Edge::Bottom)],
            0b0001u8 => vec![make_segment(&k, c, t, Edge::Bottom, Edge::Right)],
            0b0010u8 => vec![make_segment(&k, c, t, Edge::Left, Edge::Bottom)],
            0b1101u8 => vec![make_segment(&k, c, t, Edge::Bottom, Edge::Left)],
            0b0011u8 => vec![make_segment(&k, c, t, Edge::Left, Edge::Right)],
            0b1100u8 => vec![make_segment(&k, c, t, Edge::Right, Edge::Left)],
            0b0100u8 => vec![make_segment(&k, c, t, Edge::Right, Edge::Top)],
            0b1011u8 => vec![make_segment(&k, c, t, Edge::Top, Edge::Right)],
            0b0101u8 => vec![make_segment(&k, c, t, Edge::Bottom, Edge::Top)],
            0b1010u8 => vec![make_segment(&k, c, t, Edge::Top, Edge::Bottom)],
            0b0111u8 => vec![make_segment(&k, c, t, Edge::Left, Edge::Top)],
            0b1000u8 => vec![make_segment(&k, c, t, Edge::Top, Edge::Left)],
            0b0110u8 => {
                if centre_above(&k, t) {
                    vec![
                        make_segment(&k, c, t, Edge::Left, Edge::Top),
                        make_segment(&k, c, t, Edge::Right, Edge::Bottom),
                    ]
                } else {
                    vec![
                        make_segment(&k, c, t, Edge::Right, Edge::Top),
                        make_segment(&k, c, t, Edge::Left, Edge::Bottom),
                    ]
                }
            },
            0b1001u8 => {
                if centre_above(&k, t) {
                    vec![
                        make_segment(&k, c, t, Edge::Top, Edge::Right),
                        make_segment(&k, c, t, Edge::Bottom, Edge::Left),
                    ]
                } else {
                    vec![
                        make_segment(&k, c, t, Edge::Bottom, Edge::Right),
                        make_segment(&k, c, t, Edge::Top, Edge::Left),
                    ]
                }
            },
            _ => Vec::new(),
        };
        proof {
            assert(r@ =~= spec_fragments(*self.img, *cell, threshold as int));
        }
        r
    }
}

/// The key under which a [`SegmentMap`] files the cell at `c`.
pub open spec fn cell_key(c: Point<u32>) -> u64 {
    (c.x as int * 0x1_0000_0000 + c.y as int) as u64
}

fn key_of(c: &Point<u32>) -> (r: u64)
    ensures
        r == cell_key(*c),
{
    (c.x as u64) * 0x1_0000_0000 + (c.y as u64)
}

proof fn lemma_key_injective(a: Point<u32>, b: Point<u32>)
    ensures
        cell_key(a) == cell_key(b) ==> a == b,
{
}

/// The fragments at one threshold, grouped by cell: `segments` lists them
/// cell by cell, and `cells` gives, for each cell that has fragments, where
/// its run starts in `segments` and how long it is.
pub struct SegmentMap {
    pub segments: Vec<Segment>,
    pub cells: HashMap<u64, (usize, usize)>,
}

impl SegmentMap {
    /// Each cell's run holds one or two fragments, all of that cell, and
    /// every fragment lies in the run of its cell.
    pub open spec fn wf(self) -> bool {
        &&& forall|k: u64| #[trigger]
            self.cells@.contains_key(k) ==> {
                let (s, n) = self.cells@[k];
                &&& 1 <= n <= 2
                &&& s + n <= self.segments@.len()
                &&& forall|i: int|
                    s <= i < s + n ==> cell_key(#[trigger] self.segments@[i].cell_coord) == k
            }
        &&& forall|i: int|
            0 <= i < self.segments@.len() ==> {
                let k = cell_key(#[trigger] self.segments@[i].cell_coord);
                &&& self.cells@.contains_key(k)
                &&& self.cells@[k].0 <= i < self.cells@[k].0 + self.cells@[k].1
            }
    }
}

/// The fragments of the cells `cells` for threshold `t`, cell by cell.
pub open spec fn collect_fragments(img: Image, cells: Seq<Point<u32>>, t: int) -> Seq<Segment>
    decreases cells.len(),
{
    if cells.len() == 0 {
        seq![]
    } else {
        collect_fragments(img, cells.drop_last(), t) + spec_fragments(img, cells.last(), t)
    }
}

/// A cell has at most two fragments, all of that cell.
proof fn lemma_fragments_of_cell(img: Image, c: Point<u32>, t: int)
    ensures
        spec_fragments(img, c, t).len() <= 2,
        forall|i: int|
            0 <= i < spec_fragments(img, c, t).len() ==> (#[trigger] spec_fragments(
                img,
                c,
                t,
            )[i]).cell_coord == c,
{
    let k = corners_of(img, c);
    assert(segment_edges(spec_cell_state(k, t), mean_above(k, t)).len() <= 2);
}

/// Every fragment collected from `cells` belongs to one of them.
proof fn lemma_collected_cells(img: Image, cells: Seq<Point<u32>>, t: int)
    ensures
        forall|i: int|
            0 <= i < collect_fragments(img, cells, t).len() ==> cells.contains(
                (#[trigger] collect_fragments(img, cells, t)[i]).cell_coord,
            ),
    decreases cells.len(),
{
    if cells.len() > 0 {
        let front = cells.drop_last();
        lemma_collected_cells(img, front, t);
        lemma_fragments_of_cell(img, cells.last(), t);
        let a = collect_fragments(img, front, t);
        let b = spec_fragments(img, cells.last(), t);
        assert forall|i: int| 0 <= i < (a + b).len() implies cells.contains(
            (#[trigger] (a + b)[i]).cell_coord,
        ) by {
            if i < a.len() {
                let j = choose|j: int| 0 <= j < front.len() && front[j] == a[i].cell_coord;
                assert(cells[j] == front[j]);
            } else {
                assert(b[i - a.len()].cell_coord == cells.last());
                assert(cells[cells.len() - 1] == cells.last());
            }
        }
    }
}

impl SegmentMap {
    /// Where the fragments of the cell at `cell` lie in `segments`: the start
    /// and length of their run, or `None` when the cell has none.
    pub fn fragments_of(&self, cell: &Point<u32>) -> (r: Option<(usize, usize)>)
        ensures
            r == (if self.cells@.contains_key(cell_key(*cell)) {
                Some(self.cells@[cell_key(*cell)])
            } else {
                None::<(usize, usize)>
            }),
    {
        broadcast use vstd::std_specs::hash::group_hash_axioms;

        match self.cells.get(&key_of(cell)) {
            Some(run) => Some(*run),
            None => None,
        }
    }
}

/// Why a fragment has no successor.
#[derive(Clone, Copy, Debug, PartialEq, Eq)]
pub enum NextSegmentError {
    /// The neighbouring cell has fragments, but none starts where this one ends.
    SegmentMismatch,
    /// The neighbouring cell is off the grid or has no fragments.
    OffImage,
}

/// The cell next to `c` in direction `d`, if its coordinates exist.
pub open spec fn neighbour(c: Point<u32>, d: Direction) -> Option<Point<u32>> {
    match d {
        Direction::Up => if c.y == 0 {
            None
        } else {
            Some(Point { x: c.x, y: (c.y - 1) as u32 })
        },
        Direction::Down => if c.y == u32::MAX {
            None
        } else {
            Some(Point { x: c.x, y: (c.y + 1) as u32 })
        },
        Direction::Left => if c.x == 0 {
            None
        } else {
            Some(Point { x: (c.x - 1) as u32, y: c.y })
        },
        Direction::Right => if c.x == u32::MAX {
            None
        } else {
            Some(Point { x: (c.x + 1) as u32, y: c.y })
        },
    }
}

fn neighbour_cell(c: &Point<u32>, d: Direction) -> (r: Option<Point<u32>>)
    ensures
        r == neighbour(*c, d),
{
    match d {
        Direction::Up => if c.y == 0 {
            None
        } else {
            Some(Point { x: c.x, y: c.y - 1 })
        },
        Direction::Down => if c.y == u32::MAX {
            None
        } else {
            Some(Point { x: c.x, y: c.y + 1 })
        },
        Direction::Left => if c.x == 0 {
            None
        } else {
            Some(Point { x: c.x - 1, y: c.y })
        },
        Direction::Right => if c.x == u32::MAX {
            None
        } else {
            Some(Point { x: c.x + 1, y: c.y })
        },
    }
}

/// The first fragment, from position `from` on, of cell `cell` that starts at `pt`.
pub open spec fn first_match(segs: Seq<Segment>, cell: Point<u32>, pt: Point<Fraction>, from: int) -> Option<int>
    decreases segs.len() - from,
{
    if from < 0 || from >= segs.len() {
        None
    } else if segs[from].cell_coord == cell && same_position(segs[from].start, pt) {
        Some(from)
    } else {
        first_match(segs, cell, pt, from + 1)
    }
}

/// Some fragment belongs to cell `cell`.
pub open spec fn has_cell(segs: Seq<Segment>, cell: Point<u32>) -> bool {
    exists|j: int| 0 <= j < segs.len() && (#[trigger] segs[j]).cell_coord == cell
}

/// The fragment that continues fragment `i`: the first fragment of the
/// neighbouring cell in its exit direction that starts where `i` ends.
pub open spec fn successor(segs: Seq<Segment>, i: int) -> Option<int> {
    match neighbour(segs[i].cell_coord, segs[i].direction) {
        None => None,
        Some(nc) => first_match(segs, nc, segs[i].end, 0),
    }
}

proof fn lemma_first_match_skip(
    segs: Seq<Segment>,
    cell: Point<u32>,
    pt: Point<Fraction>,
    a: int,
    b: int,
)
    requires
        0 <= a <= b <= segs.len(),
        forall|j: int| a <= j < b ==> (#[trigger] segs[j]).cell_coord != cell,
    ensures
        first_match(segs, cell, pt, a) == first_match(segs, cell, pt, b),
    decreases b - a,
{
    if a < b {
        lemma_first_match_skip(segs, cell, pt, a + 1, b);
    }
}

/// The successor of fragment `i` in `map`, or why there is none.
pub fn get_next_segment(map: &SegmentMap, i: usize) -> (r: Result<usize, NextSegmentError>)
    requires
        map.wf(),
        i < map.segments@.len(),
    ensures
        match r {
            Ok(j) => successor(map.segments@, i as int) == Some(j as int) && j < map.segments@.len(),
            Err(e) => {
                &&& successor(map.segments@, i as int) is None
                &&& (e == NextSegmentError::OffImage) <==> (match neighbour(
                    map.segments@[i as int].cell_coord,
                    map.segments@[i as int].direction,
                ) {
                    None => true,
                    Some(nc) => !has_cell(map.segments@, nc),
                })
            },
        },
{
    let ghost segs = map.segments@;
    let seg = &map.segments[i];
    let next = neighbour_cell(&seg.cell_coord, seg.direction);
    match next {
        None => Err(NextSegmentError::OffImage),
        Some(nc) => {
            let key = key_of(&nc);
            match map.fragments_of(&nc) {
                None => {
                    proof {
                        assert forall|j: int| 0 <= j < segs.len() implies (
                        #[trigger] segs[j]).cell_coord != nc by {
                            if segs[j].cell_coord == nc {
                                assert(map.cells@.contains_key(cell_key(segs[j].cell_coord)));
                            }
                        }
                        lemma_first_match_skip(segs, nc, seg.end, 0, segs.len() as int);
                    }
                    Err(NextSegmentError::OffImage)
                },
                Some(run) => {
                    let (s, n) = run;
                    let total = map.segments.len();
                    proof {
                        assert(map.cells@.contains_key(key));
                        assert(map.cells@[key] == (s, n));
                        assert(s + n <= total);
                        assert forall|j: int| 0 <= j < s implies (#[trigger] segs[j]).cell_coord
                            != nc by {
                            if segs[j].cell_coord == nc {
                                assert(map.cells@.contains_key(cell_key(segs[j].cell_coord)));
                            }
                        }
                        lemma_first_match_skip(segs, nc, seg.end, 0, s as int);
                        assert forall|j: int| s + n <= j < segs.len() implies (
                        #[trigger] segs[j]).cell_coord != nc by {
                            if segs[j].cell_coord == nc {
                                assert(map.cells@.contains_key(cell_key(segs[j].cell_coord)));
                            }
                        }
                        lemma_first_match_skip(segs, nc, seg.end, (s + n) as int, segs.len() as int);
                        assert(segs[s as int].cell_coord == nc) by {
                            lemma_key_injective(segs[s as int].cell_coord, nc);
                        }
                    }
                    let end = s + n;
                    let mut j: usize = s;
                    while j < end
                        invariant
                            end == s + n,
                            i < segs.len(),
                            neighbour(segs[i as int].cell_coord, segs[i as int].direction) == Some(nc),
                            map.wf(),
                            segs == map.segments@,
                            map.cells@.contains_key(key),
                            map.cells@[key] == (s, n),
                            key == cell_key(nc),
                            s <= j <= s + n,
                            s + n <= segs.len(),
                            seg == segs[i as int],
                            first_match(segs, nc, seg.end, 0) == first_match(segs, nc, seg.end, j as int),
                            first_match(segs, nc, seg.end, (s + n) as int) is None,
                        decreases s + n - j,
                    {
                        proof {
                            lemma_key_injective(segs[j as int].cell_coord, nc);
                        }
                        if positions_equal(&map.segments[j].start, &seg.end) {
                            proof {
                                assert(cell_key(segs[j as int].cell_coord) == key);
                                assert(segs[j as int].cell_coord == nc);
                                assert(neighbour(segs[i as int].cell_coord, segs[i as int].direction) == Some(nc));
                            }
                            return Ok(j);
                        }
                        j = j + 1;
                    }
                    proof {
                        assert(has_cell(segs, nc)) by {
                            assert(segs[s as int].cell_coord == nc);
                        }
                    }
                    Err(NextSegmentError::SegmentMismatch)
                },
            }
        },
    }
}

/// The fragments marked in `v`.
pub open spec fn marked(v: Seq<bool>) -> Set<int> {
    Set::new(|i: int| 0 <= i < v.len() && v[i])
}

/// The rest of a path once fragment `cur` has been reached: the points it
/// adds, whether it closed on `seed`, and the fragments it took in order.
/// `visited` holds the fragments already taken; `fuel` bounds the steps (a
/// path never needs more steps than there are fragments).
pub open spec fn walk(
    segs: Seq<Segment>,
    visited: Set<int>,
    seed: int,
    cur: int,
    fuel: nat,
) -> (Seq<Point<Fraction>>, bool, Seq<int>)
    decreases fuel,
{
    if fuel == 0 {
        (seq![], false, seq![])
    } else {
        match successor(segs, cur) {
            None => (seq![], false, seq![]),
            Some(nx) => if visited.contains(nx) {
                (seq![segs[nx].start, segs[nx].end], nx == seed, seq![])
            } else {
                let rest = walk(segs, visited.insert(nx), seed, nx, (fuel - 1) as nat);
                (seq![segs[nx].end] + rest.0, rest.1, seq![nx] + rest.2)
            },
        }
    }
}

/// The path seeded at fragment `seed` when the fragments in `visited` are
/// taken already: its points and closedness, and the fragments it takes.
pub open spec fn trace_from(segs: Seq<Segment>, visited: Set<int>, seed: int) -> (
    (Seq<Point<Fraction>>, bool),
    Seq<int>,
) {
    let w = walk(segs, visited.insert(seed), seed, seed, segs.len());
    ((seq![segs[seed].start, segs[seed].end] + w.0, w.1), seq![seed] + w.2)
}

/// The paths seeded, in order, at each fragment from `i` on that no earlier
/// path has taken.
pub open spec fn trace_all(segs: Seq<Segment>, i: int, visited: Set<int>) -> Seq<
    ((Seq<Point<Fraction>>, bool), Seq<int>),
>
    decreases segs.len() - i,
{
    if i < 0 || i >= segs.len() {
        seq![]
    } else if visited.contains(i) {
        trace_all(segs, i + 1, visited)
    } else {
        let p = trace_from(segs, visited, i);
        seq![p] + trace_all(segs, i + 1, visited + p.1.to_set())
    }
}

/// The points and closedness of each path.
pub open spec fn paths_view(paths: Seq<Path>) -> Seq<(Seq<Point<Fraction>>, bool)> {
    paths.map_values(|p: Path| p@)
}

/// The paths of a trace, without the fragments each took.
pub open spec fn firsts(s: Seq<((Seq<Point<Fraction>>, bool), Seq<int>)>) -> Seq<
    (Seq<Point<Fraction>>, bool),
> {
    s.map_values(|e: ((Seq<Point<Fraction>>, bool), Seq<int>)| e.0)
}

/// The paths traced from all of `segs`.
pub open spec fn spec_trace(segs: Seq<Segment>) -> Seq<(Seq<Point<Fraction>>, bool)> {
    firsts(trace_all(segs, 0, Set::empty()))
}

proof fn lemma_prepend_to_set(a: int, s: Seq<int>)
    ensures
        (seq![a] + s).to_set() == s.to_set().insert(a),
{
    let t = seq![a] + s;
    assert forall|x: int| #[trigger] t.to_set().contains(x) <==> s.to_set().insert(a).contains(x) by {
        if t.contains(x) {
            let j = choose|j: int| 0 <= j < t.len() && t[j] == x;
            if j > 0 {
                assert(s[j - 1] == x);
            }
        }
        if s.contains(x) {
            let j = choose|j: int| 0 <= j < s.len() && s[j] == x;
            assert(t[j + 1] == x);
        }
        if x == a {
            assert(t[0] == x);
        }
    }
    assert(t.to_set() =~= s.to_set().insert(a));
}

proof fn lemma_append_to_set(s: Seq<int>, a: int)
    ensures
        (s + seq![a]).to_set() == s.to_set().insert(a),
{
    let t = s + seq![a];
    assert forall|x: int| #[trigger] t.to_set().contains(x) <==> s.to_set().insert(a).contains(x) by {
        if t.contains(x) {
            let j = choose|j: int| 0 <= j < t.len() && t[j] == x;
            if j < s.len() {
                assert(s[j] == x);
            }
        }
        if s.contains(x) {
            let j = choose|j: int| 0 <= j < s.len() && s[j] == x;
            assert(t[j] == x);
        }
        if x == a {
            assert(t[s.len() as int] == x);
        }
    }
    assert(t.to_set() =~= s.to_set().insert(a));
}

proof fn lemma_marked_bounded(v: Seq<bool>)
    ensures
        marked(v).finite(),
        marked(v).len() <= v.len(),
        marked(v).subset_of(vstd::set_lib::set_int_range(0, v.len() as int)),
{
    vstd::set_lib::lemma_int_range(0, v.len() as int);
    vstd::set_lib::lemma_len_subset(marked(v), vstd::set_lib::set_int_range(0, v.len() as int));
}

/// Traces the path seeded at fragment `start`, marking in `visited` each
/// fragment it takes; also gives those fragments, in order.
pub fn trace_path(map: &SegmentMap, visited: &mut Vec<bool>, start: usize) -> (r: (
    Path,
    Ghost<Seq<int>>,
))
    requires
        map.wf(),
        old(visited)@.len() == map.segments@.len(),
        start < map.segments@.len(),
        !old(visited)@[start as int],
    ensures
        final(visited)@.len() == map.segments@.len(),
        (r.0@, r.1@) == trace_from(map.segments@, marked(old(visited)@), start as int),
        marked(final(visited)@) == marked(old(visited)@) + r.1@.to_set(),
{
    let ghost segs = map.segments@;
    let ghost n = segs.len();
    let ghost v_start = marked(old(visited)@);
    let ghost v0 = v_start.insert(start as int);
    let first = &map.segments[start];
    let mut points: Vec<Point<Fraction>> = vec![first.start, first.end];
    visited.set(start, true);
    let ghost whole_walk = walk(segs, v0, start as int, start as int, n as nat);
    let ghost mut pts: Seq<Point<Fraction>> = seq![];
    let ghost mut chain: Seq<int> = seq![];
    proof {
        assert(marked(visited@) =~= v0);
        lemma_marked_bounded(visited@);
        lemma_marked_bounded(old(visited)@);
    }
    let mut cur: usize = start;
    loop
        invariant
            map.wf(),
            segs == map.segments@,
            n == segs.len(),
            visited@.len() == n,
            start < n,
            cur < n,
            v0 == v_start.insert(start as int),
            v_start.finite(),
            v_start == marked(old(visited)@),
            !v_start.contains(start as int),
            marked(visited@) == v0 + chain.to_set(),
            marked(visited@).len() == v0.len() + chain.len(),
            chain.len() < n,
            points@ == seq![segs[start as int].start, segs[start as int].end] + pts,
            whole_walk == walk(segs, v0, start as int, start as int, n as nat),
            ({
                let w = walk(segs, marked(visited@), start as int, cur as int, (n - chain.len()) as nat);
                &&& whole_walk.0 == pts + w.0
                &&& whole_walk.1 == w.1
                &&& whole_walk.2 == chain + w.2
            }),
        decreases n - chain.len(),
    {
        let ghost fuel = (n - chain.len()) as nat;
        let ghost vs = marked(visited@);
        match get_next_segment(map, cur) {
            Ok(nx) => {
                if visited[nx] {
                    let s = map.segments[nx].start;
                    let e = map.segments[nx].end;
                    points.push(s);
                    points.push(e);
                    let circular = nx == start;
                    proof {
                        assert(vs.contains(nx as int));
                        assert(whole_walk.0 =~= pts + seq![s, e]);
                        assert(points@ =~= seq![segs[start as int].start, segs[start as int].end] + whole_walk.0);
                        assert(whole_walk.2 =~= chain);
                        lemma_prepend_to_set(start as int, chain);
                        assert(marked(visited@) =~= v_start + (seq![start as int] + chain).to_set());
                    }
                    proof {
                        assert(whole_walk.1 == circular);
                        assert(trace_from(segs, v_start, start as int).0 == (points@, circular));
                        assert(trace_from(segs, v_start, start as int).1 == seq![start as int] + chain);
                    }
                    return (Path { points, circular }, Ghost(seq![start as int] + chain));
                }
                let e = map.segments[nx].end;
                points.push(e);
                visited.set(nx, true);
                proof {
                    assert(!vs.contains(nx as int));
                    assert(marked(visited@) =~= vs.insert(nx as int));
                    let rest = walk(segs, vs.insert(nx as int), start as int, nx as int, (fuel - 1) as nat);
                    assert(pts + (seq![e] + rest.0) =~= (pts + seq![e]) + rest.0);
                    assert(chain + (seq![nx as int] + rest.2) =~= (chain + seq![nx as int]) + rest.2);
                    lemma_append_to_set(chain, nx as int);
                    assert(marked(visited@) =~= v0 + (chain + seq![nx as int]).to_set());
                    pts = pts + seq![e];
                    chain = chain + seq![nx as int];
                    lemma_marked_bounded(visited@);
                    vstd::set_lib::lemma_len_subset(v0, marked(visited@));
                    assert(points@ =~= seq![segs[start as int].start, segs[start as int].end] + pts);
                }
                cur = nx;
            },
            Err(_) => {
                proof {
                    assert(whole_walk.0 =~= pts);
                    assert(whole_walk.2 =~= chain);
                    assert(points@ =~= seq![segs[start as int].start, segs[start as int].end] + whole_walk.0);
                    lemma_prepend_to_set(start as int, chain);
                    assert(marked(visited@) =~= v_start + (seq![start as int] + chain).to_set());
                }
                proof {
                    assert(whole_walk.1 == false);
                    assert(trace_from(segs, v_start, start as int).0 == (points@, false));
                    assert(trace_from(segs, v_start, start as int).1 == seq![start as int] + chain);
                }
                return (Path { points, circular: false }, Ghost(seq![start as int] + chain));
            },
        }
    }
}

proof fn lemma_first_match_in_range(segs: Seq<Segment>, cell: Point<u32>, pt: Point<Fraction>, from: int)
    ensures
        first_match(segs, cell, pt, from) matches Some(j) ==> from <= j < segs.len(),
    decreases segs.len() - from,
{
    if 0 <= from < segs.len() {
        lemma_first_match_in_range(segs, cell, pt, from + 1);
    }
}

/// What the rest of a path adds: fragments not taken before, each once; one
/// point per fragment, and two more when it stops on a fragment already
/// taken; and when it closes, those two are the seed's start and end.
proof fn lemma_walk(segs: Seq<Segment>, visited: Set<int>, seed: int, cur: int, fuel: nat)
    requires
        0 <= seed < segs.len(),
    ensures
        ({
            let w = walk(segs, visited, seed, cur, fuel);
            &&& forall|k: int|
                0 <= k < w.2.len() ==> 0 <= #[trigger] w.2[k] < segs.len() && !visited.contains(
                    w.2[k],
                )
            &&& w.2.no_duplicates()
            &&& w.0.len() == w.2.len() || w.0.len() == w.2.len() + 2
            &&& w.1 ==> {
                &&& w.0.len() == w.2.len() + 2
                &&& w.0[w.0.len() - 2] == segs[seed].start
                &&& w.0[w.0.len() - 1] == segs[seed].end
            }
            &&& w.2.len() <= fuel
            &&& w.2.len() < fuel ==> {
                let last = if w.2.len() == 0 {
                    cur
                } else {
                    w.2.last()
                };
                match successor(segs, last) {
                    None => !w.1,
                    Some(nx) => (visited.contains(nx) || w.2.contains(nx)) && w.1 == (nx == seed),
                }
            }
        }),
    decreases fuel,
{
    if fuel > 0 {
        if let Some(nx) = successor(segs, cur) {
            if !visited.contains(nx) {
                let nc = neighbour(segs[cur].cell_coord, segs[cur].direction).unwrap();
                lemma_first_match_in_range(segs, nc, segs[cur].end, 0);
                let v2 = visited.insert(nx);
                lemma_walk(segs, v2, seed, nx, (fuel - 1) as nat);
                let rest = walk(segs, v2, seed, nx, (fuel - 1) as nat);
                let w = walk(segs, visited, seed, cur, fuel);
                assert(w.2 == seq![nx] + rest.2);
                assert forall|k: int| 0 <= k < w.2.len() implies 0 <= #[trigger] w.2[k] < segs.len()
                    && !visited.contains(w.2[k]) by {
                    if k > 0 {
                        assert(w.2[k] == rest.2[k - 1]);
                    }
                }
                assert forall|a: int, b: int| 0 <= a < b < w.2.len() implies w.2[a] != w.2[b] by {
                    assert(w.2[b] == rest.2[b - 1]);
                    if a > 0 {
                        assert(w.2[a] == rest.2[a - 1]);
                    }
                }
                if w.1 {
                    assert(w.0[w.0.len() - 2] == rest.0[rest.0.len() - 2]);
                    assert(w.0[w.0.len() - 1] == rest.0[rest.0.len() - 1]);
                }
                if w.2.len() < fuel {
                    if rest.2.len() > 0 {
                        assert(w.2.last() == rest.2.last());
                    }
                    if let Some(m) = successor(segs, if rest.2.len() == 0 { nx } else { rest.2.last() }) {
                        if rest.2.contains(m) {
                            let k = choose|k: int| 0 <= k < rest.2.len() && rest.2[k] == m;
                            assert(w.2[k + 1] == m);
                        }
                        if m == nx {
                            assert(w.2[0] == m);
                        }
                    }
                }
            }
        }
    }
}

/// A traced path with the fragments it took: it takes at least its seed; it
/// has one point more than it takes fragments, or three more when it stops
/// on a fragment already taken; it is closed exactly when its last
/// fragment's successor is its seed, and then it is of the second kind and
/// ends with its seed's start and end.
pub open spec fn path_shape(segs: Seq<Segment>, e: ((Seq<Point<Fraction>>, bool), Seq<int>)) -> bool {
    let pts = e.0.0;
    let chain = e.1;
    &&& chain.len() >= 1
    &&& pts.len() == chain.len() + 1 || pts.len() == chain.len() + 3
    &&& e.0.1 ==> {
        &&& pts.len() == chain.len() + 3
        &&& pts[pts.len() - 2] == segs[chain[0]].start
        &&& pts[pts.len() - 1] == segs[chain[0]].end
    }
    &&& e.0.1 <==> successor(segs, chain.last()) == Some(chain[0])
}

/// Some path of `t` takes fragment `j`.
pub open spec fn taken_by(t: Seq<((Seq<Point<Fraction>>, bool), Seq<int>)>, j: int) -> bool {
    exists|p: int, k: int| 0 <= p < t.len() && 0 <= k < t[p].1.len() && #[trigger] t[p].1[k] == j
}

/// The number of fragments taken over the paths `t`.
pub open spec fn taken_count(t: Seq<((Seq<Point<Fraction>>, bool), Seq<int>)>) -> int
    decreases t.len(),
{
    if t.len() == 0 {
        0
    } else {
        t[0].1.len() + taken_count(t.drop_first())
    }
}

/// The number of points over the paths `t`.
pub open spec fn point_count(t: Seq<((Seq<Point<Fraction>>, bool), Seq<int>)>) -> int
    decreases t.len(),
{
    if t.len() == 0 {
        0
    } else {
        t[0].0.0.len() + point_count(t.drop_first())
    }
}

/// The number of paths in `t` that stop on a fragment already taken.
pub open spec fn rejoin_count(t: Seq<((Seq<Point<Fraction>>, bool), Seq<int>)>) -> int
    decreases t.len(),
{
    if t.len() == 0 {
        0
    } else {
        (if t[0].0.0.len() == t[0].1.len() + 3 {
            1int
        } else {
            0int
        }) + rejoin_count(t.drop_first())
    }
}

proof fn lemma_point_count(segs: Seq<Segment>, t: Seq<((Seq<Point<Fraction>>, bool), Seq<int>)>)
    requires
        forall|p: int| 0 <= p < t.len() ==> path_shape(segs, #[trigger] t[p]),
    ensures
        point_count(t) == taken_count(t) + t.len() + 2 * rejoin_count(t),
    decreases t.len(),
{
    if t.len() > 0 {
        assert(path_shape(segs, t[0]));
        assert forall|p: int| 0 <= p < t.drop_first().len() implies path_shape(
            segs,
            #[trigger] t.drop_first()[p],
        ) by {
            assert(t.drop_first()[p] == t[p + 1]);
        }
        lemma_point_count(segs, t.drop_first());
    }
}

/// Over the paths seeded from fragment `i` on, with the fragments in
/// `visited` taken already: no path takes a fragment already taken, and no
/// fragment is taken twice; every fragment from `i` on not yet taken is
/// taken; each path has the shape of [`path_shape`]; and when every fragment
/// before `i` was taken, the paths take all the others.
proof fn lemma_trace_all(segs: Seq<Segment>, i: int, visited: Set<int>)
    requires
        0 <= i,
    ensures
        ({
            let t = trace_all(segs, i, visited);
            &&& forall|p: int, k: int|
                0 <= p < t.len() && 0 <= k < t[p].1.len() ==> 0 <= #[trigger] t[p].1[k]
                    < segs.len() && !visited.contains(t[p].1[k])
            &&& forall|pa: int, ka: int, pb: int, kb: int|
                0 <= pa < t.len() && 0 <= ka < t[pa].1.len() && 0 <= pb < t.len() && 0 <= kb
                    < t[pb].1.len() && #[trigger] t[pa].1[ka] == #[trigger] t[pb].1[kb] ==> pa
                    == pb && ka == kb
            &&& forall|j: int|
                i <= j < segs.len() && !visited.contains(j) ==> #[trigger] taken_by(t, j)
            &&& forall|p: int| 0 <= p < t.len() ==> path_shape(segs, #[trigger] t[p])
            &&& (visited.finite() && visited.subset_of(
                vstd::set_lib::set_int_range(0, segs.len() as int),
            ) && (forall|j: int| 0 <= j < i ==> visited.contains(j))) ==> taken_count(t)
                == segs.len() - visited.len()
        }),
    decreases segs.len() - i,
{
    broadcast use vstd::seq_lib::seq_to_set_is_finite;
    broadcast use vstd::set::group_set_axioms;

    let n = segs.len() as int;
    let t = trace_all(segs, i, visited);
    if i >= n {
        if visited.finite() && visited.subset_of(vstd::set_lib::set_int_range(0, n)) && (forall|
            j: int,
        | 0 <= j < i ==> visited.contains(j)) {
            assert(visited =~= vstd::set_lib::set_int_range(0, n));
            vstd::set_lib::lemma_int_range(0, n);
        }
    } else if visited.contains(i) {
        lemma_trace_all(segs, i + 1, visited);
        assert(t == trace_all(segs, i + 1, visited));
    } else {
        let pe = trace_from(segs, visited, i);
        let v1 = visited.insert(i);
        let w = walk(segs, v1, i, i, segs.len());
        lemma_walk(segs, v1, i, i, segs.len());
        let chain = pe.1;
        assert(chain == seq![i] + w.2);
        let v2 = visited + chain.to_set();
        lemma_trace_all(segs, i + 1, v2);
        let rest = trace_all(segs, i + 1, v2);
        assert(t == seq![pe] + rest);
        assert(t[0] == pe);
        assert forall|p: int| 0 < p < t.len() implies #[trigger] t[p] == rest[p - 1] by {}
        assert forall|k: int| 0 <= k < chain.len() implies 0 <= #[trigger] chain[k] < n
            && !visited.contains(chain[k]) && (k > 0 ==> chain[k] != i) by {
            if k > 0 {
                assert(chain[k] == w.2[k - 1]);
            }
        }
        assert(chain.no_duplicates()) by {
            assert forall|a: int, b: int| 0 <= a < b < chain.len() implies chain[a] != chain[b] by {
                assert(chain[b] == w.2[b - 1]);
                if a > 0 {
                    assert(chain[a] == w.2[a - 1]);
                }
            }
        }
        assert forall|p: int, k: int|
            0 <= p < t.len() && 0 <= k < t[p].1.len() implies 0 <= #[trigger] t[p].1[k] < n
            && !visited.contains(t[p].1[k]) by {
            if p > 0 {
                assert(t[p] == rest[p - 1]);
            }
        }
        assert forall|pa: int, ka: int, pb: int, kb: int|
            0 <= pa < t.len() && 0 <= ka < t[pa].1.len() && 0 <= pb < t.len() && 0 <= kb
                < t[pb].1.len() && #[trigger] t[pa].1[ka] == #[trigger] t[pb].1[kb] implies pa
            == pb && ka == kb by {
            if pa > 0 {
                assert(t[pa] == rest[pa - 1]);
                assert(!v2.contains(rest[pa - 1].1[ka]));
            }
            if pb > 0 {
                assert(t[pb] == rest[pb - 1]);
                assert(!v2.contains(rest[pb - 1].1[kb]));
            }
            if pa == 0 && pb > 0 {
                assert(chain.contains(chain[ka]));
            }
            if pb == 0 && pa > 0 {
                assert(chain.contains(chain[kb]));
            }
            if pa > 0 && pb > 0 {
                let a = pa - 1;
                let b = pb - 1;
                assert(rest[a].1[ka] == rest[b].1[kb]);
            }
        }
        assert forall|j: int| i <= j < n && !visited.contains(j) implies #[trigger] taken_by(t, j) by {
            if j == i {
                assert(t[0].1[0] == j);
            } else if chain.contains(j) {
                let k = choose|k: int| 0 <= k < chain.len() && chain[k] == j;
                assert(t[0].1[k] == j);
            } else {
                assert(!v2.contains(j));
                assert(taken_by(rest, j));
                let (p, k) = choose|p: int, k: int|
                    0 <= p < rest.len() && 0 <= k < rest[p].1.len() && #[trigger] rest[p].1[k]
                        == j;
                assert(t[p + 1] == rest[p]);
                assert(t[p + 1].1[k] == j);
            }
        }
        assert(path_shape(segs, pe)) by {
            assert(pe.0.0 == seq![segs[i].start, segs[i].end] + w.0);
            assert(w.2.len() < n) by {
                w.2.unique_seq_to_set();
                let range = vstd::set_lib::set_int_range(0, n).remove(i);
                vstd::set_lib::lemma_int_range(0, n);
                assert(w.2.to_set().subset_of(range));
                vstd::set_lib::lemma_len_subset(w.2.to_set(), range);
            }
            if w.2.len() > 0 {
                assert(chain.last() == w.2.last());
            }
            assert(chain[0] == i);
            if pe.0.1 {
                assert(pe.0.0[pe.0.0.len() - 2] == w.0[w.0.len() - 2]);
                assert(pe.0.0[pe.0.0.len() - 1] == w.0[w.0.len() - 1]);
            }
        }
        assert forall|p: int| 0 <= p < t.len() implies path_shape(segs, #[trigger] t[p]) by {
            if p > 0 {
                assert(t[p] == rest[p - 1]);
            }
        }
        if visited.finite() && visited.subset_of(vstd::set_lib::set_int_range(0, n)) && (forall|
            j: int,
        | 0 <= j < i ==> visited.contains(j)) {
            chain.unique_seq_to_set();
            assert(visited.disjoint(chain.to_set()));
            vstd::set_lib::lemma_set_disjoint_lens(visited, chain.to_set());
            assert(v2.subset_of(vstd::set_lib::set_int_range(0, n)));
            assert forall|j: int| 0 <= j < i + 1 implies v2.contains(j) by {
                if j == i {
                    assert(chain[0] == i);
                    assert(chain.contains(i));
                }
            }
            assert(t.drop_first() =~= rest);
            assert(v2.finite());
            assert(v2.len() == visited.len() + chain.len());
            assert(taken_count(rest) == n - v2.len());
            assert(taken_count(t) == chain.len() + taken_count(rest));
        }
    }
}

/// Fragment conservation: over the paths traced from `segs`, every fragment
/// is taken by exactly one path, exactly once. Each path holds one point per
/// fragment it takes plus one for its seed's start, and two more when it
/// stops on a fragment already taken (as a closed path does), so the points
/// over all paths number the fragments, plus the paths, plus twice the paths
/// that stop so.
pub proof fn lemma_fragment_conservation(segs: Seq<Segment>)
    ensures
        ({
            let t = trace_all(segs, 0, Set::empty());
            &&& forall|p: int, k: int|
                0 <= p < t.len() && 0 <= k < t[p].1.len() ==> 0 <= #[trigger] t[p].1[k]
                    < segs.len()
            &&& forall|pa: int, ka: int, pb: int, kb: int|
                0 <= pa < t.len() && 0 <= ka < t[pa].1.len() && 0 <= pb < t.len() && 0 <= kb
                    < t[pb].1.len() && #[trigger] t[pa].1[ka] == #[trigger] t[pb].1[kb] ==> pa
                    == pb && ka == kb
            &&& forall|j: int| 0 <= j < segs.len() ==> #[trigger] taken_by(t, j)
            &&& taken_count(t) == segs.len()
            &&& point_count(t) == segs.len() + t.len() + 2 * rejoin_count(t)
            &&& firsts(t) == spec_trace(segs)
        }),
{
    let t = trace_all(segs, 0, Set::empty());
    lemma_trace_all(segs, 0, Set::empty());
    assert(Set::<int>::empty().subset_of(vstd::set_lib::set_int_range(0, segs.len() as int)));
    lemma_point_count(segs, t);
}

/// Loop correctness: a traced path is closed exactly when the successor of
/// its last fragment is its own seed fragment; a closed path then ends with
/// that seed's start and end.
pub proof fn lemma_closed_paths(segs: Seq<Segment>)
    ensures
        ({
            let t = trace_all(segs, 0, Set::empty());
            forall|p: int|
                0 <= p < t.len() ==> {
                    let pts = (#[trigger] t[p]).0.0;
                    let chain = t[p].1;
                    &&& chain.len() >= 1
                    &&& t[p].0.1 <==> successor(segs, chain.last()) == Some(chain[0])
                    &&& t[p].0.1 ==> {
                        &&& pts.len() >= 2
                        &&& pts[pts.len() - 2] == segs[chain[0]].start
                        &&& pts[pts.len() - 1] == segs[chain[0]].end
                    }
                }
        }),
{
    lemma_trace_all(segs, 0, Set::empty());
}

/// Idempotence: extraction depends on the grid and the threshold alone. Two
/// extractions over the same grid, each with an index of its own, give the
/// same paths, point for point and in the same order.
pub proof fn lemma_extraction_deterministic(m1: MarchingSquares, m2: MarchingSquares, t: int)
    requires
        m1.wf(),
        m2.wf(),
        *m1.img == *m2.img,
    ensures
        m1.spec_isoline(t) == m2.spec_isoline(t),
{
    crate::quad_tree::lemma_index_unique(m1.quad_tree, m2.quad_tree, *m1.img);
}

/// Stitches all the fragments of `map` into paths: each path is seeded at
/// the first fragment not yet taken and follows successors until there is
/// none or it reaches a fragment already taken.
pub fn trace_segments(map: &SegmentMap) -> (r: Vec<Path>)
    requires
        map.wf(),
    ensures
        paths_view(r@) == spec_trace(map.segments@),
{
    let ghost segs = map.segments@;
    let n = map.segments.len();
    let mut visited: Vec<bool> = Vec::new();
    while visited.len() < n
        invariant
            visited@.len() <= n,
            forall|j: int| 0 <= j < visited@.len() ==> !visited@[j],
        decreases n - visited@.len(),
    {
        visited.push(false);
    }
    proof {
        assert(marked(visited@) =~= Set::<int>::empty());
    }
    let mut paths: Vec<Path> = Vec::new();
    let ghost mut acc: Seq<((Seq<Point<Fraction>>, bool), Seq<int>)> = seq![];
    let mut i: usize = 0;
    while i < n
        invariant
            map.wf(),
            segs == map.segments@,
            n == segs.len(),
            visited@.len() == n,
            0 <= i <= n,
            acc + trace_all(segs, i as int, marked(visited@)) == trace_all(segs, 0, Set::empty()),
            paths_view(paths@) == firsts(acc),
        decreases n - i,
    {
        if !visited[i] {
            let ghost vs = marked(visited@);
            let ghost old_paths = paths@;
            let ghost old_acc = acc;
            let (path, chain) = trace_path(map, &mut visited, i);
            let ghost pv = path@;
            paths.push(path);
            proof {
                let p = trace_from(segs, vs, i as int);
                assert(pv == p.0);
                assert(paths_view(old_paths).len() == old_paths.len());
                assert(firsts(old_acc).len() == old_acc.len());
                assert forall|k: int| 0 <= k < old_paths.len() implies old_paths[k]@ == old_acc[k].0 by {
                    assert(paths_view(old_paths)[k] == old_paths[k]@);
                    assert(firsts(old_acc)[k] == old_acc[k].0);
                    assert(paths_view(old_paths)[k] == firsts(old_acc)[k]);
                }
                assert(trace_all(segs, i as int, vs) == seq![p] + trace_all(
                    segs,
                    i + 1,
                    vs + p.1.to_set(),
                ));
                assert(acc + (seq![p] + trace_all(segs, i + 1, vs + p.1.to_set())) =~= (acc
                    + seq![p]) + trace_all(segs, i + 1, vs + p.1.to_set()));
                acc = acc + seq![p];
                assert(paths@[old_paths.len() as int]@ == pv);
                assert forall|k: int| 0 <= k < paths@.len() implies #[trigger] paths_view(paths@)[k] == firsts(acc)[k] by {
                    if k < old_paths.len() {
                        assert(paths@[k] == old_paths[k]);
                    }
                }
                assert(paths_view(paths@) =~= firsts(acc));
            }
        } else {
            proof {
                assert(marked(visited@).contains(i as int));
            }
        }
        i = i + 1;
    }
    proof {
        assert(trace_all(segs, n as int, marked(visited@)) == Seq::<
            ((Seq<Point<Fraction>>, bool), Seq<int>),
        >::empty());
        assert(acc =~= acc + trace_all(segs, n as int, marked(visited@)));
    }
    paths
}

impl<'a> MarchingSquares<'a> {
    /// The paths at `threshold`, as [`MarchingSquares::isoline`] traces them.
    pub open spec fn spec_isoline(self, threshold: int) -> Seq<(Seq<Point<Fraction>>, bool)> {
        spec_trace(
            collect_fragments(*self.img, self.quad_tree.spec_above(threshold), threshold),
        )
    }

    /// The contour at `threshold`: the fragments of the cells the index
    /// reports, traced into paths.
    pub fn isoline(&self, threshold: i32) -> (r: IsolineLayer)
        requires
            self.wf(),
        ensures
            r.threshold == threshold,
            paths_view(r.paths@) == self.spec_isoline(threshold as int),
    {
        let cell_segments = self.segments_for_threshold(threshold);
        let paths = trace_segments(&cell_segments);
        IsolineLayer { threshold, paths }
    }

    /// The contours at each of `thresholds`, one layer per threshold in the
    /// same order; each layer is computed independently of the others.
    pub fn isolines(&self, thresholds: &[i32]) -> (r: Vec<IsolineLayer>)
        requires
            self.wf(),
        ensures
            r@.len() == thresholds@.len(),
            forall|i: int|
                0 <= i < r@.len() ==> (#[trigger] r@[i]).threshold == thresholds@[i]
                    && paths_view(r@[i].paths@) == self.spec_isoline(
                    thresholds@[i] as int,
                ),
    {
        let mut layers: Vec<IsolineLayer> = Vec::new();
        let mut i: usize = 0;
        while i < thresholds.len()
            invariant
                self.wf(),
                0 <= i <= thresholds@.len(),
                layers@.len() == i,
                forall|j: int|
                    0 <= j < i ==> (#[trigger] layers@[j]).threshold == thresholds@[j]
                        && paths_view(layers@[j].paths@) == self.spec_isoline(
                        thresholds@[j] as int,
                    ),
            decreases thresholds@.len() - i,
        {
            let layer = self.isoline(thresholds[i]);
            layers.push(layer);
            i = i + 1;
        }
        layers
    }
}

} // verus!
