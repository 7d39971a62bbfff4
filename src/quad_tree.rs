use crate::util::{Image, Point};
use vstd::prelude::*;
use vstd::seq_lib::{lemma_no_dup_in_concat, lemma_seq_concat_contains_all_elements};

verus! {

/// A node of the min/max index over the cells of a grid.
///
/// A node spans `width` by `height` samples from `origin`; the cells it covers
/// are those whose top-left sample lies in that span, but for the last column
/// and row (see [`span_covers`]). A node spanning at most 2 by 2 samples is a
/// leaf and stands for the single cell at its origin. Any other node splits
/// each axis longer than 2 samples after its first `first_part` samples, the
/// two parts sharing the sample on the split line, so that the children cover
/// the node's cells without gap or overlap.
pub struct TreeNode {
    pub origin: Point<u32>,
    pub lower_bound: i32,
    pub upper_bound: i32,
    pub width: u32,
    pub height: u32,
    pub top_left: Option<Box<TreeNode>>,
    pub top_right: Option<Box<TreeNode>>,
    pub bottom_left: Option<Box<TreeNode>>,
    pub bottom_right: Option<Box<TreeNode>>,
}

/// `acc` lowered to the sample `v`, if there is one.
pub open spec fn min_present(acc: int, v: Option<i32>) -> int {
    match v {
        Some(s) => if (s as int) < acc { s as int } else { acc },
        None => acc,
    }
}

/// `acc` raised to the sample `v`, if there is one.
pub open spec fn max_present(acc: int, v: Option<i32>) -> int {
    match v {
        Some(s) => if (s as int) > acc { s as int } else { acc },
        None => acc,
    }
}

/// The least present corner sample of the cell at `c` (`i32::MAX` when none is present).
pub open spec fn cell_min(img: Image, c: Point<u32>) -> int {
    let x = c.x as int;
    let y = c.y as int;
    min_present(
        min_present(
            min_present(min_present(i32::MAX as int, img.value_at(x, y)), img.value_at(x, y + 1)),
            img.value_at(x + 1, y),
        ),
        img.value_at(x + 1, y + 1),
    )
}

/// The greatest present corner sample of the cell at `c` (`i32::MIN` when none is present).
pub open spec fn cell_max(img: Image, c: Point<u32>) -> int {
    let x = c.x as int;
    let y = c.y as int;
    max_present(
        max_present(
            max_present(max_present(i32::MIN as int, img.value_at(x, y)), img.value_at(x, y + 1)),
            img.value_at(x + 1, y),
        ),
        img.value_at(x + 1, y + 1),
    )
}

/// The length, in samples, of the first part when a span of `e` samples is split.
pub open spec fn first_part(e: int) -> int {
    if e <= 2 {
        e
    } else {
        (e + 1) / 2
    }
}

/// Whether a span of `e` samples from `o` covers the cells whose first sample is `v`.
pub open spec fn span_covers(o: int, e: int, v: int) -> bool {
    if e <= 2 {
        v == o
    } else {
        o <= v < o + e - 1
    }
}

/// The lower bound of an optional child (`i32::MAX` when absent).
pub open spec fn child_lower(n: Option<Box<TreeNode>>) -> int {
    match n {
        Some(c) => c.lower_bound as int,
        None => i32::MAX as int,
    }
}

/// The upper bound of an optional child (`i32::MIN` when absent).
pub open spec fn child_upper(n: Option<Box<TreeNode>>) -> int {
    match n {
        Some(c) => c.upper_bound as int,
        None => i32::MIN as int,
    }
}

pub open spec fn min2(a: int, b: int) -> int {
    if a < b {
        a
    } else {
        b
    }
}

pub open spec fn max2(a: int, b: int) -> int {
    if a > b {
        a
    } else {
        b
    }
}

/// Whether `n` is a child with the given origin and size.
pub open spec fn child_at(n: Option<Box<TreeNode>>, x: int, y: int, w: int, h: int) -> bool {
    match n {
        Some(c) => c.origin.x == x && c.origin.y == y && c.width == w && c.height == h,
        None => false,
    }
}

impl TreeNode {
    pub open spec fn is_leaf(self) -> bool {
        self.width <= 2 && self.height <= 2
    }

    /// The node covers the cell whose top-left sample is `c`.
    pub open spec fn covers(self, c: Point<u32>) -> bool {
        span_covers(self.origin.x as int, self.width as int, c.x as int) && span_covers(
            self.origin.y as int,
            self.height as int,
            c.y as int,
        )
    }

    /// The children are laid out as the split of this node prescribes.
    pub open spec fn shape_ok(self) -> bool {
        let ox = self.origin.x as int;
        let oy = self.origin.y as int;
        let w = self.width as int;
        let h = self.height as int;
        let nw = first_part(w);
        let nh = first_part(h);
        if self.is_leaf() {
            &&& self.top_left is None
            &&& self.top_right is None
            &&& self.bottom_left is None
            &&& self.bottom_right is None
        } else {
            &&& child_at(self.top_left, ox, oy, nw, nh)
            &&& if w > 2 {
                child_at(self.top_right, ox + nw - 1, oy, w + 1 - nw, nh)
            } else {
                self.top_right is None
            }
            &&& if h > 2 {
                child_at(self.bottom_left, ox, oy + nh - 1, nw, h + 1 - nh)
            } else {
                self.bottom_left is None
            }
            &&& if w > 2 && h > 2 {
                child_at(self.bottom_right, ox + nw - 1, oy + nh - 1, w + 1 - nw, h + 1 - nh)
            } else {
                self.bottom_right is None
            }
        }
    }

    /// Well-formed over `img`: the children follow the split, a leaf's bounds
    /// are its cell's least and greatest present samples, and an inner node's
    /// bounds are exactly the least and greatest of its children's bounds.
    pub open spec fn wf(self, img: Image) -> bool
        decreases self,
    {
        &&& self.shape_ok()
        &&& if self.is_leaf() {
            &&& self.lower_bound == cell_min(img, self.origin)
            &&& self.upper_bound == cell_max(img, self.origin)
        } else {
            &&& self.lower_bound == min2(
                min2(child_lower(self.top_left), child_lower(self.top_right)),
                min2(child_lower(self.bottom_left), child_lower(self.bottom_right)),
            )
            &&& self.upper_bound == max2(
                max2(child_upper(self.top_left), child_upper(self.top_right)),
                max2(child_upper(self.bottom_left), child_upper(self.bottom_right)),
            )
        }
        &&& match self.top_left {
            Some(c) => c.wf(img),
            None => true,
        }
        &&& match self.top_right {
            Some(c) => c.wf(img),
            None => true,
        }
        &&& match self.bottom_left {
            Some(c) => c.wf(img),
            None => true,
        }
        &&& match self.bottom_right {
            Some(c) => c.wf(img),
            None => true,
        }
    }

    /// The cells reported for `t` by [`TreeNode::above_threshold`], in order.
    pub open spec fn spec_above(self, t: int) -> Seq<Point<u32>>
        decreases self,
    {
        if self.upper_bound < t {
            seq![]
        } else if self.is_leaf() {
            seq![self.origin]
        } else {
            let a = match self.top_left {
                Some(c) => c.spec_above(t),
                None => seq![],
            };
            let b = match self.top_right {
                Some(c) => c.spec_above(t),
                None => seq![],
            };
            let d = match self.bottom_left {
                Some(c) => c.spec_above(t),
                None => seq![],
            };
            let e = match self.bottom_right {
                Some(c) => c.spec_above(t),
                None => seq![],
            };
            a + b + d + e
        }
    }

    /// The cells reported for `t` by [`TreeNode::under_threshold`], in order.
    pub open spec fn spec_under(self, t: int) -> Seq<Point<u32>>
        decreases self,
    {
        if self.lower_bound > t {
            seq![]
        } else if self.is_leaf() {
            seq![self.origin]
        } else {
            let a = match self.top_left {
                Some(c) => c.spec_under(t),
                None => seq![],
            };
            let b = match self.top_right {
                Some(c) => c.spec_under(t),
                None => seq![],
            };
            let d = match self.bottom_left {
                Some(c) => c.spec_under(t),
                None => seq![],
            };
            let e = match self.bottom_right {
                Some(c) => c.spec_under(t),
                None => seq![],
            };
            a + b + d + e
        }
    }
}

/// Whether the optional child `n` covers the cell `c`.
pub open spec fn child_covers(n: Option<Box<TreeNode>>, c: Point<u32>) -> bool {
    match n {
        Some(k) => k.covers(c),
        None => false,
    }
}

/// A span longer than two samples is split into two parts that cover its
/// cells without gap or overlap.
proof fn lemma_span_split(o: int, e: int, v: int)
    requires
        e > 2,
    ensures
        span_covers(o, e, v) <==> (span_covers(o, first_part(e), v) || span_covers(
            o + first_part(e) - 1,
            e + 1 - first_part(e),
            v,
        )),
        !(span_covers(o, first_part(e), v) && span_covers(
            o + first_part(e) - 1,
            e + 1 - first_part(e),
            v,
        )),
{
}

/// The cells of an inner node are those of its children, each covered by
/// exactly one child.
proof fn lemma_cover_split(n: TreeNode, c: Point<u32>)
    requires
        n.shape_ok(),
        !n.is_leaf(),
    ensures
        n.covers(c) <==> (child_covers(n.top_left, c) || child_covers(n.top_right, c)
            || child_covers(n.bottom_left, c) || child_covers(n.bottom_right, c)),
        !(child_covers(n.top_left, c) && child_covers(n.top_right, c)),
        !(child_covers(n.top_left, c) && child_covers(n.bottom_left, c)),
        !(child_covers(n.top_left, c) && child_covers(n.bottom_right, c)),
        !(child_covers(n.top_right, c) && child_covers(n.bottom_left, c)),
        !(child_covers(n.top_right, c) && child_covers(n.bottom_right, c)),
        !(child_covers(n.bottom_left, c) && child_covers(n.bottom_right, c)),
{
    if n.width > 2 {
        lemma_span_split(n.origin.x as int, n.width as int, c.x as int);
    }
    if n.height > 2 {
        lemma_span_split(n.origin.y as int, n.height as int, c.y as int);
    }
}

/// A node's bounds enclose the present corner samples of every cell it covers.
pub proof fn lemma_bounds_enclose(n: TreeNode, img: Image, c: Point<u32>)
    requires
        n.wf(img),
        n.covers(c),
    ensures
        n.lower_bound <= cell_min(img, c),
        cell_max(img, c) <= n.upper_bound,
    decreases n,
{
    if !n.is_leaf() {
        lemma_cover_split(n, c);
        if child_covers(n.top_left, c) {
            lemma_bounds_enclose(*n.top_left.unwrap(), img, c);
        } else if child_covers(n.top_right, c) {
            lemma_bounds_enclose(*n.top_right.unwrap(), img, c);
        } else if child_covers(n.bottom_left, c) {
            lemma_bounds_enclose(*n.bottom_left.unwrap(), img, c);
        } else {
            lemma_bounds_enclose(*n.bottom_right.unwrap(), img, c);
        }
    }
}

/// What the cells reported above a threshold are: exactly the covered cells
/// whose greatest present corner sample reaches the threshold, each once.
pub proof fn lemma_above_exact(n: TreeNode, img: Image, t: int)
    requires
        n.wf(img),
    ensures
        n.spec_above(t).no_duplicates(),
        forall|c: Point<u32>|
            #[trigger] n.spec_above(t).contains(c) <==> (n.covers(c) && cell_max(img, c) >= t),
    decreases n,
{
    broadcast use lemma_seq_concat_contains_all_elements;

    if n.upper_bound < t {
        assert forall|c: Point<u32>| #[trigger]
            n.spec_above(t).contains(c) <==> (n.covers(c) && cell_max(img, c) >= t) by {
            if n.covers(c) {
                lemma_bounds_enclose(n, img, c);
            }
        }
    } else if n.is_leaf() {
        assert(n.spec_above(t) =~= seq![n.origin]);
        assert forall|c: Point<u32>| #[trigger]
            n.spec_above(t).contains(c) <==> (n.covers(c) && cell_max(img, c) >= t) by {
            if n.covers(c) {
                assert(c == n.origin);
            }
            if c == n.origin {
                assert(n.spec_above(t)[0] == c);
            }
        }
    } else {
        let a = match n.top_left {
            Some(k) => k.spec_above(t),
            None => seq![],
        };
        let b = match n.top_right {
            Some(k) => k.spec_above(t),
            None => seq![],
        };
        let d = match n.bottom_left {
            Some(k) => k.spec_above(t),
            None => seq![],
        };
        let e = match n.bottom_right {
            Some(k) => k.spec_above(t),
            None => seq![],
        };
        if let Some(k) = n.top_left {
            lemma_above_exact(*k, img, t);
        }
        if let Some(k) = n.top_right {
            lemma_above_exact(*k, img, t);
        }
        if let Some(k) = n.bottom_left {
            lemma_above_exact(*k, img, t);
        }
        if let Some(k) = n.bottom_right {
            lemma_above_exact(*k, img, t);
        }
        assert forall|c: Point<u32>| #[trigger]
            n.spec_above(t).contains(c) <==> (n.covers(c) && cell_max(img, c) >= t) by {
            lemma_cover_split(n, c);
        }
        assert forall|i: int, j: int| 0 <= i < a.len() && 0 <= j < b.len() implies a[i] != b[j] by {
            assert(a.contains(a[i]));
            assert(b.contains(b[j]));
            lemma_cover_split(n, a[i]);
        }
        lemma_no_dup_in_concat(a, b);
        assert forall|i: int, j: int| 0 <= i < (a + b).len() && 0 <= j < d.len() implies (a
            + b)[i] != d[j] by {
            assert((a + b).contains((a + b)[i]));
            assert(d.contains(d[j]));
            lemma_cover_split(n, d[j]);
        }
        lemma_no_dup_in_concat(a + b, d);
        assert forall|i: int, j: int| 0 <= i < (a + b + d).len() && 0 <= j < e.len() implies (a
            + b + d)[i] != e[j] by {
            assert((a + b + d).contains((a + b + d)[i]));
            assert(e.contains(e[j]));
            lemma_cover_split(n, e[j]);
        }
        lemma_no_dup_in_concat(a + b + d, e);
    }
}

/// Soundness of pruning: for the index over the whole of `img`, every cell of
/// the grid whose corner samples straddle `t` is among the cells reported for
/// `t`, and every reported cell is a covered cell that reaches `t`.
pub proof fn lemma_pruning_sound(tree: TreeNode, img: Image, t: int, c: Point<u32>)
    requires
        tree.wf(img),
        tree.origin == (Point::<u32> { x: 0, y: 0 }),
        tree.width == img.width,
        tree.height == img.height,
    ensures
        c.x + 1 < img.width && c.y + 1 < img.height && cell_min(img, c) <= t <= cell_max(img, c)
            ==> tree.spec_above(t).contains(c),
        tree.spec_above(t).contains(c) ==> tree.covers(c) && cell_max(img, c) >= t,
        tree.spec_above(t).no_duplicates(),
{
    lemma_above_exact(tree, img, t);
}

/// Two well-formed nodes over one grid, with the same origin and size, are
/// the same node: the index of a grid is unique.
pub proof fn lemma_index_unique(a: TreeNode, b: TreeNode, img: Image)
    requires
        a.wf(img),
        b.wf(img),
        a.origin == b.origin,
        a.width == b.width,
        a.height == b.height,
    ensures
        a == b,
    decreases a,
{
    if !a.is_leaf() {
        lemma_index_unique(*a.top_left.unwrap(), *b.top_left.unwrap(), img);
        if a.width > 2 {
            lemma_index_unique(*a.top_right.unwrap(), *b.top_right.unwrap(), img);
        }
        if a.height > 2 {
            lemma_index_unique(*a.bottom_left.unwrap(), *b.bottom_left.unwrap(), img);
        }
        if a.width > 2 && a.height > 2 {
            lemma_index_unique(*a.bottom_right.unwrap(), *b.bottom_right.unwrap(), img);
        }
    }
}

impl TreeNode {
    /// Builds the index over the whole of `img`.
    pub fn create(img: &Image) -> (r: TreeNode)
        requires
            img.wf(),
        ensures
            r.wf(*img),
            r.origin == (Point::<u32> { x: 0, y: 0 }),
            r.width == img.width,
            r.height == img.height,
    {
        create_node(img, Point { x: 0, y: 0 }, img.width, img.height)
    }

    /// The cells, under this node, whose greatest present corner sample is at
    /// least `threshold`: every cell that may be crossed by the contour at
    /// `threshold`, together with cells lying wholly above it.
    pub fn above_threshold(&self, threshold: i32) -> (r: Vec<Point<u32>>)
        ensures
            r@ == self.spec_above(threshold as int),
        decreases self,
    {
        if self.upper_bound < threshold {
            return Vec::new();
        }
        let mut cells: Vec<Point<u32>> = Vec::new();
        if self.width <= 2 && self.height <= 2 {
            cells.push(self.origin);
            return cells;
        }
        if let Some(c) = &self.top_left {
            let mut v = c.above_threshold(threshold);
            cells.append(&mut v);
        }
        if let Some(c) = &self.top_right {
            let mut v = c.above_threshold(threshold);
            cells.append(&mut v);
        }
        if let Some(c) = &self.bottom_left {
            let mut v = c.above_threshold(threshold);
            cells.append(&mut v);
        }
        if let Some(c) = &self.bottom_right {
            let mut v = c.above_threshold(threshold);
            cells.append(&mut v);
        }
        cells
    }

    /// The cells, under this node, whose least present corner sample is at
    /// most `threshold`.
    pub fn under_threshold(&self, threshold: i32) -> (r: Vec<Point<u32>>)
        ensures
            r@ == self.spec_under(threshold as int),
        decreases self,
    {
        if self.lower_bound > threshold {
            return Vec::new();
        }
        let mut cells: Vec<Point<u32>> = Vec::new();
        if self.width <= 2 && self.height <= 2 {
            cells.push(self.origin);
            return cells;
        }
        if let Some(c) = &self.top_left {
            let mut v = c.under_threshold(threshold);
            cells.append(&mut v);
        }
        if let Some(c) = &self.top_right {
            let mut v = c.under_threshold(threshold);
            cells.append(&mut v);
        }
        if let Some(c) = &self.bottom_left {
            let mut v = c.under_threshold(threshold);
            cells.append(&mut v);
        }
        if let Some(c) = &self.bottom_right {
            let mut v = c.under_threshold(threshold);
            cells.append(&mut v);
        }
        cells
    }
}

fn lower_of(acc: i32, v: Option<i32>) -> (r: i32)
    ensures
        r == min_present(acc as int, v),
{
    match v {
        Some(s) => if s < acc {
            s
        } else {
            acc
        },
        None => acc,
    }
}

fn upper_of(acc: i32, v: Option<i32>) -> (r: i32)
    ensures
        r == max_present(acc as int, v),
{
    match v {
        Some(s) => if s > acc {
            s
        } else {
            acc
        },
        None => acc,
    }
}

/// Builds the index node spanning `width` by `height` samples from `origin`.
pub fn create_node(img: &Image, origin: Point<u32>, width: u32, height: u32) -> (r: TreeNode)
    requires
        img.wf(),
        origin.x + width <= u32::MAX,
        origin.y + height <= u32::MAX,
        origin.x < u32::MAX,
        origin.y < u32::MAX,
    ensures
        r.wf(*img),
        r.origin == origin,
        r.width == width,
        r.height == height,
    decreases width + height,
{
    if width <= 2 && height <= 2 {
        let x = origin.x;
        let y = origin.y;
        let v00 = img.get_val(&Point { x, y });
        let v01 = img.get_val(&Point { x, y: y + 1 });
        let v10 = img.get_val(&Point { x: x + 1, y });
        let v11 = img.get_val(&Point { x: x + 1, y: y + 1 });
        let lower = lower_of(lower_of(lower_of(lower_of(i32::MAX, v00), v01), v10), v11);
        let upper = upper_of(upper_of(upper_of(upper_of(i32::MIN, v00), v01), v10), v11);
        return TreeNode {
            origin,
            lower_bound: lower,
            upper_bound: upper,
            width,
            height,
            top_left: None,
            top_right: None,
            bottom_left: None,
            bottom_right: None,
        };
    }
    let next_width: u32 = if width <= 2 {
        width
    } else {
        width - width / 2
    };
    let next_height: u32 = if height <= 2 {
        height
    } else {
        height - height / 2
    };
    // The parts beyond the split start on the split line, which they share
    // with the first parts.
    let mid_x: u32 = if width > 2 { origin.x + next_width - 1 } else { origin.x };
    let mid_y: u32 = if height > 2 { origin.y + next_height - 1 } else { origin.y };
    let right_width: u32 = if width > 2 { width - next_width + 1 } else { width };
    let bottom_height: u32 = if height > 2 { height - next_height + 1 } else { height };

    let top_left_tree = create_node(img, origin, next_width, next_height);
    let mut min: i32 = top_left_tree.lower_bound;
    let mut max: i32 = top_left_tree.upper_bound;
    let top_left = Some(Box::new(top_left_tree));

    let mut top_right: Option<Box<TreeNode>> = None;
    let mut bottom_right: Option<Box<TreeNode>> = None;
    if width > 2 {
        let tree = create_node(img, Point { x: mid_x, y: origin.y }, right_width, next_height);
        min = if min < tree.lower_bound { min } else { tree.lower_bound };
        max = if max > tree.upper_bound { max } else { tree.upper_bound };
        top_right = Some(Box::new(tree));
    }
    let mut bottom_left: Option<Box<TreeNode>> = None;
    if height > 2 {
        let tree = create_node(img, Point { x: origin.x, y: mid_y }, next_width, bottom_height);
        min = if min < tree.lower_bound { min } else { tree.lower_bound };
        max = if max > tree.upper_bound { max } else { tree.upper_bound };
        bottom_left = Some(Box::new(tree));
    }
    if width > 2 && height > 2 {
        let tree = create_node(img, Point { x: mid_x, y: mid_y }, right_width, bottom_height);
        min = if min < tree.lower_bound { min } else { tree.lower_bound };
        max = if max > tree.upper_bound { max } else { tree.upper_bound };
        bottom_right = Some(Box::new(tree));
    }
    TreeNode {
        origin,
        lower_bound: min,
        upper_bound: max,
        width,
        height,
        top_left,
        top_right,
        bottom_left,
        bottom_right,
    }
}

} // verus!
