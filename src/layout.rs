use vstd::prelude::*;
use crate::bundle::Bundle;
use crate::fill::{enclosed, fill_grid, fill_seed, first_free_nbr, free, in_grid, is_grid, mask_set, region};
use crate::geom::{
    dir4, dir8, lemma_pts_len, lemma_sorted_no_dups, lemma_sorted_unique, offset4, offset8, pts, shift,
    sort_points, sorted_strict, MAX_COORD, MAX_SIDE,
};
use crate::random::random_below;
use crate::shape::Shape;
use rand::StdRng;
use crate::vec2::{Vec2, Vec2i};

verus! {

/// How two placed shapes relate.
#[derive(Clone, Copy, PartialEq, Eq, Debug, Structural)]
pub enum Overlap {
    /// They have a common cell.
    Overlap,
    /// They have no common cell but a common edge.
    Border,
    /// Neither a common cell nor a common edge.
    Disjoint,
}

/// One shape instance: where it is anchored, which shape and which variant.
#[derive(Clone, Copy, PartialEq, Eq, Debug, Structural)]
pub struct Position {
    pub x: i32,
    pub y: i32,
    pub shape: u16,
    pub var: u16,
}

/// The cells of `sh` when its origin is put at `p`.
pub open spec fn placed(sh: Shape, p: (int, int)) -> Set<(int, int)> {
    Set::new(|c: (int, int)| sh.cells().contains((c.0 - p.0, c.1 - p.1)))
}

/// The two cell sets have a common cell.
pub open spec fn overlaps(a: Set<(int, int)>, b: Set<(int, int)>) -> bool {
    exists|c: (int, int)| a.contains(c) && b.contains(c)
}

/// A cell of `a` shares an edge with a cell of `b`.
pub open spec fn borders(a: Set<(int, int)>, b: Set<(int, int)>) -> bool {
    exists|c: (int, int), d: int| 0 <= d < 4 && a.contains(c) && b.contains(#[trigger] shift(c, dir4(d)))
}

/// How two cell sets relate.
pub open spec fn relation(a: Set<(int, int)>, b: Set<(int, int)>) -> Overlap {
    if overlaps(a, b) {
        Overlap::Overlap
    } else if borders(a, b) {
        Overlap::Border
    } else {
        Overlap::Disjoint
    }
}

pub open spec fn abs(v: int) -> int {
    if v < 0 {
        -v
    } else {
        v
    }
}

/// Manhattan distance between two cells.
pub open spec fn manhattan(a: (int, int), b: (int, int)) -> int {
    abs(a.0 - b.0) + abs(a.1 - b.1)
}

/// `m` is the least Manhattan distance between a cell of `a` and a cell of `b`.
pub open spec fn is_min_dist(a: Set<(int, int)>, b: Set<(int, int)>, m: int) -> bool {
    &&& exists|p: (int, int), q: (int, int)| a.contains(p) && b.contains(q) && manhattan(p, q) == m
    &&& forall|p: (int, int), q: (int, int)| a.contains(p) && b.contains(q) ==> manhattan(p, q) >= m
}

/// The gap between two cell sets: -1 when they overlap, 0 when they border,
/// else one less than the least Manhattan distance between their cells.
pub open spec fn gap_ok(a: Set<(int, int)>, b: Set<(int, int)>, g: int) -> bool {
    &&& (g == -1 <==> relation(a, b) == Overlap::Overlap)
    &&& (g == 0 <==> relation(a, b) == Overlap::Border)
    &&& (relation(a, b) == Overlap::Disjoint ==> g >= 1 && is_min_dist(a, b, g + 1))
}


/// The shape placed at `p` stays within `[-MAX_COORD, MAX_COORD]` on both axes.
pub open spec fn fits(sh: Shape, p: Vec2i) -> bool {
    &&& -MAX_COORD <= p.x && p.x + sh.width <= MAX_COORD
    &&& -MAX_COORD <= p.y && p.y + sh.height <= MAX_COORD
}


/// The anchor of an instance as a point.
pub open spec fn anchor(p: Position) -> Vec2i {
    Vec2 { x: p.x, y: p.y }
}

/// The smallest element of a non-empty sequence.
pub open spec fn min_of(s: Seq<int>) -> int
    decreases s.len(),
{
    if s.len() <= 1 {
        s[0]
    } else {
        let m = min_of(s.drop_last());
        if s.last() < m {
            s.last()
        } else {
            m
        }
    }
}

/// The largest element of a non-empty sequence.
pub open spec fn max_of(s: Seq<int>) -> int
    decreases s.len(),
{
    if s.len() <= 1 {
        s[0]
    } else {
        let m = max_of(s.drop_last());
        if s.last() > m {
            s.last()
        } else {
            m
        }
    }
}

/// `min_of` and `max_of` are attained and bound every element.
pub proof fn lemma_min_max(s: Seq<int>)
    requires
        s.len() >= 1,
    ensures
        forall|i: int| 0 <= i < s.len() ==> min_of(s) <= #[trigger] s[i] <= max_of(s),
        exists|i: int| 0 <= i < s.len() && s[i] == min_of(s),
        exists|i: int| 0 <= i < s.len() && s[i] == max_of(s),
    decreases s.len(),
{
    if s.len() > 1 {
        lemma_min_max(s.drop_last());
        assert forall|i: int| 0 <= i < s.len() implies min_of(s) <= #[trigger] s[i] <= max_of(s) by {
            if i < s.len() - 1 {
                assert(s[i] == s.drop_last()[i]);
            }
        }
        let a = choose|i: int| 0 <= i < s.drop_last().len() && s.drop_last()[i] == min_of(s.drop_last());
        let b = choose|i: int| 0 <= i < s.drop_last().len() && s.drop_last()[i] == max_of(s.drop_last());
        assert(s[a] == s.drop_last()[a]);
        assert(s[b] == s.drop_last()[b]);
        assert(s[s.len() - 1] == s.last());
    } else {
        assert(s[0] == min_of(s));
    }
}

/// Rust's division by 2, which rounds toward zero.
pub open spec fn trunc_half(v: int) -> int {
    if v >= 0 {
        v / 2
    } else {
        -((-v) / 2)
    }
}

/// An ordered set of shape instances, one per shape id of the bundle.
pub struct Layout<'a> {
    pub bundle: &'a Bundle,
    pub pos: Vec<Position>,
}

impl Position {
    /// The anchor as a point.
    pub fn p(&self) -> (r: Vec2i)
        ensures
            r.x == self.x,
            r.y == self.y,
    {
        Vec2 { x: self.x, y: self.y }
    }

    /// The instance at the origin, of shape 0 and variant 0.
    pub fn zero() -> (r: Position)
        ensures
            r == (Position { x: 0, y: 0, shape: 0, var: 0 }),
    {
        Position { x: 0, y: 0, shape: 0, var: 0 }
    }
}

/// Whether the cell (x, y) of a shape is filled, for any coordinates.
fn cell_at(sh: &Shape, x: i64, y: i64) -> (r: bool)
    requires
        sh.wf(),
    ensures
        r == sh.cells().contains((x as int, y as int)),
{
    if x < 0 || y < 0 || x >= MAX_SIDE as i64 || y >= MAX_SIDE as i64 {
        proof {
            if sh.cells().contains((x as int, y as int)) {
                let i = choose|i: int| 0 <= i < sh.squares@.len() && #[trigger] sh.squares@[i]@ == (x as int, y as int);
                assert(0 <= sh.squares@[i].x < sh.width);
            }
        }
        false
    } else {
        sh.is_set(x as i32, y as i32)
    }
}

impl<'a> Layout<'a> {
    /// How `shape1` placed at `pos1` relates to `shape2` placed at `pos2`.
    pub fn overlap_status(shape1: &Shape, shape2: &Shape, pos1: &Vec2i, pos2: &Vec2i) -> (r: Overlap)
        requires
            shape1.wf(),
            shape2.wf(),
            fits(*shape1, *pos1),
            fits(*shape2, *pos2),
        ensures
            r == relation(placed(*shape1, pos1@), placed(*shape2, pos2@)),
    {
        let ghost a = placed(*shape1, pos1@);
        let ghost b = placed(*shape2, pos2@);
        if pos1.x > pos2.x + shape2.width || pos2.x > pos1.x + shape1.width || pos1.y > pos2.y
            + shape2.height || pos2.y > pos1.y + shape1.height {
            proof {
                Self::lemma_far_apart(*shape1, *shape2, *pos1, *pos2);
            }
            return Overlap::Disjoint;
        }
        let dx = pos1.x as i64 - pos2.x as i64;
        let dy = pos1.y as i64 - pos2.y as i64;
        let mut i: usize = 0;
        while i < shape1.squares.len()
            invariant
                shape1.wf(),
                shape2.wf(),
                a == placed(*shape1, pos1@),
                b == placed(*shape2, pos2@),
                dx == pos1.x - pos2.x,
                dy == pos1.y - pos2.y,
                0 <= i <= shape1.squares@.len(),
                forall|j: int| 0 <= j < i ==> !b.contains(shift((#[trigger] shape1.squares@[j])@, pos1@)),
            decreases shape1.squares.len() - i,
        {
            let sq = shape1.squares[i];
            assert(0 <= sq.x < MAX_SIDE && 0 <= sq.y < MAX_SIDE);
            if cell_at(shape2, sq.x as i64 + dx, sq.y as i64 + dy) {
                proof {
                    let c = shift(sq@, pos1@);
                    assert(shape1.cells().contains(sq@));
                    assert(a.contains(c));
                    assert(b.contains(c));
                }
                return Overlap::Overlap;
            }
            i = i + 1;
        }
        assert(!overlaps(a, b)) by {
            if overlaps(a, b) {
                let c = choose|c: (int, int)| a.contains(c) && b.contains(c);
                let j = choose|j: int|
                    0 <= j < shape1.squares@.len() && #[trigger] shape1.squares@[j]@ == (c.0 - pos1.x, c.1 - pos1.y);
                assert(shift(shape1.squares@[j]@, pos1@) == c);
            }
        }
        let mut i: usize = 0;
        while i < shape1.squares.len()
            invariant
                shape1.wf(),
                shape2.wf(),
                a == placed(*shape1, pos1@),
                b == placed(*shape2, pos2@),
                dx == pos1.x - pos2.x,
                dy == pos1.y - pos2.y,
                0 <= i <= shape1.squares@.len(),
                !overlaps(a, b),
                forall|j: int, d: int|
                    0 <= j < i && 0 <= d < 4 ==> !b.contains(
                        #[trigger] shift(shift((#[trigger] shape1.squares@[j])@, pos1@), dir4(d)),
                    ),
            decreases shape1.squares.len() - i,
        {
            let sq = shape1.squares[i];
            assert(0 <= sq.x < MAX_SIDE && 0 <= sq.y < MAX_SIDE);
            let mut d: usize = 0;
            while d < 4
                invariant
                    shape1.wf(),
                    shape2.wf(),
                    a == placed(*shape1, pos1@),
                    b == placed(*shape2, pos2@),
                    dx == pos1.x - pos2.x,
                    dy == pos1.y - pos2.y,
                    0 <= i < shape1.squares@.len(),
                    sq == shape1.squares@[i as int],
                    0 <= sq.x < MAX_SIDE && 0 <= sq.y < MAX_SIDE,
                    0 <= d <= 4,
                    !overlaps(a, b),
                    forall|j: int, e: int|
                        (0 <= j < i && 0 <= e < 4) || (j == i && 0 <= e < d) ==> !b.contains(
                            #[trigger] shift(shift((#[trigger] shape1.squares@[j])@, pos1@), dir4(e)),
                        ),
                decreases 4 - d,
            {
                let (ox, oy) = offset4(d);
                if cell_at(shape2, sq.x as i64 + dx + ox as i64, sq.y as i64 + dy + oy as i64) {
                    proof {
                        let c = shift(sq@, pos1@);
                        assert(shape1.cells().contains(sq@));
                        assert(a.contains(c));
                        assert(b.contains(shift(c, dir4(d as int))));
                    }
                    return Overlap::Border;
                }
                d = d + 1;
            }
            i = i + 1;
        }
        assert(!borders(a, b)) by {
            if borders(a, b) {
                let (c, d) = choose|c: (int, int), d: int|
                    0 <= d < 4 && a.contains(c) && b.contains(#[trigger] shift(c, dir4(d)));
                let j = choose|j: int|
                    0 <= j < shape1.squares@.len() && #[trigger] shape1.squares@[j]@ == (c.0 - pos1.x, c.1 - pos1.y);
                assert(shift(shape1.squares@[j]@, pos1@) == c);
            }
        }
        Overlap::Disjoint
    }


    /// Cells closer than 2 are common or share an edge.
    proof fn lemma_close_cells(a: Set<(int, int)>, b: Set<(int, int)>, p: (int, int), q: (int, int))
        requires
            a.contains(p),
            b.contains(q),
            manhattan(p, q) <= 1,
        ensures
            relation(a, b) != Overlap::Disjoint,
    {
        if manhattan(p, q) == 0 {
            assert(p == q);
            assert(overlaps(a, b));
        } else {
            let d: int = if q.0 == p.0 + 1 {
                0
            } else if q.1 == p.1 + 1 {
                1
            } else if q.0 == p.0 - 1 {
                2
            } else {
                3
            };
            assert(shift(p, dir4(d)) == q);
            assert(borders(a, b));
        }
    }

    /// The gap between two placed shapes: -1 when they overlap, 0 when they
    /// border, else one less than the least Manhattan distance between their cells.
    pub fn distance(shape1: &Shape, shape2: &Shape, pos1: &Vec2i, pos2: &Vec2i) -> (r: i64)
        requires
            shape1.wf(),
            shape2.wf(),
            fits(*shape1, *pos1),
            fits(*shape2, *pos2),
        ensures
            gap_ok(placed(*shape1, pos1@), placed(*shape2, pos2@), r as int),
            r <= 4 * MAX_COORD,
    {
        let ghost a = placed(*shape1, pos1@);
        let ghost b = placed(*shape2, pos2@);
        let overlap = Layout::overlap_status(shape1, shape2, pos1, pos2);
        if overlap == Overlap::Border {
            return 0;
        }
        if overlap == Overlap::Overlap {
            return -1;
        }
        let dx = pos1.x as i64 - pos2.x as i64;
        let dy = pos1.y as i64 - pos2.y as i64;
        let mut min_d: i64 = i64::MAX;
        let ghost mut wp: (int, int) = (0, 0);
        let ghost mut wq: (int, int) = (0, 0);
        let mut i: usize = 0;
        while i < shape1.squares.len()
            invariant
                shape1.wf(),
                shape2.wf(),
                a == placed(*shape1, pos1@),
                b == placed(*shape2, pos2@),
                fits(*shape1, *pos1),
                fits(*shape2, *pos2),
                dx == pos1.x - pos2.x,
                dy == pos1.y - pos2.y,
                0 <= i <= shape1.squares@.len(),
                i == 0 ==> min_d == i64::MAX,
                i > 0 ==> min_d <= 4 * MAX_COORD + 1,
                i > 0 ==> a.contains(wp) && b.contains(wq) && manhattan(wp, wq) == min_d,
                0 <= min_d,
                forall|j: int, k: int|
                    0 <= j < i && 0 <= k < shape2.squares@.len() ==> manhattan(
                        shift((#[trigger] shape1.squares@[j])@, pos1@),
                        shift((#[trigger] shape2.squares@[k])@, pos2@),
                    ) >= min_d,
            decreases shape1.squares.len() - i,
        {
            let sq1 = shape1.squares[i];
            assert(0 <= sq1.x < MAX_SIDE && 0 <= sq1.y < MAX_SIDE);
            assert(shape1.cells().contains(sq1@));
            let x = sq1.x as i64 + dx;
            let y = sq1.y as i64 + dy;
            let mut k: usize = 0;
            while k < shape2.squares.len()
                invariant
                    shape1.wf(),
                    shape2.wf(),
                    a == placed(*shape1, pos1@),
                    b == placed(*shape2, pos2@),
                    dx == pos1.x - pos2.x,
                    dy == pos1.y - pos2.y,
                    0 <= i < shape1.squares@.len(),
                    sq1 == shape1.squares@[i as int],
                    a.contains(shift(sq1@, pos1@)),
                    x == sq1.x + dx,
                    y == sq1.y + dy,
                    0 <= k <= shape2.squares@.len(),
                    (i == 0 && k == 0) ==> min_d == i64::MAX,
                    (i > 0 || k > 0) ==> min_d <= 4 * MAX_COORD + 1,
                    fits(*shape1, *pos1),
                    fits(*shape2, *pos2),
                    (i > 0 || k > 0) ==> a.contains(wp) && b.contains(wq) && manhattan(wp, wq) == min_d,
                    0 <= min_d,
                    forall|j: int, l: int|
                        (0 <= j < i && 0 <= l < shape2.squares@.len()) || (j == i && 0 <= l < k) ==> manhattan(
                            shift((#[trigger] shape1.squares@[j])@, pos1@),
                            shift((#[trigger] shape2.squares@[l])@, pos2@),
                        ) >= min_d,
                decreases shape2.squares.len() - k,
            {
                let sq2 = shape2.squares[k];
                assert(0 <= sq2.x < MAX_SIDE && 0 <= sq2.y < MAX_SIDE);
                let ex = x - sq2.x as i64;
                let ey = y - sq2.y as i64;
                let d = (if ex < 0 { -ex } else { ex }) + (if ey < 0 { -ey } else { ey });
                assert(d == manhattan(shift(sq1@, pos1@), shift(sq2@, pos2@)));
                assert(0 <= sq1.x < shape1.width && 0 <= sq1.y < shape1.height);
                assert(0 <= sq2.x < shape2.width && 0 <= sq2.y < shape2.height);
                assert(d <= 4 * MAX_COORD + 1);
                if d < min_d {
                    min_d = d;
                    proof {
                        assert(shape2.cells().contains(sq2@));
                        wp = shift(sq1@, pos1@);
                        wq = shift(sq2@, pos2@);
                        assert(b.contains(wq));
                    }
                }
                k = k + 1;
            }
            i = i + 1;
        }
        proof {
            if min_d <= 1 {
                Self::lemma_close_cells(a, b, wp, wq);
            }
            assert forall|p: (int, int), q: (int, int)| a.contains(p) && b.contains(q) implies manhattan(p, q) >= min_d by {
                let j = choose|j: int|
                    0 <= j < shape1.squares@.len() && #[trigger] shape1.squares@[j]@ == (p.0 - pos1.x, p.1 - pos1.y);
                let l = choose|l: int|
                    0 <= l < shape2.squares@.len() && #[trigger] shape2.squares@[l]@ == (q.0 - pos2.x, q.1 - pos2.y);
                assert(shift(shape1.squares@[j]@, pos1@) == p);
                assert(shift(shape2.squares@[l]@, pos2@) == q);
            }
        }
        min_d - 1
    }

    proof fn lemma_far_apart(shape1: Shape, shape2: Shape, pos1: Vec2i, pos2: Vec2i)
        requires
            shape1.wf(),
            shape2.wf(),
            pos1.x > pos2.x + shape2.width || pos2.x > pos1.x + shape1.width || pos1.y > pos2.y
                + shape2.height || pos2.y > pos1.y + shape1.height,
        ensures
            relation(placed(shape1, pos1@), placed(shape2, pos2@)) == Overlap::Disjoint,
            forall|p: (int, int), q: (int, int)|
                placed(shape1, pos1@).contains(p) && placed(shape2, pos2@).contains(q) ==> manhattan(p, q) >= 2,
    {
        let a = placed(shape1, pos1@);
        let b = placed(shape2, pos2@);
        assert forall|p: (int, int), q: (int, int)| a.contains(p) && b.contains(q) implies manhattan(p, q) >= 2 by {
            let i = choose|i: int|
                0 <= i < shape1.squares@.len() && #[trigger] shape1.squares@[i]@ == (p.0 - pos1.x, p.1 - pos1.y);
            let j = choose|j: int|
                0 <= j < shape2.squares@.len() && #[trigger] shape2.squares@[j]@ == (q.0 - pos2.x, q.1 - pos2.y);
            assert(0 <= shape1.squares@[i].x < shape1.width && 0 <= shape1.squares@[i].y < shape1.height);
            assert(0 <= shape2.squares@[j].x < shape2.width && 0 <= shape2.squares@[j].y < shape2.height);
        }
        Self::lemma_near_means_related(a, b);
    }

    /// Cells at distance 0 are common; cells at distance 1 share an edge.
    proof fn lemma_near_means_related(a: Set<(int, int)>, b: Set<(int, int)>)
        requires
            forall|p: (int, int), q: (int, int)| a.contains(p) && b.contains(q) ==> manhattan(p, q) >= 2,
        ensures
            relation(a, b) == Overlap::Disjoint,
    {
        if overlaps(a, b) {
            let c = choose|c: (int, int)| a.contains(c) && b.contains(c);
            assert(manhattan(c, c) == 0);
        }
        if borders(a, b) {
            let (c, d) = choose|c: (int, int), d: int| 0 <= d < 4 && a.contains(c) && b.contains(#[trigger] shift(c, dir4(d)));
            assert(manhattan(c, shift(c, dir4(d))) == 1);
        }
    }
}

impl<'a> Layout<'a> {
    /// The shape ids in placement order.
    pub open spec fn ids(&self) -> Seq<int> {
        self.pos@.map_values(|p: Position| p.shape as int)
    }

    /// One instance per shape id of a well-formed bundle, each id once.
    pub open spec fn wf(&self) -> bool {
        &&& self.bundle.wf()
        &&& self.pos@.len() == self.bundle.len()
        &&& forall|i: int| 0 <= i < self.pos@.len() ==> (#[trigger] self.pos@[i]).shape < self.bundle.len()
        &&& forall|i: int, j: int|
            0 <= i < self.pos@.len() && 0 <= j < self.pos@.len() && i != j ==> (#[trigger] self.pos@[i]).shape
                != (#[trigger] self.pos@[j]).shape
    }

    /// The variant drawn by instance `i`.
    pub open spec fn shape_at(&self, i: int) -> Shape {
        self.bundle.shape(self.pos@[i].shape as int, self.pos@[i].var as int)
    }

    /// The cells that instance `i` covers.
    pub open spec fn cells_at(&self, i: int) -> Set<(int, int)> {
        placed(self.shape_at(i), anchor(self.pos@[i])@)
    }

    /// Well-formed, every variant number valid, every instance inside the
    /// coordinate range.
    pub open spec fn placeable(&self) -> bool {
        &&& self.wf()
        &&& forall|i: int|
            0 <= i < self.pos@.len() ==> (#[trigger] self.pos@[i]).var < self.bundle.variants@[self.pos@[i].shape as int]@.len()
        &&& forall|i: int| 0 <= i < self.pos@.len() ==> fits(#[trigger] self.shape_at(i), anchor(self.pos@[i]))
    }

    pub open spec fn lefts(&self) -> Seq<int> {
        Seq::new(self.pos@.len(), |i: int| self.pos@[i].x as int)
    }

    pub open spec fn tops(&self) -> Seq<int> {
        Seq::new(self.pos@.len(), |i: int| self.pos@[i].y as int)
    }

    pub open spec fn rights(&self) -> Seq<int> {
        Seq::new(self.pos@.len(), |i: int| self.pos@[i].x + self.shape_at(i).width)
    }

    pub open spec fn bottoms(&self) -> Seq<int> {
        Seq::new(self.pos@.len(), |i: int| self.pos@[i].y + self.shape_at(i).height)
    }

    /// Each shape id at the origin with variant 0, ids in increasing order.
    pub fn new(bundle: &'a Bundle) -> (r: Layout<'a>)
        requires
            bundle.wf(),
        ensures
            r.bundle == bundle,
            r.pos@.len() == bundle.len(),
            forall|i: int| 0 <= i < r.pos@.len() ==> #[trigger] r.pos@[i] == (Position { x: 0, y: 0, shape: i as u16, var: 0 }),
            r.placeable(),
    {
        let mut pos: Vec<Position> = Vec::new();
        let n = bundle.variants.len();
        let mut i: usize = 0;
        while i < n
            invariant
                bundle.wf(),
                n == bundle.len(),
                0 <= i <= n,
                pos@.len() == i,
                forall|k: int| 0 <= k < i ==> #[trigger] pos@[k] == (Position { x: 0, y: 0, shape: k as u16, var: 0 }),
            decreases n - i,
        {
            pos.push(Position { shape: i as u16, ..Position::zero() });
            i = i + 1;
        }
        let r = Layout { bundle: bundle, pos: pos };
        assert forall|k: int| 0 <= k < r.pos@.len() implies fits(#[trigger] r.shape_at(k), anchor(r.pos@[k])) by {
            assert(r.pos@[k].shape == k);
            assert(r.bundle.variants@[k]@[0].wf());
        }
        r
    }

    /// The variant that an instance draws.
    pub fn shape_by_pos(&self, pos: &Position) -> (r: &'a Shape)
        requires
            self.bundle.wf(),
            pos.shape < self.bundle.len(),
            pos.var < self.bundle.variants@[pos.shape as int]@.len(),
        ensures
            *r == self.bundle.shape(pos.shape as int, pos.var as int),
            r.wf(),
    {
        let b: &'a Bundle = self.bundle;
        &b.variants[pos.shape as usize][pos.var as usize]
    }

    /// The box that covers every placed shape: the smallest anchor coordinates,
    /// and the largest anchor coordinates plus extents (one past the last cell).
    pub fn bounds(&self) -> (r: (Vec2i, Vec2i))
        requires
            self.placeable(),
        ensures
            r.0.x == min_of(self.lefts()),
            r.0.y == min_of(self.tops()),
            r.1.x == max_of(self.rights()),
            r.1.y == max_of(self.bottoms()),
    {
        let p0 = self.pos[0];
        let sh0 = self.shape_by_pos(&p0);
        assert(fits(self.shape_at(0), anchor(self.pos@[0])));
        let mut lt = Vec2 { x: p0.x, y: p0.y };
        let mut rb = Vec2 { x: p0.x + sh0.width, y: p0.y + sh0.height };
        assert(self.lefts().take(1) =~= seq![p0.x as int]);
        assert(self.tops().take(1) =~= seq![p0.y as int]);
        assert(self.rights().take(1) =~= seq![p0.x + sh0.width]);
        assert(self.bottoms().take(1) =~= seq![p0.y + sh0.height]);
        let mut i: usize = 1;
        while i < self.pos.len()
            invariant
                self.placeable(),
                1 <= i <= self.pos@.len(),
                lt.x == min_of(self.lefts().take(i as int)),
                lt.y == min_of(self.tops().take(i as int)),
                rb.x == max_of(self.rights().take(i as int)),
                rb.y == max_of(self.bottoms().take(i as int)),
            decreases self.pos.len() - i,
        {
            let p = self.pos[i];
            let sh = self.shape_by_pos(&p);
            assert(fits(self.shape_at(i as int), anchor(self.pos@[i as int])));
            let r = p.x + sh.width;
            let b = p.y + sh.height;
            if p.x < lt.x {
                lt.x = p.x;
            }
            if p.y < lt.y {
                lt.y = p.y;
            }
            if r > rb.x {
                rb.x = r;
            }
            if b > rb.y {
                rb.y = b;
            }
            assert(self.lefts().take(i as int + 1).drop_last() =~= self.lefts().take(i as int));
            assert(self.tops().take(i as int + 1).drop_last() =~= self.tops().take(i as int));
            assert(self.rights().take(i as int + 1).drop_last() =~= self.rights().take(i as int));
            assert(self.bottoms().take(i as int + 1).drop_last() =~= self.bottoms().take(i as int));
            i = i + 1;
        }
        assert(self.lefts().take(i as int) =~= self.lefts());
        assert(self.tops().take(i as int) =~= self.tops());
        assert(self.rights().take(i as int) =~= self.rights());
        assert(self.bottoms().take(i as int) =~= self.bottoms());
        (lt, rb)
    }
}

impl<'a> Layout<'a> {
    /// `self` is `before` with every instance moved so that the bounding box is
    /// centred on the origin (the centre rounded toward zero).
    pub open spec fn centred_from(&self, before: Layout<'a>) -> bool {
        &&& self.bundle == before.bundle
        &&& self.pos@.len() == before.pos@.len()
        &&& forall|i: int| 0 <= i < before.pos@.len() ==> #[trigger] self.pos@[i] == (Position {
            x: (before.pos@[i].x - trunc_half(max_of(before.rights()) + min_of(before.lefts()))) as i32,
            y: (before.pos@[i].y - trunc_half(max_of(before.bottoms()) + min_of(before.tops()))) as i32,
            ..before.pos@[i]
        })
    }

    /// Moves every instance by the same offset so that the bounding box is
    /// centred on the origin (the centre rounded toward zero).
    pub fn center(&mut self)
        requires
            old(self).placeable(),
        ensures
            final(self).placeable(),
            final(self).centred_from(*old(self)),
    {
        let (lt, rb) = self.bounds();
        proof {
            lemma_min_max(self.lefts());
            lemma_min_max(self.tops());
            lemma_min_max(self.rights());
            lemma_min_max(self.bottoms());
            let a = choose|i: int| 0 <= i < self.lefts().len() && self.lefts()[i] == min_of(self.lefts());
            assert(fits(self.shape_at(a), anchor(self.pos@[a])));
            let b = choose|i: int| 0 <= i < self.rights().len() && self.rights()[i] == max_of(self.rights());
            assert(fits(self.shape_at(b), anchor(self.pos@[b])));
            let c = choose|i: int| 0 <= i < self.tops().len() && self.tops()[i] == min_of(self.tops());
            assert(fits(self.shape_at(c), anchor(self.pos@[c])));
            let d = choose|i: int| 0 <= i < self.bottoms().len() && self.bottoms()[i] == max_of(self.bottoms());
            assert(fits(self.shape_at(d), anchor(self.pos@[d])));
        }
        let sx = rb.x as i64 + lt.x as i64;
        let sy = rb.y as i64 + lt.y as i64;
        let cx: i64 = if sx >= 0 { sx / 2 } else { -((-sx) / 2) };
        let cy: i64 = if sy >= 0 { sy / 2 } else { -((-sy) / 2) };
        let ghost pre = *self;
        let mut i: usize = 0;
        while i < self.pos.len()
            invariant
                pre.placeable(),
                self.bundle == pre.bundle,
                self.pos@.len() == pre.pos@.len(),
                0 <= i <= self.pos@.len(),
                cx == trunc_half(max_of(pre.rights()) + min_of(pre.lefts())),
                cy == trunc_half(max_of(pre.bottoms()) + min_of(pre.tops())),
                lt.x == min_of(pre.lefts()),
                lt.y == min_of(pre.tops()),
                rb.x == max_of(pre.rights()),
                rb.y == max_of(pre.bottoms()),
                -MAX_COORD <= lt.x,
                -MAX_COORD <= lt.y,
                rb.x <= MAX_COORD,
                rb.y <= MAX_COORD,
                forall|k: int| 0 <= k < pre.pos@.len() ==> lt.x <= #[trigger] pre.lefts()[k] && pre.rights()[k] <= rb.x,
                forall|k: int| 0 <= k < pre.pos@.len() ==> lt.y <= #[trigger] pre.tops()[k] && pre.bottoms()[k] <= rb.y,
                forall|k: int| 0 <= k < i ==> #[trigger] self.pos@[k] == (Position {
                    x: (pre.pos@[k].x - cx) as i32,
                    y: (pre.pos@[k].y - cy) as i32,
                    ..pre.pos@[k]
                }),
                forall|k: int| i <= k < self.pos@.len() ==> #[trigger] self.pos@[k] == pre.pos@[k],
            decreases self.pos.len() - i,
        {
            let p = self.pos[i];
            assert(pre.lefts()[i as int] == p.x);
            assert(pre.tops()[i as int] == p.y);
            let q = Position { x: (p.x as i64 - cx) as i32, y: (p.y as i64 - cy) as i32, ..p };
            self.pos.set(i, q);
            i = i + 1;
        }
        assert forall|k: int| 0 <= k < self.pos@.len() implies fits(#[trigger] self.shape_at(k), anchor(self.pos@[k])) by {
            assert(self.shape_at(k) == pre.shape_at(k));
            assert(pre.lefts()[k] == pre.pos@[k].x);
            assert(pre.rights()[k] == pre.pos@[k].x + pre.shape_at(k).width);
            assert(pre.tops()[k] == pre.pos@[k].y);
            assert(pre.bottoms()[k] == pre.pos@[k].y + pre.shape_at(k).height);
        }
    }
}

/// Marks in a bitmap the cells of `sh` moved by (dx, dy).
fn mark_shape(mask: &mut Vec<Vec<bool>>, sh: &Shape, dx: i32, dy: i32, w: i32, h: i32)
    requires
        sh.wf(),
        is_grid(old(mask)@, w as int, h as int),
        0 <= dx,
        0 <= dy,
        dx + sh.width <= w,
        dy + sh.height <= h,
    ensures
        is_grid(final(mask)@, w as int, h as int),
        forall|x: int, y: int|
            in_grid(w as int, h as int, (x, y)) ==> (#[trigger] final(mask)@[y]@[x] <==> old(mask)@[y]@[x]
                || sh.cells().contains((x - dx, y - dy))),
{
    let ghost m0 = mask@;
    let mut j: usize = 0;
    while j < sh.squares.len()
        invariant
            sh.wf(),
            is_grid(m0, w as int, h as int),
            is_grid(mask@, w as int, h as int),
            0 <= dx,
            0 <= dy,
            dx + sh.width <= w,
            dy + sh.height <= h,
            0 <= j <= sh.squares@.len(),
            forall|x: int, y: int|
                in_grid(w as int, h as int, (x, y)) ==> (#[trigger] mask@[y]@[x] <==> m0[y]@[x] || exists|k: int|
                    0 <= k < j && #[trigger] sh.squares@[k]@ == (x - dx, y - dy)),
        decreases sh.squares.len() - j,
    {
        let q = sh.squares[j];
        assert(0 <= q.x < sh.width && 0 <= q.y < sh.height);
        let x = (q.x + dx) as usize;
        let y = (q.y + dy) as usize;
        let ghost pre = mask@;
        let mut row = mask[y].clone();
        assert(row@ =~= mask@[y as int]@);
        row.set(x, true);
        mask.set(y, row);
        assert forall|a: int, b: int| in_grid(w as int, h as int, (a, b)) implies (#[trigger] mask@[b]@[a] <==> m0[b]@[a]
            || exists|k: int| 0 <= k < j + 1 && #[trigger] sh.squares@[k]@ == (a - dx, b - dy)) by {
            if a == x && b == y {
                assert(sh.squares@[j as int]@ == (a - dx, b - dy));
            } else {
                assert(mask@[b]@[a] == pre[b]@[a]);
                if exists|k: int| 0 <= k < j + 1 && #[trigger] sh.squares@[k]@ == (a - dx, b - dy) {
                    let k = choose|k: int| 0 <= k < j + 1 && #[trigger] sh.squares@[k]@ == (a - dx, b - dy);
                    assert(k != j);
                }
            }
        }
        j = j + 1;
    }
}

impl<'a> Layout<'a> {
    /// Every cell covered by some instance.
    pub open spec fn occupied(&self) -> Set<(int, int)> {
        Set::new(|c: (int, int)| exists|i: int| 0 <= i < self.pos@.len() && #[trigger] self.cells_at(i).contains(c))
    }

    /// The corner of the fill grid: the smallest anchor coordinates.
    pub open spec fn grid_origin(&self) -> (int, int) {
        (min_of(self.lefts()), min_of(self.tops()))
    }

    /// Width and height of the fill grid: the bounding box and one more column
    /// and row.
    pub open spec fn grid_size(&self) -> (int, int) {
        (max_of(self.rights()) - min_of(self.lefts()) + 1, max_of(self.bottoms()) - min_of(self.tops()) + 1)
    }

    /// The covered cells in grid coordinates.
    pub open spec fn grid_occ(&self) -> Set<(int, int)> {
        let o = self.grid_origin();
        Set::new(|c: (int, int)| self.occupied().contains((c.0 + o.0, c.1 + o.1)))
    }

    /// Where the fill starts, in grid coordinates.
    pub open spec fn grid_seed(&self) -> (int, int) {
        fill_seed(self.grid_occ(), self.grid_size().0, self.grid_size().1)
    }

    /// The fill from the seed never reaches the edge of the grid: the shapes
    /// enclose a hole.
    pub open spec fn is_enclosed(&self) -> bool {
        enclosed(self.grid_occ(), self.grid_size().0, self.grid_size().1, self.grid_seed())
    }

    /// The cells the fill reaches, in layout coordinates.
    pub open spec fn hole(&self) -> Set<(int, int)> {
        let o = self.grid_origin();
        let reg = region(self.grid_occ(), self.grid_size().0, self.grid_size().1, self.grid_seed());
        Set::new(|c: (int, int)| reg.contains((c.0 - o.0, c.1 - o.1)))
    }

    /// Fills the empty cells of the bounding box (grown by one column and row)
    /// from its centre, or from the first empty neighbour of the centre, over
    /// the eight neighbours. Gives the cells reached, in layout coordinates and
    /// in increasing order, when the fill never touches the edge of the box,
    /// and nothing otherwise.
    pub fn flood_fill(&self) -> (r: Option<Vec<Vec2i>>)
        requires
            self.placeable(),
        ensures
            self.fill_outcome(r),
            r matches Some(v) ==> v@.len() <= self.grid_size().0 * self.grid_size().1,
            r matches Some(v) ==> forall|j: int| 0 <= j < v@.len() ==> in_grid(
                self.grid_size().0,
                self.grid_size().1,
                ((#[trigger] v@[j]).x - self.grid_origin().0, v@[j].y - self.grid_origin().1),
            ),
            1 <= self.grid_size().0 <= 2 * MAX_COORD + 1,
            1 <= self.grid_size().1 <= 2 * MAX_COORD + 1,
    {
        let (lt, rb) = self.bounds();
        proof {
            lemma_min_max(self.lefts());
            lemma_min_max(self.tops());
            lemma_min_max(self.rights());
            lemma_min_max(self.bottoms());
            let a = choose|i: int| 0 <= i < self.lefts().len() && self.lefts()[i] == min_of(self.lefts());
            assert(fits(self.shape_at(a), anchor(self.pos@[a])));
            let b = choose|i: int| 0 <= i < self.rights().len() && self.rights()[i] == max_of(self.rights());
            assert(fits(self.shape_at(b), anchor(self.pos@[b])));
            let c = choose|i: int| 0 <= i < self.tops().len() && self.tops()[i] == min_of(self.tops());
            assert(fits(self.shape_at(c), anchor(self.pos@[c])));
            let d = choose|i: int| 0 <= i < self.bottoms().len() && self.bottoms()[i] == max_of(self.bottoms());
            assert(fits(self.shape_at(d), anchor(self.pos@[d])));
            assert(self.shape_at(0).wf());
            assert(self.lefts()[0] < self.rights()[0]);
            assert(self.tops()[0] < self.bottoms()[0]);
        }
        let w = rb.x - lt.x + 1;
        let h = rb.y - lt.y + 1;
        let ghost o = self.grid_origin();
        let mut mask: Vec<Vec<bool>> = Vec::new();
        let mut y: i32 = 0;
        while y < h
            invariant
                0 <= y <= h,
                1 <= w,
                mask@.len() == y,
                forall|k: int| 0 <= k < y ==> (#[trigger] mask@[k])@.len() == w,
                forall|k: int, x: int| 0 <= k < y && 0 <= x < w ==> !(#[trigger] mask@[k]@[x]),
            decreases h - y,
        {
            let mut row: Vec<bool> = Vec::new();
            let mut x: i32 = 0;
            while x < w
                invariant
                    0 <= x <= w,
                    row@.len() == x,
                    forall|k: int| 0 <= k < x ==> !(#[trigger] row@[k]),
                decreases w - x,
            {
                row.push(false);
                x = x + 1;
            }
            mask.push(row);
            y = y + 1;
        }
        let mut i: usize = 0;
        while i < self.pos.len()
            invariant
                self.placeable(),
                o == self.grid_origin(),
                lt.x == o.0,
                lt.y == o.1,
                w == self.grid_size().0,
                h == self.grid_size().1,
                1 <= w < i32::MAX,
                1 <= h < i32::MAX,
                forall|k: int| 0 <= k < self.pos@.len() ==> lt.x <= #[trigger] self.lefts()[k] && self.rights()[k] <= rb.x,
                forall|k: int| 0 <= k < self.pos@.len() ==> lt.y <= #[trigger] self.tops()[k] && self.bottoms()[k] <= rb.y,
                rb.x - lt.x + 1 == w,
                rb.y - lt.y + 1 == h,
                0 <= i <= self.pos@.len(),
                is_grid(mask@, w as int, h as int),
                forall|x: int, y: int|
                    in_grid(w as int, h as int, (x, y)) ==> (#[trigger] mask@[y]@[x] <==> exists|k: int|
                        0 <= k < i && #[trigger] self.cells_at(k).contains((x + o.0, y + o.1))),
            decreases self.pos.len() - i,
        {
            let p = self.pos[i];
            let sh = self.shape_by_pos(&p);
            assert(self.lefts()[i as int] == p.x && self.tops()[i as int] == p.y);
            assert(self.rights()[i as int] == p.x + sh.width && self.bottoms()[i as int] == p.y + sh.height);
            let ghost pre = mask@;
            mark_shape(&mut mask, sh, p.x - lt.x, p.y - lt.y, w, h);
            assert forall|x: int, y: int| in_grid(w as int, h as int, (x, y)) implies (#[trigger] mask@[y]@[x] <==> exists|k: int|
                0 <= k < i + 1 && #[trigger] self.cells_at(k).contains((x + o.0, y + o.1))) by {
                assert(self.cells_at(i as int).contains((x + o.0, y + o.1)) <==> sh.cells().contains((x - (p.x - lt.x), y - (p.y - lt.y))));
                if exists|k: int| 0 <= k < i + 1 && #[trigger] self.cells_at(k).contains((x + o.0, y + o.1)) {
                    let k = choose|k: int| 0 <= k < i + 1 && #[trigger] self.cells_at(k).contains((x + o.0, y + o.1));
                    if k < i {
                        assert(pre[y]@[x]);
                    }
                }
            }
            i = i + 1;
        }
        let ghost occ = self.grid_occ();
        proof {
            assert forall|c: (int, int)| #[trigger] occ.contains(c) implies in_grid(w as int, h as int, c) by {
                let k = choose|k: int| 0 <= k < self.pos@.len() && #[trigger] self.cells_at(k).contains((c.0 + o.0, c.1 + o.1));
                let sh = self.shape_at(k);
                let q = (c.0 + o.0 - self.pos@[k].x, c.1 + o.1 - self.pos@[k].y);
                let j = choose|j: int| 0 <= j < sh.squares@.len() && #[trigger] sh.squares@[j]@ == q;
                assert(sh.wf());
                assert(0 <= sh.squares@[j].x < sh.width && 0 <= sh.squares@[j].y < sh.height);
                assert(self.lefts()[k] == self.pos@[k].x && self.tops()[k] == self.pos@[k].y);
                assert(self.rights()[k] == self.pos@[k].x + sh.width);
                assert(self.bottoms()[k] == self.pos@[k].y + sh.height);
            }
            assert(mask_set(mask@) =~= occ);
        }
        // the starting cell
        let mut sx = w / 2;
        let mut sy = h / 2;
        let ghost c0 = (sx as int, sy as int);
        if mask[sy as usize][sx as usize] {
            let mut d: usize = 0;
            let mut found = false;
            while d < 8 && !found
                invariant
                    is_grid(mask@, w as int, h as int),
                    mask_set(mask@) == occ,
                    1 <= w < i32::MAX,
                    1 <= h < i32::MAX,
                    0 <= d <= 8,
                    in_grid(w as int, h as int, c0),
                    !found ==> (sx as int, sy as int) == c0 && first_free_nbr(occ, w as int, h as int, c0, 0)
                        == first_free_nbr(occ, w as int, h as int, c0, d as int),
                    found ==> (sx as int, sy as int) == first_free_nbr(occ, w as int, h as int, c0, 0),
                    in_grid(w as int, h as int, (sx as int, sy as int)),
                decreases 8 - d,
            {
                let (ox, oy) = offset8(d);
                let cx = sx + ox;
                let cy = sy + oy;
                if cx >= 0 && cy >= 0 && cx < w && cy < h && !mask[cy as usize][cx as usize] {
                    assert(free(occ, w as int, h as int, shift(c0, dir8(d as int))));
                    sx = cx;
                    sy = cy;
                    found = true;
                    d = 8;
                } else {
                    assert(!free(occ, w as int, h as int, shift(c0, dir8(d as int))));
                    d = d + 1;
                }
            }
        }
        assert((sx as int, sy as int) == self.grid_seed());
        let filled = fill_grid(mask, w, h, Vec2 { x: sx, y: sy });
        match filled {
            None => None,
            Some(v) => {
                let ghost reg = region(occ, w as int, h as int, (sx as int, sy as int));
                proof {
                    assert forall|j: int| 0 <= j < v@.len() implies in_grid(w as int, h as int, (#[trigger] v@[j])@) by {
                        assert(pts(v@).contains(v@[j]@));
                        let p = choose|p: Seq<(int, int)>| #[trigger] crate::fill::is_fill_path(occ, w as int, h as int, (sx as int, sy as int), p)
                            && p.last() == v@[j]@;
                        if p.len() > 1 {
                            assert(free(occ, w as int, h as int, p[p.len() - 1]));
                        }
                    }
                }
                let mut out: Vec<Vec2i> = Vec::new();
                let mut k: usize = 0;
                while k < v.len()
                    invariant
                        0 <= k <= v@.len(),
                        out@.len() == k,
                        1 <= w < i32::MAX,
                        1 <= h < i32::MAX,
                        -MAX_COORD <= lt.x && -MAX_COORD <= lt.y,
                        lt.x + w <= MAX_COORD + 1 && lt.y + h <= MAX_COORD + 1,
                        forall|j: int| 0 <= j < v@.len() ==> in_grid(w as int, h as int, (#[trigger] v@[j])@),
                        forall|j: int| 0 <= j < k ==> (#[trigger] out@[j])@ == (v@[j].x + lt.x, v@[j].y + lt.y),
                    decreases v.len() - k,
                {
                    let q = v[k];
                    assert(in_grid(w as int, h as int, v@[k as int]@));
                    out.push(Vec2 { x: q.x + lt.x, y: q.y + lt.y });
                    k = k + 1;
                }
                proof {
                    assert forall|a: int, b: int| 0 <= a < out@.len() && 0 <= b < out@.len() && a != b implies out@[a] != out@[b] by {
                        assert(v@[a] != v@[b]);
                    }
                    assert forall|c: (int, int)| #[trigger] pts(out@).contains(c) <==> self.hole().contains(c) by {
                        let lc = (c.0 - o.0, c.1 - o.1);
                        if pts(out@).contains(c) {
                            let j = choose|j: int| 0 <= j < out@.len() && #[trigger] out@[j]@ == c;
                            assert(v@[j]@ == lc);
                            assert(pts(v@).contains(lc));
                        }
                        if self.hole().contains(c) {
                            assert(reg.contains(lc));
                            assert(pts(v@).contains(lc));
                            let j = choose|j: int| 0 <= j < v@.len() && #[trigger] v@[j]@ == lc;
                            assert(out@[j]@ == c);
                        }
                    }
                    assert(pts(out@) =~= self.hole());
                }
                let sorted = sort_points(&out);
                proof {
                    lemma_sorted_no_dups(sorted@);
                    lemma_pts_len(sorted@);
                    lemma_pts_len(out@);
                    assert forall|j: int| 0 <= j < sorted@.len() implies in_grid(
                        self.grid_size().0,
                        self.grid_size().1,
                        ((#[trigger] sorted@[j]).x - self.grid_origin().0, sorted@[j].y - self.grid_origin().1),
                    ) by {
                        assert(pts(out@).contains(sorted@[j]@));
                        let k = choose|k: int| 0 <= k < out@.len() && #[trigger] out@[k]@ == sorted@[j]@;
                        assert(in_grid(w as int, h as int, v@[k]@));
                    }
                }
                Some(sorted)
            },
        }
    }
}

/// The gap between two cell sets, as `gap_ok` pins it down.
pub open spec fn gap(a: Set<(int, int)>, b: Set<(int, int)>) -> int {
    match relation(a, b) {
        Overlap::Overlap => -1,
        Overlap::Border => 0,
        Overlap::Disjoint => (choose|m: int| is_min_dist(a, b, m)) - 1,
    }
}

/// `gap_ok` allows exactly one value: `gap`.
pub proof fn lemma_gap_unique(a: Set<(int, int)>, b: Set<(int, int)>, g: int)
    requires
        gap_ok(a, b, g),
    ensures
        g == gap(a, b),
{
    if relation(a, b) == Overlap::Disjoint {
        assert(is_min_dist(a, b, g + 1));
        let m = choose|m: int| is_min_dist(a, b, m);
        let (p, q) = choose|p: (int, int), q: (int, int)| a.contains(p) && b.contains(q) && manhattan(p, q) == m;
        let (p2, q2) = choose|p: (int, int), q: (int, int)| a.contains(p) && b.contains(q) && manhattan(p, q) == g + 1;
        assert(manhattan(p, q) >= g + 1);
        assert(manhattan(p2, q2) >= m);
    }
}

/// A shape placed on itself overlaps itself.
pub proof fn lemma_same_place_overlaps(s: Shape, p: Vec2i)
    requires
        s.wf(),
    ensures
        relation(placed(s, p@), placed(s, p@)) == Overlap::Overlap,
{
    let i = choose|i: int| 0 <= i < s.squares@.len() && #[trigger] s.squares@[i].x == s.width - 1;
    assert(s.cells().contains(s.squares@[i]@));
    let c = shift(s.squares@[i]@, p@);
    assert(placed(s, p@).contains(c));
}

/// `relation` does not depend on the order of its arguments.
pub proof fn lemma_relation_symmetric(a: Set<(int, int)>, b: Set<(int, int)>)
    ensures
        relation(a, b) == relation(b, a),
{
    if overlaps(a, b) {
        let c = choose|c: (int, int)| a.contains(c) && b.contains(c);
        assert(b.contains(c) && a.contains(c));
    }
    if overlaps(b, a) {
        let c = choose|c: (int, int)| b.contains(c) && a.contains(c);
        assert(a.contains(c) && b.contains(c));
    }
    if borders(a, b) {
        let (c, d) = choose|c: (int, int), d: int| 0 <= d < 4 && a.contains(c) && b.contains(#[trigger] shift(c, dir4(d)));
        let e = (d + 2) % 4;
        assert(shift(shift(c, dir4(d)), dir4(e)) == c);
    }
    if borders(b, a) {
        let (c, d) = choose|c: (int, int), d: int| 0 <= d < 4 && b.contains(c) && a.contains(#[trigger] shift(c, dir4(d)));
        let e = (d + 2) % 4;
        assert(shift(shift(c, dir4(d)), dir4(e)) == c);
    }
}

impl<'a> Layout<'a> {
    /// The gap between instance `i` and the next one, the last one's next being
    /// the first.
    pub open spec fn gap_after(&self, i: int) -> int {
        gap(self.cells_at(i), self.cells_at((i + 1) % self.pos@.len() as int))
    }

    /// The sum of the absolute gaps after the first `k` instances.
    pub open spec fn gap_total(&self, k: int) -> int
        decreases k,
    {
        if k <= 0 {
            0
        } else {
            self.gap_total(k - 1) + abs(self.gap_after(k - 1))
        }
    }

    /// The fitness of a layout: the size of the hole when the shapes enclose
    /// one, else minus the total gap between neighbouring instances.
    pub open spec fn score_spec(&self) -> int {
        if self.is_enclosed() {
            self.hole().len() as int
        } else {
            -self.gap_total(self.pos@.len() as int)
        }
    }

    /// Scores the layout: the number of cells of the enclosed hole, or, when
    /// there is none, minus the sum of the absolute gaps between each instance
    /// and the next (the last one's next being the first).
    pub fn score(&self) -> (r: i64)
        requires
            self.placeable(),
        ensures
            r == self.score_spec(),
            self.is_enclosed() ==> r >= 1,
            !self.is_enclosed() ==> r <= 0,
    {
        let n = self.pos.len();
        match self.flood_fill() {
            Some(v) => {
                proof {
                    lemma_sorted_no_dups(v@);
                    lemma_pts_len(v@);
                    let o = self.grid_origin();
                    let s = self.grid_seed();
                    let reg = region(self.grid_occ(), self.grid_size().0, self.grid_size().1, s);
                    assert(crate::fill::is_fill_path(self.grid_occ(), self.grid_size().0, self.grid_size().1, s, seq![s]));
                    assert(reg.contains(s));
                    assert(self.hole().contains((s.0 + o.0, s.1 + o.1)));
                    assert(pts(v@).contains((s.0 + o.0, s.1 + o.1)));
                    let k = choose|k: int| 0 <= k < v@.len() && #[trigger] v@[k]@ == (s.0 + o.0, s.1 + o.1);
                    assert(self.is_enclosed());
                    assert(self.score_spec() == v@.len());
                    let (gw, gh) = self.grid_size();
                    assert(gw * gh <= 0x0100_0000_0000_0000) by (nonlinear_arith)
                        requires
                            1 <= gw <= 0x1000_0000,
                            1 <= gh <= 0x1000_0000,
                    ;
                    assert(v@.len() <= gw * gh);
                    assert(v@.len() < 0x7fff_ffff_ffff_ffffint);
                }
                let r = v.len() as i64;
                assert(r == v@.len());
                assert(r == self.score_spec());
                assert(r >= 1);
                r
            },
            None => {
                let mut total: i64 = 0;
                let mut i: usize = 0;
                while i < n
                    invariant
                        self.placeable(),
                        n == self.pos@.len(),
                        0 <= i <= n,
                        n <= 0x10000,
                        0 <= total <= i * (4 * MAX_COORD + 1),
                        total == self.gap_total(i as int),
                    decreases n - i,
                {
                    let p = self.pos[i];
                    let j = (i + 1) % n;
                    let q = self.pos[j];
                    let sp = self.shape_by_pos(&p);
                    let sq = self.shape_by_pos(&q);
                    assert(fits(self.shape_at(i as int), anchor(self.pos@[i as int])));
                    assert(fits(self.shape_at(j as int), anchor(self.pos@[j as int])));
                    let g = Layout::distance(sp, sq, &p.p(), &q.p());
                    proof {
                        lemma_gap_unique(self.cells_at(i as int), self.cells_at(j as int), g as int);
                        assert(total + abs(g as int) <= (i + 1) * (4 * MAX_COORD + 1)) by (nonlinear_arith)
                            requires
                                total <= i * (4 * MAX_COORD + 1),
                                abs(g as int) <= 4 * MAX_COORD + 1,
                        ;
                    }
                    proof {
                        assert((i + 1) * (4 * MAX_COORD + 1) <= 0x10000 * (4 * MAX_COORD + 1)) by (nonlinear_arith)
                            requires
                                i + 1 <= 0x10000,
                        ;
                        assert(self.gap_after(i as int) == g);
                    }
                    total = total + if g < 0 { -g } else { g };
                    i = i + 1;
                }
                assert(!self.is_enclosed());
                assert(-total == self.score_spec());
                -total
            },
        }
    }
}

/// `o` is the smallest `x` and the smallest `y` of the cells of `s`.
pub open spec fn is_corner(s: Set<(int, int)>, o: (int, int)) -> bool {
    &&& forall|c: (int, int)| s.contains(c) ==> c.0 >= o.0 && c.1 >= o.1
    &&& exists|c: (int, int)| s.contains(c) && c.0 == o.0
    &&& exists|c: (int, int)| s.contains(c) && c.1 == o.1
}

impl<'a> Layout<'a> {
    /// The hole of an enclosed layout as a shape of its own, moved to the
    /// origin, with the offset where it sits in the layout; nothing when the
    /// layout is open.
    pub fn extract_core(&self) -> (r: Option<(Shape, Vec2i)>)
        requires
            self.placeable(),
        ensures
            r is Some <==> self.is_enclosed(),
            r matches Some(core) ==> {
                &&& core.0.wf()
                &&& is_corner(self.hole(), core.1@)
                &&& core.0.cells() == Set::new(|c: (int, int)| self.hole().contains((c.0 + core.1.x, c.1 + core.1.y)))
            },
    {
        match self.flood_fill() {
            None => None,
            Some(v) => {
                let ghost hole = self.hole();
                let ghost (gw, gh) = self.grid_size();
                let ghost o = self.grid_origin();
                proof {
                    let s = self.grid_seed();
                    let reg = region(self.grid_occ(), gw, gh, s);
                    assert(crate::fill::is_fill_path(self.grid_occ(), gw, gh, s, seq![s]));
                    assert(reg.contains(s));
                    assert(hole.contains((s.0 + o.0, s.1 + o.1)));
                    assert(pts(v@).contains((s.0 + o.0, s.1 + o.1)));
                }
                let mut cx = v[0].x;
                let mut cy = v[0].y;
                let mut ix: usize = 0;
                let mut iy: usize = 0;
                let mut i: usize = 1;
                while i < v.len()
                    invariant
                        1 <= i <= v@.len(),
                        ix < i && iy < i,
                        v@[ix as int].x == cx,
                        v@[iy as int].y == cy,
                        forall|k: int| 0 <= k < i ==> cx <= (#[trigger] v@[k]).x && cy <= v@[k].y,
                    decreases v.len() - i,
                {
                    if v[i].x < cx {
                        cx = v[i].x;
                        ix = i;
                    }
                    if v[i].y < cy {
                        cy = v[i].y;
                        iy = i;
                    }
                    i = i + 1;
                }
                assert(in_grid(gw, gh, (v@[ix as int].x - o.0, v@[ix as int].y - o.1)));
                assert(in_grid(gw, gh, (v@[iy as int].x - o.0, v@[iy as int].y - o.1)));
                let mut squares: Vec<Vec2i> = Vec::new();
                let mut k: usize = 0;
                while k < v.len()
                    invariant
                        0 <= k <= v@.len(),
                        squares@.len() == k,
                        1 <= gw <= 2 * MAX_COORD + 1,
                        1 <= gh <= 2 * MAX_COORD + 1,
                        cx >= o.0,
                        cy >= o.1,
                        forall|j: int| 0 <= j < v@.len() ==> cx <= (#[trigger] v@[j]).x && cy <= v@[j].y,
                        forall|j: int| 0 <= j < v@.len() ==> in_grid(gw, gh, ((#[trigger] v@[j]).x - o.0, v@[j].y - o.1)),
                        forall|j: int| 0 <= j < k ==> (#[trigger] squares@[j])@ == (v@[j].x - cx, v@[j].y - cy),
                        crate::shape::in_box(squares@, MAX_SIDE as int, MAX_SIDE as int),
                    decreases v.len() - k,
                {
                    let q = v[k];
                    assert(in_grid(gw, gh, (v@[k as int].x - o.0, v@[k as int].y - o.1)));
                    squares.push(Vec2 { x: q.x - cx, y: q.y - cy });
                    k = k + 1;
                }
                let ghost sq = squares@;
                let shape = Shape::new(squares);
                let off = Vec2 { x: cx, y: cy };
                proof {
                    assert forall|c: (int, int)| #[trigger] shape.cells().contains(c) <==> hole.contains((c.0 + cx, c.1 + cy)) by {
                        if pts(sq).contains(c) {
                            let j = choose|j: int| 0 <= j < sq.len() && #[trigger] sq[j]@ == c;
                            assert(v@[j]@ == (c.0 + cx, c.1 + cy));
                            assert(pts(v@).contains((c.0 + cx, c.1 + cy)));
                        }
                        if hole.contains((c.0 + cx, c.1 + cy)) {
                            assert(pts(v@).contains((c.0 + cx, c.1 + cy)));
                            let j = choose|j: int| 0 <= j < v@.len() && #[trigger] v@[j]@ == (c.0 + cx, c.1 + cy);
                            assert(sq[j]@ == c);
                        }
                    }
                    assert(shape.cells() =~= Set::new(|c: (int, int)| hole.contains((c.0 + cx, c.1 + cy))));
                    assert forall|c: (int, int)| hole.contains(c) implies c.0 >= cx && c.1 >= cy by {
                        assert(pts(v@).contains(c));
                        let j = choose|j: int| 0 <= j < v@.len() && #[trigger] v@[j]@ == c;
                    }
                    assert(pts(v@).contains(v@[ix as int]@));
                    assert(pts(v@).contains(v@[iy as int]@));
                }
                Some((shape, off))
            },
        }
    }
}

/// The ids after the first `k` steps of a Fisher-Yates pass: step `i` swaps
/// the ids at `i` and `js[i]`.
pub open spec fn fisher_yates_upto(ids: Seq<int>, js: Seq<int>, k: int) -> Seq<int>
    decreases k,
{
    if k <= 0 {
        ids
    } else {
        let s = fisher_yates_upto(ids, js, k - 1);
        let j = js[k - 1];
        s.update(k - 1, s[j]).update(j, s[k - 1])
    }
}

/// The ids after a whole Fisher-Yates pass driven by `js`.
pub open spec fn fisher_yates(ids: Seq<int>, js: Seq<int>) -> Seq<int> {
    fisher_yates_upto(ids, js, js.len() as int)
}

/// Each `js[i]` is a valid partner for step `i`: at most `i`.
pub open spec fn swap_choices_ok(js: Seq<int>, n: int) -> bool {
    &&& js.len() == n
    &&& forall|i: int| 0 <= i < n ==> 0 <= #[trigger] js[i] <= i
}

impl<'a> Layout<'a> {
    /// Reorders the shape ids by a Fisher-Yates pass whose step `i` swaps the ids
    /// at `i` and `js[i]`; anchors and variant numbers stay where they are.
    pub fn permute(&mut self, js: &Vec<usize>)
        requires
            old(self).wf(),
            js@.len() == old(self).pos@.len(),
            forall|i: int| 0 <= i < js@.len() ==> #[trigger] js@[i] <= i,
        ensures
            final(self).wf(),
            final(self).bundle == old(self).bundle,
            final(self).pos@.len() == old(self).pos@.len(),
            forall|i: int| 0 <= i < old(self).pos@.len() ==> (#[trigger] final(self).pos@[i]).x == old(self).pos@[i].x
                && final(self).pos@[i].y == old(self).pos@[i].y && final(self).pos@[i].var == old(self).pos@[i].var,
            final(self).ids() == fisher_yates(old(self).ids(), js@.map_values(|j: usize| j as int)),
            final(self).ids().to_multiset() == old(self).ids().to_multiset(),
    {
        let ghost pre = *self;
        let ghost jsi = js@.map_values(|j: usize| j as int);
        let n = js.len();
        let mut i: usize = 0;
        while i < n
            invariant
                pre.wf(),
                self.wf(),
                self.bundle == pre.bundle,
                n == self.pos@.len(),
                n == js@.len(),
                jsi == js@.map_values(|j: usize| j as int),
                forall|k: int| 0 <= k < js@.len() ==> #[trigger] js@[k] <= k,
                self.pos@.len() == pre.pos@.len(),
                0 <= i <= n,
                forall|k: int| 0 <= k < pre.pos@.len() ==> (#[trigger] self.pos@[k]).x == pre.pos@[k].x
                    && self.pos@[k].y == pre.pos@[k].y && self.pos@[k].var == pre.pos@[k].var,
                self.ids().to_multiset() == pre.ids().to_multiset(),
                self.ids() == fisher_yates_upto(pre.ids(), jsi, i as int),
            decreases n - i,
        {
            let j = js[i];
            assert(jsi[i as int] == j);
            let ghost before = *self;
            let pi = self.pos[i];
            let pj = self.pos[j];
            self.pos.set(i, Position { shape: pj.shape, ..pi });
            self.pos.set(j, Position { shape: pi.shape, ..self.pos[j] });
            proof {
                let ids0 = before.ids();
                let ids1 = ids0.update(i as int, pj.shape as int);
                let ids2 = ids1.update(j as int, pi.shape as int);
                assert(self.ids() =~= ids2);
                assert(before.ids()[j as int] == pj.shape);
                vstd::seq_lib::to_multiset_update(ids0, i as int, pj.shape as int);
                vstd::seq_lib::to_multiset_update(ids1, j as int, pi.shape as int);
                assert(ids0[i as int] == pi.shape);
                assert(ids1[j as int] == pj.shape as int);
                assert(ids0.to_multiset().count(pi.shape as int) > 0) by {
                    vstd::seq_lib::to_multiset_contains(ids0, pi.shape as int);
                    assert(ids0.contains(pi.shape as int));
                }
                broadcast use vstd::multiset::group_multiset_axioms;
                assert(ids2.to_multiset() =~= ids0.to_multiset());
                assert forall|a: int, b: int|
                    0 <= a < self.pos@.len() && 0 <= b < self.pos@.len() && a != b implies (#[trigger] self.pos@[a]).shape
                        != (#[trigger] self.pos@[b]).shape by {
                    let fa = if a == i && a != j { j as int } else if a == j && a != i { i as int } else { a };
                    let fb = if b == i && b != j { j as int } else if b == j && b != i { i as int } else { b };
                    assert(self.pos@[a].shape == before.pos@[fa].shape);
                    assert(self.pos@[b].shape == before.pos@[fb].shape);
                }
                assert forall|a: int| 0 <= a < self.pos@.len() implies (#[trigger] self.pos@[a]).shape < self.bundle.len() by {
                    let fa = if a == i && a != j { j as int } else if a == j && a != i { i as int } else { a };
                    assert(self.pos@[a].shape == before.pos@[fa].shape);
                }
            }
            i = i + 1;
        }
    }

    /// Shuffles the order in which shape ids are placed: draws, for each `i` in
    /// turn, a partner in `[0, i]`, then runs the Fisher-Yates pass with those
    /// draws.
    pub fn shuffle(&mut self, rng: &mut StdRng)
        requires
            old(self).wf(),
        ensures
            final(self).wf(),
            final(self).bundle == old(self).bundle,
            final(self).pos@.len() == old(self).pos@.len(),
            forall|i: int| 0 <= i < old(self).pos@.len() ==> (#[trigger] final(self).pos@[i]).x == old(self).pos@[i].x
                && final(self).pos@[i].y == old(self).pos@[i].y && final(self).pos@[i].var == old(self).pos@[i].var,
            exists|js: Seq<int>|
                swap_choices_ok(js, old(self).pos@.len() as int) && final(self).ids() == #[trigger] fisher_yates(
                    old(self).ids(),
                    js,
                ),
            final(self).ids().to_multiset() == old(self).ids().to_multiset(),
    {
        let n = self.pos.len();
        let mut js: Vec<usize> = Vec::new();
        let mut i: usize = 0;
        while i < n
            invariant
                0 <= i <= n,
                js@.len() == i,
                forall|k: int| 0 <= k < i ==> #[trigger] js@[k] <= k,
            decreases n - i,
        {
            let j = random_below(rng, i + 1);
            js.push(j);
            i = i + 1;
        }
        let ghost jsi = js@.map_values(|j: usize| j as int);
        self.permute(&js);
        assert(swap_choices_ok(jsi, n as int));
    }
}

impl<'a> Layout<'a> {
    /// What `flood_fill` gives: the cells of the hole in increasing order
    /// (`x` first, then `y`), each once, exactly when the layout is enclosed.
    pub open spec fn fill_outcome(&self, r: Option<Vec<Vec2i>>) -> bool {
        &&& (r is Some <==> self.is_enclosed())
        &&& (r matches Some(v) ==> sorted_strict(v@) && pts(v@) == self.hole())
    }

    /// Two fills of the same layout agree: both find a hole or neither does,
    /// and they list the same cells in the same order.
    pub proof fn lemma_flood_fill_deterministic(&self, r1: Option<Vec<Vec2i>>, r2: Option<Vec<Vec2i>>)
        requires
            self.fill_outcome(r1),
            self.fill_outcome(r2),
        ensures
            r1 is Some <==> r2 is Some,
            r1 matches Some(v1) ==> (r2 matches Some(v2) && v1@ == v2@),
    {
        if let Some(v1) = r1 {
            if let Some(v2) = r2 {
                lemma_sorted_unique(v1@, v2@);
            }
        }
    }
}

/// Two layouts are equal when their instance lists are equal, index by index.
impl<'a> PartialEq for Layout<'a> {
    fn eq(&self, rhs: &Layout<'a>) -> (r: bool) {
        if self.pos.len() != rhs.pos.len() {
            return false;
        }
        let mut i: usize = 0;
        while i < self.pos.len()
            invariant
                self.pos@.len() == rhs.pos@.len(),
                0 <= i <= self.pos@.len(),
                forall|k: int| 0 <= k < i ==> self.pos@[k] == rhs.pos@[k],
            decreases self.pos.len() - i,
        {
            if self.pos[i] != rhs.pos[i] {
                return false;
            }
            i = i + 1;
        }
        assert(self.pos@ =~= rhs.pos@);
        true
    }
}

impl<'a> vstd::std_specs::cmp::PartialEqSpecImpl for Layout<'a> {
    open spec fn obeys_eq_spec() -> bool {
        true
    }

    open spec fn eq_spec(&self, rhs: &Layout<'a>) -> bool {
        self.pos@ == rhs.pos@
    }
}

impl<'a> Layout<'a> {
    /// A copy of the layout, on the same bundle.
    pub fn duplicate(&self) -> (r: Layout<'a>)
        ensures
            r.bundle == self.bundle,
            r.pos@ == self.pos@,
            self.wf() ==> r.wf(),
            self.placeable() ==> r.placeable(),
    {
        let mut pos: Vec<Position> = Vec::new();
        let mut i: usize = 0;
        while i < self.pos.len()
            invariant
                0 <= i <= self.pos@.len(),
                pos@ == self.pos@.take(i as int),
            decreases self.pos.len() - i,
        {
            pos.push(self.pos[i]);
            assert(pos@ =~= self.pos@.take(i as int + 1));
            i = i + 1;
        }
        assert(pos@ =~= self.pos@);
        let r = Layout { bundle: self.bundle, pos: pos };
        assert forall|k: int| 0 <= k < r.pos@.len() implies #[trigger] r.shape_at(k) == self.shape_at(k) && r.pos@[k]
            == self.pos@[k] by {}
        r
    }
}

/// The anchor that puts filled cell `c` of `v` on boundary cell `b` of a shape
/// anchored at `ap`.
pub open spec fn fit_anchor(ap: Vec2i, b: Vec2i, c: Vec2i) -> Vec2i {
    Vec2 { x: (ap.x + b.x - c.x) as i32, y: (ap.y + b.y - c.y) as i32 }
}

/// The candidates for variant `i` with the first `nb` boundary cells of the
/// anchor: for each boundary cell in order, each filled cell of the variant in
/// order.
pub open spec fn variant_fits(anchor: Shape, ap: Vec2i, i: int, v: Shape, nb: int) -> Seq<(u16, Vec2i)>
    decreases nb,
{
    if nb <= 0 {
        Seq::empty()
    } else {
        variant_fits(anchor, ap, i, v, nb - 1) + Seq::new(
            v.squares@.len(),
            |c: int| (i as u16, fit_anchor(ap, anchor.boundary@[nb - 1], v.squares@[c])),
        )
    }
}

/// The candidates for the first `k` variants, variant by variant.
pub open spec fn fits_upto(anchor: Shape, ap: Vec2i, vs: Seq<Shape>, k: int) -> Seq<(u16, Vec2i)>
    decreases k,
{
    if k <= 0 {
        Seq::empty()
    } else {
        fits_upto(anchor, ap, vs, k - 1) + variant_fits(anchor, ap, k - 1, vs[k - 1], anchor.boundary@.len() as int)
    }
}

impl<'a> Layout<'a> {
    /// Every way of putting a filled cell of a variant on a boundary cell of the
    /// anchor, as (variant index, anchor of the variant): variant by variant,
    /// then boundary cell by boundary cell, then filled cell by filled cell.
    pub fn fit_candidates(anchor_shape: &Shape, anchor_pos: &Vec2i, variants: &Vec<Shape>) -> (r: Vec<(u16, Vec2i)>)
        requires
            anchor_shape.wf(),
            fits(*anchor_shape, *anchor_pos),
            variants@.len() <= 0x10000,
            forall|i: int| 0 <= i < variants@.len() ==> (#[trigger] variants@[i]).wf(),
        ensures
            r@ == fits_upto(*anchor_shape, *anchor_pos, variants@, variants@.len() as int),
    {
        let mut res: Vec<(u16, Vec2i)> = Vec::new();
        let nb = anchor_shape.boundary.len();
        let mut i: usize = 0;
        while i < variants.len()
            invariant
                anchor_shape.wf(),
                fits(*anchor_shape, *anchor_pos),
                variants@.len() <= 0x10000,
                forall|k: int| 0 <= k < variants@.len() ==> (#[trigger] variants@[k]).wf(),
                nb == anchor_shape.boundary@.len(),
                0 <= i <= variants@.len(),
                res@ == fits_upto(*anchor_shape, *anchor_pos, variants@, i as int),
            decreases variants.len() - i,
        {
            let v = &variants[i];
            let ghost base = res@;
            let mut b: usize = 0;
            while b < nb
                invariant
                    anchor_shape.wf(),
                    fits(*anchor_shape, *anchor_pos),
                    v.wf(),
                    *v == variants@[i as int],
                    i < 0x10000,
                    nb == anchor_shape.boundary@.len(),
                    0 <= b <= nb,
                    res@ == base + variant_fits(*anchor_shape, *anchor_pos, i as int, *v, b as int),
                decreases nb - b,
            {
                let bp = anchor_shape.boundary[b];
                proof {
                    assert(pts(anchor_shape.boundary@).contains(bp@));
                    let q = choose|q: (int, int), d: int|
                        0 <= d < 4 && anchor_shape.cells().contains(q) && bp@ == #[trigger] shift(q, dir4(d));
                    let j = choose|j: int| 0 <= j < anchor_shape.squares@.len() && #[trigger] anchor_shape.squares@[j]@ == q.0;
                    assert(0 <= anchor_shape.squares@[j].x < anchor_shape.width);
                    assert(0 <= anchor_shape.squares@[j].y < anchor_shape.height);
                }
                let ghost mid = res@;
                let mut c: usize = 0;
                while c < v.squares.len()
                    invariant
                        v.wf(),
                        i < 0x10000,
                        -MAX_COORD - 1 <= anchor_pos.x + bp.x <= MAX_COORD,
                        -MAX_COORD - 1 <= anchor_pos.y + bp.y <= MAX_COORD,
                        0 <= c <= v.squares@.len(),
                        res@ == mid + Seq::new(
                            c as nat,
                            |k: int| (i as u16, fit_anchor(*anchor_pos, bp, v.squares@[k])),
                        ),
                    decreases v.squares.len() - c,
                {
                    let sq = v.squares[c];
                    assert(0 <= sq.x < v.width && 0 <= sq.y < v.height);
                    let p = Vec2 { x: anchor_pos.x + bp.x - sq.x, y: anchor_pos.y + bp.y - sq.y };
                    let ghost pre = res@;
                    res.push((i as u16, p));
                    assert(res@ =~= mid + Seq::new(
                        (c + 1) as nat,
                        |k: int| (i as u16, fit_anchor(*anchor_pos, bp, v.squares@[k])),
                    ));
                    c = c + 1;
                }
                assert(res@ =~= base + variant_fits(*anchor_shape, *anchor_pos, i as int, *v, b as int + 1));
                b = b + 1;
            }
            i = i + 1;
        }
        res
    }
}

} // verus!
