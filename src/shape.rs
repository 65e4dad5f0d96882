use vstd::prelude::*;
use crate::geom::{pts, sorted_strict, dir4, shift, offset4, insert_sorted, MAX_SIDE};
use crate::vec2::{Vec2, Vec2i};

verus! {

/// A clockwise rotation by a multiple of 90 degrees.
#[derive(Clone, Copy, PartialEq, Eq, Debug, Structural)]
pub enum Rotation {
    CW0,
    CW90,
    CW180,
    CW270,
}

/// A polyomino: its filled unit cells (sorted, `x` first), the extents of the
/// box from the origin that holds them, an occupancy bitmap of that box and the
/// empty cells that touch a filled one by an edge.
pub struct Shape {
    pub squares: Vec<Vec2i>,
    pub width: i32,
    pub height: i32,
    pub boundary: Vec<Vec2i>,
    pub mask: Vec<Vec<bool>>,
}

/// Every point of `s` lies in the box `[0, w) x [0, h)`.
pub open spec fn in_box(s: Seq<Vec2i>, w: int, h: int) -> bool {
    forall|i: int| 0 <= i < s.len() ==> 0 <= (#[trigger] s[i]).x < w && 0 <= s[i].y < h
}

/// `w` and `h` are one more than the largest coordinates of the points of `s`.
pub open spec fn tight(s: Seq<Vec2i>, w: int, h: int) -> bool {
    &&& in_box(s, w, h)
    &&& exists|i: int| 0 <= i < s.len() && #[trigger] s[i].x == w - 1
    &&& exists|i: int| 0 <= i < s.len() && #[trigger] s[i].y == h - 1
}

/// The empty cells that share an edge with a cell of `c`.
pub open spec fn boundary_of(c: Set<(int, int)>) -> Set<(int, int)> {
    Set::new(
        |p: (int, int)|
            !c.contains(p) && exists|q: (int, int), d: int|
                0 <= d < 4 && c.contains(q) && p == #[trigger] shift(q, dir4(d)),
    )
}

/// `m` is the occupancy bitmap of the points `s` over the box `[0, w) x [0, h)`,
/// one row per `y`.
pub open spec fn is_mask(m: Seq<Vec<bool>>, s: Seq<Vec2i>, w: int, h: int) -> bool {
    &&& m.len() == h
    &&& forall|y: int| 0 <= y < h ==> (#[trigger] m[y])@.len() == w
    &&& forall|x: int, y: int|
        0 <= x < w && 0 <= y < h ==> (#[trigger] m[y]@[x] <==> pts(s).contains((x, y)))
}

/// Row of the character at index `k`: the number of line feeds before it.
pub open spec fn row_of(s: Seq<char>, k: int) -> int
    decreases k,
{
    if k <= 0 {
        0
    } else {
        row_of(s, k - 1) + if s[k - 1] == '\n' { 1int } else { 0int }
    }
}

/// Column of the character at index `k`: the characters since the last line feed.
pub open spec fn col_of(s: Seq<char>, k: int) -> int
    decreases k,
{
    if k <= 0 {
        0
    } else if s[k - 1] == '\n' {
        0
    } else {
        col_of(s, k - 1) + 1
    }
}

/// The character at index `k` marks a filled cell: it is neither a space nor a
/// line ending (a line feed, or a carriage return just before one).
pub open spec fn is_cell_char(s: Seq<char>, k: int) -> bool {
    &&& s[k] != ' '
    &&& s[k] != '\n'
    &&& !(s[k] == '\r' && k + 1 < s.len() && s[k + 1] == '\n')
}

/// (column, row) of the character at index `k`.
pub open spec fn grid_pos(s: Seq<char>, k: int) -> (int, int) {
    (col_of(s, k), row_of(s, k))
}

/// The cells that the characters `0..n` of a text grid mark, at (column, row).
pub open spec fn grid_cells_upto(s: Seq<char>, n: int) -> Set<(int, int)> {
    Set::new(
        |c: (int, int)|
            exists|k: int| 0 <= k < n && is_cell_char(s, k) && c == #[trigger] grid_pos(s, k),
    )
}

/// The cells that a text grid marks.
pub open spec fn grid_cells(s: Seq<char>) -> Set<(int, int)> {
    grid_cells_upto(s, s.len() as int)
}

/// The characters of a string, in order.
pub fn chars_of(input: &str) -> (r: Vec<char>)
    ensures
        r@ == input@,
{
    let mut v: Vec<char> = Vec::new();
    for c in it: input.chars()
        invariant
            v@ == it.seq().take(it.index() as int),
    {
        v.push(c);
    }
    v
}

/// Where a cell of a `w` by `h` box goes when the box is mirrored (`m`) or
/// else turned clockwise by `rot`.
pub open spec fn xform(p: (int, int), w: int, h: int, rot: Rotation, m: bool) -> (int, int) {
    if m {
        (w - 1 - p.0, p.1)
    } else {
        match rot {
            Rotation::CW0 => p,
            Rotation::CW90 => (h - 1 - p.1, p.0),
            Rotation::CW180 => (w - 1 - p.0, h - 1 - p.1),
            Rotation::CW270 => (p.1, w - 1 - p.0),
        }
    }
}

/// The cell that `xform` takes to `p`.
pub open spec fn xform_inv(p: (int, int), w: int, h: int, rot: Rotation, m: bool) -> (int, int) {
    if m {
        (w - 1 - p.0, p.1)
    } else {
        match rot {
            Rotation::CW0 => p,
            Rotation::CW90 => (p.1, h - 1 - p.0),
            Rotation::CW180 => (w - 1 - p.0, h - 1 - p.1),
            Rotation::CW270 => (w - 1 - p.1, p.0),
        }
    }
}

/// The cells `c` of a `w` by `h` box, turned clockwise by `rot`.
pub open spec fn rotate_cells(c: Set<(int, int)>, w: int, h: int, rot: Rotation) -> Set<(int, int)> {
    Set::new(|p: (int, int)| c.contains(xform_inv(p, w, h, rot, false)))
}

/// The cells `c` of a box of width `w`, mirrored across its vertical mid-line.
pub open spec fn mirror_cells(c: Set<(int, int)>, w: int) -> Set<(int, int)> {
    Set::new(|p: (int, int)| c.contains(xform_inv(p, w, 0, Rotation::CW0, true)))
}

impl Shape {
    /// The filled cells.
    pub open spec fn cells(&self) -> Set<(int, int)> {
        pts(self.squares@)
    }

    pub open spec fn mask_view(&self) -> Seq<Seq<bool>> {
        self.mask@.map_values(|r: Vec<bool>| r@)
    }

    pub open spec fn mask_ok(&self) -> bool {
        is_mask(self.mask@, self.squares@, self.width as int, self.height as int)
    }

    /// Well-formedness: a non-empty, sorted cell list whose extents are the
    /// width and height, with a consistent bitmap and boundary.
    pub open spec fn wf(&self) -> bool {
        &&& 1 <= self.width <= MAX_SIDE
        &&& 1 <= self.height <= MAX_SIDE
        &&& sorted_strict(self.squares@)
        &&& tight(self.squares@, self.width as int, self.height as int)
        &&& self.mask_ok()
        &&& sorted_strict(self.boundary@)
        &&& pts(self.boundary@) == boundary_of(self.cells())
    }

    /// Finds (width, height) of a cell list: one more than its largest coordinates.
    fn extents(squares: &Vec<Vec2i>) -> (r: (i32, i32))
        requires
            squares@.len() > 0,
            in_box(squares@, MAX_SIDE as int, MAX_SIDE as int),
        ensures
            1 <= r.0 <= MAX_SIDE,
            1 <= r.1 <= MAX_SIDE,
            tight(squares@, r.0 as int, r.1 as int),
    {
        let mut w: i32 = squares[0].x;
        let mut h: i32 = squares[0].y;
        let mut wi: usize = 0;
        let mut hi: usize = 0;
        let mut i: usize = 1;
        while i < squares.len()
            invariant
                1 <= i <= squares@.len(),
                in_box(squares@, MAX_SIDE as int, MAX_SIDE as int),
                wi < i && hi < i,
                squares@[wi as int].x == w,
                squares@[hi as int].y == h,
                forall|k: int| 0 <= k < i ==> #[trigger] squares@[k].x <= w && squares@[k].y <= h,
            decreases squares.len() - i,
        {
            if squares[i].x > w {
                w = squares[i].x;
                wi = i;
            }
            if squares[i].y > h {
                h = squares[i].y;
                hi = i;
            }
            i = i + 1;
        }
        assert(squares@[wi as int].x == (w + 1) - 1);
        assert(squares@[hi as int].y == (h + 1) - 1);
        (w + 1, h + 1)
    }

    /// Builds the occupancy bitmap of a cell list over its extents.
    fn build_mask(squares: &Vec<Vec2i>) -> (r: Vec<Vec<bool>>)
        requires
            squares@.len() > 0,
            in_box(squares@, MAX_SIDE as int, MAX_SIDE as int),
        ensures
            ({
                let (w, h) = Self::extents_spec(squares@);
                is_mask(r@, squares@, w, h)
            }),
    {
        let (w, h) = Shape::extents(squares);
        proof {
            Self::lemma_extents_unique(squares@, w as int, h as int);
        }
        let mut res: Vec<Vec<bool>> = Vec::new();
        let mut y: i32 = 0;
        while y < h
            invariant
                0 <= y <= h,
                1 <= w,
                res@.len() == y,
                forall|k: int| 0 <= k < y ==> (#[trigger] res@[k])@.len() == w,
                forall|k: int, x: int| 0 <= k < y && 0 <= x < w ==> !(#[trigger] res@[k]@[x]),
            decreases h - y,
        {
            let mut row: Vec<bool> = Vec::new();
            let mut x: i32 = 0;
            while x < w
                invariant
                    0 <= x <= w,
                    1 <= w,
                    row@.len() == x,
                    forall|k: int| 0 <= k < x ==> !(#[trigger] row@[k]),
                decreases w - x,
            {
                row.push(false);
                x = x + 1;
            }
            res.push(row);
            y = y + 1;
        }
        let mut i: usize = 0;
        while i < squares.len()
            invariant
                0 <= i <= squares@.len(),
                in_box(squares@, w as int, h as int),
                res@.len() == h,
                forall|k: int| 0 <= k < h ==> (#[trigger] res@[k])@.len() == w,
                forall|x: int, y: int|
                    0 <= x < w && 0 <= y < h ==> (#[trigger] res@[y]@[x] <==> exists|j: int|
                        0 <= j < i && #[trigger] squares@[j]@ == (x, y)),
            decreases squares.len() - i,
        {
            let p = squares[i];
            assert(0 <= p.x < w && 0 <= p.y < h);
            let yy = p.y as usize;
            let xx = p.x as usize;
            let mut row = res[yy].clone();
            assert(row@ =~= res@[yy as int]@);
            let ghost pre = res@;
            row.set(xx, true);
            res.set(yy, row);
            assert forall|x: int, y: int|
                0 <= x < w && 0 <= y < h implies (#[trigger] res@[y]@[x] <==> exists|j: int|
                    0 <= j < i + 1 && #[trigger] squares@[j]@ == (x, y)) by {
                if x == p.x && y == p.y {
                    assert(squares@[i as int]@ == (x, y));
                } else {
                    if exists|j: int| 0 <= j < i + 1 && #[trigger] squares@[j]@ == (x, y) {
                        let j = choose|j: int| 0 <= j < i + 1 && #[trigger] squares@[j]@ == (x, y);
                        assert(j != i);
                    }
                }
            }
            i = i + 1;
        }
        res
    }

    /// The extents of a cell list, as `extents` computes them.
    pub open spec fn extents_spec(s: Seq<Vec2i>) -> (int, int) {
        choose|wh: (int, int)| tight(s, wh.0, wh.1)
    }

    proof fn lemma_extents_unique(s: Seq<Vec2i>, w: int, h: int)
        requires
            tight(s, w, h),
        ensures
            Self::extents_spec(s) == (w, h),
    {
        assert(tight(s, (w, h).0, (w, h).1));
        let wh = Self::extents_spec(s);
        assert(tight(s, wh.0, wh.1));
        let (w2, h2) = wh;
        let i = choose|i: int| 0 <= i < s.len() && #[trigger] s[i].x == w2 - 1;
        let j = choose|i: int| 0 <= i < s.len() && #[trigger] s[i].x == w - 1;
        let k = choose|i: int| 0 <= i < s.len() && #[trigger] s[i].y == h2 - 1;
        let l = choose|i: int| 0 <= i < s.len() && #[trigger] s[i].y == h - 1;
        assert(s[i].x < w && s[j].x < w2);
        assert(s[k].y < h && s[l].y < h2);
    }

    /// The empty neighbours found after looking at directions `0..d` of cell `i`
    /// and at all four directions of the cells before it.
    spec fn boundary_part(s: Seq<Vec2i>, i: int, d: int) -> Set<(int, int)> {
        Set::new(
            |p: (int, int)|
                !pts(s).contains(p) && exists|j: int, e: int|
                    ((0 <= j < i && 0 <= e < 4) || (j == i && 0 <= e < d)) && p == #[trigger] shift(
                        s[j]@,
                        dir4(e),
                    ),
        )
    }

    proof fn lemma_tight_same_points(s1: Seq<Vec2i>, s2: Seq<Vec2i>, w: int, h: int)
        requires
            pts(s1) == pts(s2),
            tight(s1, w, h),
        ensures
            tight(s2, w, h),
    {
        assert forall|i: int| 0 <= i < s2.len() implies 0 <= (#[trigger] s2[i]).x < w && 0 <= s2[i].y < h by {
            assert(pts(s2).contains(s2[i]@));
            let j = choose|j: int| 0 <= j < s1.len() && #[trigger] s1[j]@ == s2[i]@;
            assert(s1[j]@ == s2[i]@);
        }
        let a = choose|i: int| 0 <= i < s1.len() && #[trigger] s1[i].x == w - 1;
        assert(pts(s1).contains(s1[a]@));
        let a2 = choose|j: int| 0 <= j < s2.len() && #[trigger] s2[j]@ == s1[a]@;
        assert(s2[a2].x == w - 1);
        let b = choose|i: int| 0 <= i < s1.len() && #[trigger] s1[i].y == h - 1;
        assert(pts(s1).contains(s1[b]@));
        let b2 = choose|j: int| 0 <= j < s2.len() && #[trigger] s2[j]@ == s1[b]@;
        assert(s2[b2].y == h - 1);
    }

    /// Lists, sorted, the empty cells that share an edge with a cell of the list.
    fn build_boundary(squares: &Vec<Vec2i>, mask: &Vec<Vec<bool>>) -> (r: Vec<Vec2i>)
        requires
            squares@.len() > 0,
            in_box(squares@, MAX_SIDE as int, MAX_SIDE as int),
            is_mask(mask@, squares@, Self::extents_spec(squares@).0, Self::extents_spec(squares@).1),
        ensures
            sorted_strict(r@),
            pts(r@) == boundary_of(pts(squares@)),
    {
        let (w, h) = Shape::extents(squares);
        proof {
            Self::lemma_extents_unique(squares@, w as int, h as int);
        }
        let ghost c = pts(squares@);
        let mut res: Vec<Vec2i> = Vec::new();
        let mut i: usize = 0;
        assert(pts(res@) =~= Self::boundary_part(squares@, 0, 0));
        while i < squares.len()
            invariant
                0 <= i <= squares@.len(),
                1 <= w <= MAX_SIDE,
                1 <= h <= MAX_SIDE,
                c == pts(squares@),
                in_box(squares@, w as int, h as int),
                is_mask(mask@, squares@, w as int, h as int),
                sorted_strict(res@),
                pts(res@) == Self::boundary_part(squares@, i as int, 0),
            decreases squares.len() - i,
        {
            let sq = squares[i];
            let mut d: usize = 0;
            while d < 4
                invariant
                    0 <= i < squares@.len(),
                    0 <= d <= 4,
                    sq == squares@[i as int],
                    1 <= w <= MAX_SIDE,
                    1 <= h <= MAX_SIDE,
                    c == pts(squares@),
                    in_box(squares@, w as int, h as int),
                    is_mask(mask@, squares@, w as int, h as int),
                    sorted_strict(res@),
                    pts(res@) == Self::boundary_part(squares@, i as int, d as int),
                decreases 4 - d,
            {
                let (dx, dy) = offset4(d);
                assert(0 <= sq.x < w && 0 <= sq.y < h);
                let x = sq.x + dx;
                let y = sq.y + dy;
                let in_area = x >= 0 && y >= 0 && x < w && y < h;
                let is_set = in_area && mask[y as usize][x as usize];
                let ghost p = (x as int, y as int);
                assert(p == shift(squares@[i as int]@, dir4(d as int)));
                proof {
                    if !in_area && c.contains(p) {
                        let j = choose|j: int| 0 <= j < squares@.len() && #[trigger] squares@[j]@ == p;
                        assert(0 <= squares@[j].x < w && 0 <= squares@[j].y < h);
                    }
                }
                assert(is_set == c.contains(p));
                let ghost old_part = pts(res@);
                if !is_set {
                    insert_sorted(&mut res, Vec2 { x: x, y: y });
                }
                assert(pts(res@) =~= Self::boundary_part(squares@, i as int, d as int + 1)) by {
                    assert forall|q: (int, int)|
                        #[trigger] Self::boundary_part(squares@, i as int, d as int + 1).contains(q)
                        implies pts(res@).contains(q) by {
                        let (j, e) = choose|j: int, e: int|
                            ((0 <= j < i && 0 <= e < 4) || (j == i && 0 <= e < d + 1)) && q == #[trigger] shift(
                                squares@[j]@,
                                dir4(e),
                            );
                        if j == i && e == d {
                        } else {
                            assert(Self::boundary_part(squares@, i as int, d as int).contains(q));
                        }
                    }
                    assert forall|q: (int, int)| #[trigger] pts(res@).contains(q)
                        implies Self::boundary_part(squares@, i as int, d as int + 1).contains(q) by {
                        if q == p && !is_set {
                            assert(q == shift(squares@[i as int]@, dir4(d as int)));
                        } else {
                            assert(old_part.contains(q));
                            let (j, e) = choose|j: int, e: int|
                                ((0 <= j < i && 0 <= e < 4) || (j == i && 0 <= e < d)) && q == #[trigger] shift(
                                    squares@[j]@,
                                    dir4(e),
                                );
                            assert(q == shift(squares@[j]@, dir4(e)));
                        }
                    }
                }
                d = d + 1;
            }
            assert(Self::boundary_part(squares@, i as int, 4) =~= Self::boundary_part(squares@, i as int + 1, 0));
            i = i + 1;
        }
        assert(pts(res@) =~= boundary_of(c)) by {
            assert forall|q: (int, int)| #[trigger] boundary_of(c).contains(q) implies pts(res@).contains(q) by {
                let (q0, e) = choose|q0: (int, int), e: int|
                    0 <= e < 4 && c.contains(q0) && q == #[trigger] shift(q0, dir4(e));
                let j = choose|j: int| 0 <= j < squares@.len() && #[trigger] squares@[j]@ == q0;
                assert(q == shift(squares@[j]@, dir4(e)));
                assert(Self::boundary_part(squares@, i as int, 0).contains(q));
            }
            assert forall|q: (int, int)| #[trigger] pts(res@).contains(q) implies boundary_of(c).contains(q) by {
                assert(Self::boundary_part(squares@, i as int, 0).contains(q));
                let (j, e) = choose|j: int, e: int|
                    ((0 <= j < i && 0 <= e < 4) || (j == i && 0 <= e < 0)) && q == #[trigger] shift(
                        squares@[j]@,
                        dir4(e),
                    );
                assert(c.contains(squares@[j]@));
                assert(q == shift(squares@[j]@, dir4(e)));
            }
        }
        res
    }

    /// Builds a shape from a non-empty list of cells with non-negative coordinates.
    pub fn new(squares: Vec<Vec2i>) -> (r: Shape)
        requires
            squares@.len() > 0,
            in_box(squares@, MAX_SIDE as int, MAX_SIDE as int),
        ensures
            r.wf(),
            r.cells() == pts(squares@),
            forall|b: int| in_box(squares@, b, b) ==> r.width <= b && r.height <= b,
    {
        let (w, h) = Shape::extents(&squares);
        proof {
            Self::lemma_extents_unique(squares@, w as int, h as int);
        }
        let mask = Shape::build_mask(&squares);
        let boundary = Shape::build_boundary(&squares, &mask);
        let mut sorted: Vec<Vec2i> = Vec::new();
        let mut i: usize = 0;
        while i < squares.len()
            invariant
                0 <= i <= squares@.len(),
                sorted_strict(sorted@),
                pts(sorted@) == pts(squares@.take(i as int)),
            decreases squares.len() - i,
        {
            insert_sorted(&mut sorted, squares[i]);
            assert(pts(squares@.take(i as int + 1)) =~= pts(squares@.take(i as int)).insert(squares@[i as int]@)) by {
                assert(squares@.take(i as int + 1)[i as int] == squares@[i as int]);
                assert forall|c: (int, int)| #[trigger] pts(squares@.take(i as int)).contains(c)
                    implies pts(squares@.take(i as int + 1)).contains(c) by {
                    let k = choose|k: int| 0 <= k < i && #[trigger] squares@.take(i as int)[k]@ == c;
                    assert(squares@.take(i as int + 1)[k]@ == c);
                }
                assert forall|c: (int, int)| #[trigger] pts(squares@.take(i as int + 1)).contains(c) && c != squares@[i as int]@
                    implies pts(squares@.take(i as int)).contains(c) by {
                    let k = choose|k: int| 0 <= k < i + 1 && #[trigger] squares@.take(i as int + 1)[k]@ == c;
                    assert(squares@.take(i as int)[k]@ == c);
                }
            }
            i = i + 1;
        }
        assert(squares@.take(squares@.len() as int) =~= squares@);
        proof {
            Self::lemma_tight_same_points(squares@, sorted@, w as int, h as int);
        }
        proof {
            let a = choose|i: int| 0 <= i < squares@.len() && #[trigger] squares@[i].x == w - 1;
            let c = choose|i: int| 0 <= i < squares@.len() && #[trigger] squares@[i].y == h - 1;
            assert(forall|b: int| in_box(squares@, b, b) ==> squares@[a].x < b && squares@[c].y < b);
        }
        Shape { width: w, height: h, squares: sorted, mask: mask, boundary: boundary }
    }

    /// Parses a shape from a text grid: each character other than a space or a line
    /// ending fills the cell at its (column, row). A text that fills no cell gives
    /// no shape.
    pub fn parse(input: &str) -> (r: Option<Shape>)
        requires
            input@.len() <= MAX_SIDE,
        ensures
            r is None <==> grid_cells(input@).is_empty(),
            r matches Some(sh) ==> sh.wf() && sh.cells() == grid_cells(input@),
            r matches Some(sh) ==> sh.width <= input@.len() && sh.height <= input@.len(),
    {
        let s = chars_of(input);
        Shape::parse_chars(&s)
    }

    /// `parse` on the characters of a text.
    pub fn parse_chars(s: &Vec<char>) -> (r: Option<Shape>)
        requires
            s@.len() <= MAX_SIDE,
        ensures
            r is None <==> grid_cells(s@).is_empty(),
            r matches Some(sh) ==> sh.wf() && sh.cells() == grid_cells(s@),
            r matches Some(sh) ==> sh.width <= s@.len() && sh.height <= s@.len(),
    {
        let ghost t = s@;
        let mut squares: Vec<Vec2i> = Vec::new();
        let mut x: i32 = 0;
        let mut y: i32 = 0;
        let mut k: usize = 0;
        assert(pts(squares@) =~= grid_cells_upto(t, 0));
        while k < s.len()
            invariant
                s@ == t,
                t.len() <= MAX_SIDE,
                0 <= k <= t.len(),
                0 <= x <= k,
                0 <= y <= k,
                x == col_of(t, k as int),
                y == row_of(t, k as int),
                in_box(squares@, k as int, k as int),
                pts(squares@) == grid_cells_upto(t, k as int),
            decreases s.len() - k,
        {
            let c = s[k];
            let cell = c != ' ' && c != '\n' && !(c == '\r' && k + 1 < s.len() && s[k + 1] == '\n');
            assert(cell == is_cell_char(t, k as int));
            let ghost before = squares@;
            if cell {
                squares.push(Vec2 { x: x, y: y });
            }
            assert(pts(squares@) =~= grid_cells_upto(t, k as int + 1)) by {
                assert forall|q: (int, int)| #[trigger] pts(squares@).contains(q)
                    implies grid_cells_upto(t, k as int + 1).contains(q) by {
                    let j = choose|j: int| 0 <= j < squares@.len() && #[trigger] squares@[j]@ == q;
                    if j < before.len() {
                        assert(before[j]@ == q);
                        assert(pts(before).contains(q));
                    } else {
                        assert(q == grid_pos(t, k as int));
                    }
                }
                assert forall|q: (int, int)| #[trigger] grid_cells_upto(t, k as int + 1).contains(q)
                    implies pts(squares@).contains(q) by {
                    let j = choose|j: int|
                        0 <= j < k + 1 && is_cell_char(t, j) && q == #[trigger] grid_pos(t, j);
                    if j < k {
                        assert(grid_cells_upto(t, k as int).contains(q));
                        let i = choose|i: int| 0 <= i < before.len() && #[trigger] before[i]@ == q;
                        assert(squares@[i]@ == q);
                    } else {
                        assert(squares@[squares@.len() - 1]@ == q);
                    }
                }
            }
            if c == '\n' {
                x = 0;
                y = y + 1;
            } else {
                x = x + 1;
            }
            k = k + 1;
        }
        assert(in_box(squares@, MAX_SIDE as int, MAX_SIDE as int));
        assert(in_box(squares@, t.len() as int, t.len() as int));
        if squares.len() == 0 {
            assert(grid_cells(t) =~= Set::empty());
            None
        } else {
            assert(grid_cells(t).contains(squares@[0]@));
            Some(Shape::new(squares))
        }
    }

    /// The cells moved by `xform`, in the same order.
    fn moved_squares(&self, rot: Rotation, m: bool) -> (r: Vec<Vec2i>)
        requires
            self.wf(),
        ensures
            r@.len() == self.squares@.len(),
            r@.len() > 0,
            in_box(r@, MAX_SIDE as int, MAX_SIDE as int),
            in_box(r@, max(self.width as int, self.height as int), max(self.width as int, self.height as int)),
            pts(r@) == Set::new(
                |p: (int, int)|
                    self.cells().contains(xform_inv(p, self.width as int, self.height as int, rot, m)),
            ),
    {
        let w = self.width;
        let h = self.height;
        let mut res: Vec<Vec2i> = Vec::new();
        let mut i: usize = 0;
        while i < self.squares.len()
            invariant
                self.wf(),
                w == self.width,
                h == self.height,
                0 <= i <= self.squares@.len(),
                res@.len() == i,
                forall|j: int| 0 <= j < i ==> (#[trigger] res@[j])@ == xform(self.squares@[j]@, w as int, h as int, rot, m),
                in_box(res@, MAX_SIDE as int, MAX_SIDE as int),
                in_box(res@, max(w as int, h as int), max(w as int, h as int)),
            decreases self.squares.len() - i,
        {
            let q = self.squares[i];
            assert(0 <= q.x < w && 0 <= q.y < h);
            let p = if m {
                Vec2 { x: w - q.x - 1, y: q.y }
            } else {
                match rot {
                    Rotation::CW0 => Vec2 { x: q.x, y: q.y },
                    Rotation::CW90 => Vec2 { x: h - q.y - 1, y: q.x },
                    Rotation::CW180 => Vec2 { x: w - q.x - 1, y: h - q.y - 1 },
                    Rotation::CW270 => Vec2 { x: q.y, y: w - q.x - 1 },
                }
            };
            res.push(p);
            i = i + 1;
        }
        let ghost target = Set::new(
            |p: (int, int)| self.cells().contains(xform_inv(p, w as int, h as int, rot, m)),
        );
        assert forall|p: (int, int)| #[trigger] pts(res@).contains(p) <==> target.contains(p) by {
            if pts(res@).contains(p) {
                let j = choose|j: int| 0 <= j < res@.len() && #[trigger] res@[j]@ == p;
                assert(res@[j]@ == xform(self.squares@[j]@, w as int, h as int, rot, m));
                assert(self.squares@[j]@ == xform_inv(p, w as int, h as int, rot, m));
            }
            if target.contains(p) {
                let q = xform_inv(p, w as int, h as int, rot, m);
                let j = choose|j: int| 0 <= j < self.squares@.len() && #[trigger] self.squares@[j]@ == q;
                assert(res@[j]@ == p);
            }
        }
        assert(pts(res@) =~= target);
        res
    }

    /// Returns the shape mirrored across its vertical mid-line.
    pub fn mirrored(&self) -> (r: Shape)
        requires
            self.wf(),
        ensures
            r.wf(),
            r.cells() == mirror_cells(self.cells(), self.width as int),
            r.width <= max(self.width as int, self.height as int),
            r.height <= max(self.width as int, self.height as int),
    {
        let squares = self.moved_squares(Rotation::CW0, true);
        Shape::new(squares)
    }

    /// Returns the shape turned clockwise by the given amount.
    pub fn rotated(&self, rot: Rotation) -> (r: Shape)
        requires
            self.wf(),
        ensures
            r.wf(),
            r.cells() == rotate_cells(self.cells(), self.width as int, self.height as int, rot),
            r.width <= max(self.width as int, self.height as int),
            r.height <= max(self.width as int, self.height as int),
    {
        let squares = self.moved_squares(rot, false);
        Shape::new(squares)
    }

    /// A cheap size measure: the larger of width and height.
    pub fn approx_extent(&self) -> (r: i32)
        ensures
            r == max(self.width as int, self.height as int),
    {
        if self.width >= self.height {
            self.width
        } else {
            self.height
        }
    }

    /// Returns true if the cell at the given coordinates is filled.
    pub fn is_set(&self, x: i32, y: i32) -> (r: bool)
        requires
            self.wf(),
        ensures
            r == self.cells().contains((x as int, y as int)),
    {
        proof {
            if self.cells().contains((x as int, y as int)) {
                let i = choose|i: int|
                    0 <= i < self.squares@.len() && #[trigger] self.squares@[i]@ == (x as int, y as int);
                assert(0 <= self.squares@[i].x < self.width);
            }
        }
        x >= 0 && y >= 0 && x < self.width && y < self.height && self.mask[y as usize][x as usize]
    }
}

/// Two shapes are equal when they have the same width and the same bitmap.
impl PartialEq for Shape {
    fn eq(&self, rhs: &Shape) -> (r: bool) {
        if self.width != rhs.width || self.mask.len() != rhs.mask.len() {
            assert(self.width != rhs.width || self.mask_view().len() != rhs.mask_view().len());
            return false;
        }
        let mut y: usize = 0;
        while y < self.mask.len()
            invariant
                self.mask@.len() == rhs.mask@.len(),
                0 <= y <= self.mask@.len(),
                self.width == rhs.width,
                forall|k: int| 0 <= k < y ==> (#[trigger] self.mask@[k])@ == rhs.mask@[k]@,
            decreases self.mask.len() - y,
        {
            let a = &self.mask[y];
            let b = &rhs.mask[y];
            if a.len() != b.len() {
                assert(self.mask_view()[y as int] != rhs.mask_view()[y as int]);
                return false;
            }
            let mut x: usize = 0;
            while x < a.len()
                invariant
                    a@.len() == b@.len(),
                    0 <= x <= a@.len(),
                    y < self.mask@.len(),
                    self.mask@.len() == rhs.mask@.len(),
                    a@ == self.mask@[y as int]@,
                    b@ == rhs.mask@[y as int]@,
                    forall|k: int| 0 <= k < x ==> a@[k] == b@[k],
                decreases a.len() - x,
            {
                if a[x] != b[x] {
                    assert(self.mask_view()[y as int][x as int] != rhs.mask_view()[y as int][x as int]);
                    return false;
                }
                x = x + 1;
            }
            assert(a@ =~= b@);
            y = y + 1;
        }
        assert(self.mask_view() =~= rhs.mask_view());
        true
    }
}

impl vstd::std_specs::cmp::PartialEqSpecImpl for Shape {
    open spec fn obeys_eq_spec() -> bool {
        true
    }

    open spec fn eq_spec(&self, rhs: &Shape) -> bool {
        self.same_as(rhs)
    }
}

impl Shape {
    /// What `==` decides: the same width and the same bitmap.
    pub open spec fn same_as(&self, rhs: &Shape) -> bool {
        self.width == rhs.width && self.mask_view() == rhs.mask_view()
    }

    /// The cells touch both axes: the smallest `x` and the smallest `y` are 0.
    pub open spec fn normalized(&self) -> bool {
        &&& exists|i: int| 0 <= i < self.squares@.len() && (#[trigger] self.squares@[i]).x == 0
        &&& exists|i: int| 0 <= i < self.squares@.len() && (#[trigger] self.squares@[i]).y == 0
    }

    /// Well-formed shapes are equal exactly when they fill the same cells.
    pub proof fn lemma_eq_iff_same_cells(a: Shape, b: Shape)
        requires
            a.wf(),
            b.wf(),
        ensures
            a.same_as(&b) <==> a.cells() == b.cells(),
    {
        if a.cells() == b.cells() {
            let i = choose|i: int| 0 <= i < a.squares@.len() && #[trigger] a.squares@[i].x == a.width - 1;
            assert(a.cells().contains(a.squares@[i]@));
            let j = choose|j: int| 0 <= j < b.squares@.len() && #[trigger] b.squares@[j]@ == a.squares@[i]@;
            assert(b.squares@[j].x < b.width);
            let i2 = choose|i: int| 0 <= i < b.squares@.len() && #[trigger] b.squares@[i].x == b.width - 1;
            assert(b.cells().contains(b.squares@[i2]@));
            let j2 = choose|j: int| 0 <= j < a.squares@.len() && #[trigger] a.squares@[j]@ == b.squares@[i2]@;
            assert(a.squares@[j2].x < a.width);
            let k = choose|i: int| 0 <= i < a.squares@.len() && #[trigger] a.squares@[i].y == a.height - 1;
            assert(a.cells().contains(a.squares@[k]@));
            let l = choose|j: int| 0 <= j < b.squares@.len() && #[trigger] b.squares@[j]@ == a.squares@[k]@;
            assert(b.squares@[l].y < b.height);
            let k2 = choose|i: int| 0 <= i < b.squares@.len() && #[trigger] b.squares@[i].y == b.height - 1;
            assert(b.cells().contains(b.squares@[k2]@));
            let l2 = choose|j: int| 0 <= j < a.squares@.len() && #[trigger] a.squares@[j]@ == b.squares@[k2]@;
            assert(a.squares@[l2].y < a.height);
            assert(a.width == b.width && a.height == b.height);
            assert forall|y: int| 0 <= y < a.height implies #[trigger] a.mask_view()[y] == b.mask_view()[y] by {
                assert(a.mask_view()[y] =~= b.mask_view()[y]);
            }
            assert(a.mask_view() =~= b.mask_view());
        }
        if a.same_as(&b) {
            assert(a.mask@.len() == a.mask_view().len());
            assert forall|p: (int, int)| a.cells().contains(p) implies #[trigger] b.cells().contains(p) by {
                let i = choose|i: int| 0 <= i < a.squares@.len() && #[trigger] a.squares@[i]@ == p;
                assert(0 <= a.squares@[i].x < a.width && 0 <= a.squares@[i].y < a.height);
                assert(a.mask@[p.1]@[p.0] == a.mask_view()[p.1][p.0]);
                assert(b.mask@[p.1]@[p.0] == b.mask_view()[p.1][p.0]);
            }
            assert forall|p: (int, int)| b.cells().contains(p) implies #[trigger] a.cells().contains(p) by {
                let i = choose|i: int| 0 <= i < b.squares@.len() && #[trigger] b.squares@[i]@ == p;
                assert(0 <= b.squares@[i].x < b.width && 0 <= b.squares@[i].y < b.height);
                assert(a.mask@[p.1]@[p.0] == a.mask_view()[p.1][p.0]);
                assert(b.mask@[p.1]@[p.0] == b.mask_view()[p.1][p.0]);
            }
            assert(a.cells() =~= b.cells());
        }
    }
}

impl Shape {
    proof fn lemma_cell_index(s: Shape, p: (int, int)) -> (i: int)
        requires
            s.wf(),
            s.cells().contains(p),
        ensures
            0 <= i < s.squares@.len(),
            s.squares@[i]@ == p,
            0 <= p.0 < s.width,
            0 <= p.1 < s.height,
    {
        let i = choose|i: int| 0 <= i < s.squares@.len() && #[trigger] s.squares@[i]@ == p;
        assert(0 <= s.squares@[i].x < s.width);
        i
    }

    proof fn lemma_rotate90_dims(s: Shape, r: Shape)
        requires
            s.wf(),
            s.normalized(),
            r.wf(),
            r.cells() == rotate_cells(s.cells(), s.width as int, s.height as int, Rotation::CW90),
        ensures
            r.width == s.height,
            r.height == s.width,
            r.normalized(),
    {
        let h = s.height as int;
        let a = choose|i: int| 0 <= i < r.squares@.len() && #[trigger] r.squares@[i].x == r.width - 1;
        assert(r.cells().contains(r.squares@[a]@));
        Self::lemma_cell_index(s, xform_inv(r.squares@[a]@, s.width as int, h, Rotation::CW90, false));
        let b = choose|i: int| 0 <= i < s.squares@.len() && (#[trigger] s.squares@[i]).y == 0;
        assert(s.cells().contains(s.squares@[b]@));
        let pb = (h - 1, s.squares@[b].x as int);
        assert(r.cells().contains(pb));
        Self::lemma_cell_index(r, pb);
        let c = choose|i: int| 0 <= i < s.squares@.len() && #[trigger] s.squares@[i].x == s.width - 1;
        assert(s.cells().contains(s.squares@[c]@));
        let pc = (h - 1 - s.squares@[c].y, s.width - 1);
        assert(r.cells().contains(pc));
        Self::lemma_cell_index(r, pc);
        let d = choose|i: int| 0 <= i < r.squares@.len() && #[trigger] r.squares@[i].y == r.height - 1;
        assert(r.cells().contains(r.squares@[d]@));
        Self::lemma_cell_index(s, xform_inv(r.squares@[d]@, s.width as int, h, Rotation::CW90, false));
        let e = choose|i: int| 0 <= i < s.squares@.len() && #[trigger] s.squares@[i].y == s.height - 1;
        assert(s.cells().contains(s.squares@[e]@));
        let pe = (0int, s.squares@[e].x as int);
        assert(r.cells().contains(pe));
        let ie = Self::lemma_cell_index(r, pe);
        assert(r.squares@[ie].x == 0);
        let f = choose|i: int| 0 <= i < s.squares@.len() && (#[trigger] s.squares@[i]).x == 0;
        assert(s.cells().contains(s.squares@[f]@));
        let pf = (h - 1 - s.squares@[f].y, 0int);
        assert(r.cells().contains(pf));
        let if_ = Self::lemma_cell_index(r, pf);
        assert(r.squares@[if_].y == 0);
    }

    proof fn lemma_mirror_dims(s: Shape, r: Shape)
        requires
            s.wf(),
            s.normalized(),
            r.wf(),
            r.cells() == mirror_cells(s.cells(), s.width as int),
        ensures
            r.width == s.width,
            r.height == s.height,
            r.normalized(),
    {
        let w = s.width as int;
        let a = choose|i: int| 0 <= i < r.squares@.len() && #[trigger] r.squares@[i].x == r.width - 1;
        assert(r.cells().contains(r.squares@[a]@));
        Self::lemma_cell_index(s, xform_inv(r.squares@[a]@, w, 0, Rotation::CW0, true));
        let b = choose|i: int| 0 <= i < s.squares@.len() && (#[trigger] s.squares@[i]).x == 0;
        assert(s.cells().contains(s.squares@[b]@));
        let pb = (w - 1, s.squares@[b].y as int);
        assert(r.cells().contains(pb));
        Self::lemma_cell_index(r, pb);
        let c = choose|i: int| 0 <= i < s.squares@.len() && #[trigger] s.squares@[i].y == s.height - 1;
        assert(s.cells().contains(s.squares@[c]@));
        let pc = (w - 1 - s.squares@[c].x, s.height - 1);
        assert(r.cells().contains(pc));
        Self::lemma_cell_index(r, pc);
        let d = choose|i: int| 0 <= i < r.squares@.len() && #[trigger] r.squares@[i].y == r.height - 1;
        assert(r.cells().contains(r.squares@[d]@));
        Self::lemma_cell_index(s, xform_inv(r.squares@[d]@, w, 0, Rotation::CW0, true));
        let e = choose|i: int| 0 <= i < s.squares@.len() && #[trigger] s.squares@[i].x == s.width - 1;
        assert(s.cells().contains(s.squares@[e]@));
        let pe = (0int, s.squares@[e].y as int);
        assert(r.cells().contains(pe));
        let ie = Self::lemma_cell_index(r, pe);
        assert(r.squares@[ie].x == 0);
        let f = choose|i: int| 0 <= i < s.squares@.len() && (#[trigger] s.squares@[i]).y == 0;
        assert(s.cells().contains(s.squares@[f]@));
        let pf = (w - 1 - s.squares@[f].x, 0int);
        assert(r.cells().contains(pf));
        let if_ = Self::lemma_cell_index(r, pf);
        assert(r.squares@[if_].y == 0);
    }

    /// Turning a shape that touches both axes four times by 90 degrees gives a
    /// shape equal to it.
    pub proof fn lemma_rotate_four_times(s: Shape, r1: Shape, r2: Shape, r3: Shape, r4: Shape)
        requires
            s.wf(),
            s.normalized(),
            r1.wf(),
            r2.wf(),
            r3.wf(),
            r4.wf(),
            r1.cells() == rotate_cells(s.cells(), s.width as int, s.height as int, Rotation::CW90),
            r2.cells() == rotate_cells(r1.cells(), r1.width as int, r1.height as int, Rotation::CW90),
            r3.cells() == rotate_cells(r2.cells(), r2.width as int, r2.height as int, Rotation::CW90),
            r4.cells() == rotate_cells(r3.cells(), r3.width as int, r3.height as int, Rotation::CW90),
        ensures
            r4.same_as(&s),
            r4.cells() == s.cells(),
    {
        Self::lemma_rotate90_dims(s, r1);
        Self::lemma_rotate90_dims(r1, r2);
        Self::lemma_rotate90_dims(r2, r3);
        assert(r4.cells() =~= s.cells());
        Self::lemma_eq_iff_same_cells(r4, s);
    }

    /// Mirroring a shape that touches both axes twice gives a shape equal to it.
    pub proof fn lemma_mirror_twice(s: Shape, m1: Shape, m2: Shape)
        requires
            s.wf(),
            s.normalized(),
            m1.wf(),
            m2.wf(),
            m1.cells() == mirror_cells(s.cells(), s.width as int),
            m2.cells() == mirror_cells(m1.cells(), m1.width as int),
        ensures
            m2.same_as(&s),
            m2.cells() == s.cells(),
    {
        Self::lemma_mirror_dims(s, m1);
        assert(m2.cells() =~= s.cells());
        Self::lemma_eq_iff_same_cells(m2, s);
    }
}

/// `w` and `h` are one more than the largest coordinates in `c`, which lies in
/// the box `[0, w) x [0, h)`.
pub open spec fn tight_set(c: Set<(int, int)>, w: int, h: int) -> bool {
    &&& forall|p: (int, int)| c.contains(p) ==> 0 <= p.0 < w && 0 <= p.1 < h
    &&& exists|p: (int, int)| c.contains(p) && p.0 == w - 1
    &&& exists|p: (int, int)| c.contains(p) && p.1 == h - 1
}

/// Width and height of the box that a set of cells fills.
pub open spec fn set_extents(c: Set<(int, int)>) -> (int, int) {
    choose|wh: (int, int)| tight_set(c, wh.0, wh.1)
}

/// The three turned copies of `c` (90, 180, 270 degrees), when `rotated`.
pub open spec fn turns(c: Set<(int, int)>, rotated: bool) -> Seq<Set<(int, int)>> {
    let (w, h) = set_extents(c);
    if rotated {
        seq![
            rotate_cells(c, w, h, Rotation::CW90),
            rotate_cells(c, w, h, Rotation::CW180),
            rotate_cells(c, w, h, Rotation::CW270),
        ]
    } else {
        Seq::empty()
    }
}

/// The cell sets a shape's variants are drawn from, in order: the shape, its
/// turns, then its mirror image and the turns of that.
pub open spec fn variant_candidates(c: Set<(int, int)>, mirrored: bool, rotated: bool) -> Seq<Set<(int, int)>> {
    let m = mirror_cells(c, set_extents(c).0);
    seq![c] + turns(c, rotated) + if mirrored {
        seq![m] + turns(m, rotated)
    } else {
        Seq::empty()
    }
}

/// Appends `x` unless it is already there.
pub open spec fn add_unique(d: Seq<Set<(int, int)>>, x: Set<(int, int)>) -> Seq<Set<(int, int)>> {
    if d.contains(x) {
        d
    } else {
        d.push(x)
    }
}

/// The sequence with every later repeat of an element dropped.
pub open spec fn dedup(s: Seq<Set<(int, int)>>) -> Seq<Set<(int, int)>>
    decreases s.len(),
{
    if s.len() == 0 {
        s
    } else {
        add_unique(dedup(s.drop_last()), s.last())
    }
}

/// The larger of two integers.
pub open spec fn max(a: int, b: int) -> int {
    if a >= b {
        a
    } else {
        b
    }
}

/// Every shape of the list is at most `m` wide and `m` high.
pub open spec fn all_within(v: Seq<Shape>, m: int) -> bool {
    forall|i: int| 0 <= i < v.len() ==> (#[trigger] v[i]).width <= m && v[i].height <= m
}

/// The cells of each shape of a list.
pub open spec fn shape_cells(v: Seq<Shape>) -> Seq<Set<(int, int)>> {
    v.map_values(|s: Shape| s.cells())
}

pub open spec fn all_wf(v: Seq<Shape>) -> bool {
    forall|i: int| 0 <= i < v.len() ==> (#[trigger] v[i]).wf()
}

/// A sequence without repeats has at most as many elements as the one it came
/// from, and at least one when that one is not empty.
pub proof fn lemma_dedup_len(s: Seq<Set<(int, int)>>)
    ensures
        dedup(s).len() <= s.len(),
        s.len() > 0 ==> dedup(s).len() >= 1,
    decreases s.len(),
{
    if s.len() > 0 {
        lemma_dedup_len(s.drop_last());
        if dedup(s.drop_last()).contains(s.last()) {
            assert(dedup(s.drop_last()).len() > 0);
        }
    }
}

proof fn lemma_dedup_push(s: Seq<Set<(int, int)>>, x: Set<(int, int)>)
    ensures
        dedup(s.push(x)) == add_unique(dedup(s), x),
{
    assert(s.push(x).drop_last() =~= s);
    assert(s.push(x).last() == x);
}

impl Shape {
    proof fn lemma_set_extents(s: Shape)
        requires
            s.wf(),
        ensures
            set_extents(s.cells()) == (s.width as int, s.height as int),
    {
        let c = s.cells();
        assert forall|p: (int, int)| c.contains(p) implies 0 <= p.0 < s.width && 0 <= p.1 < s.height by {
            Self::lemma_cell_index(s, p);
        }
        let a = choose|i: int| 0 <= i < s.squares@.len() && #[trigger] s.squares@[i].x == s.width - 1;
        assert(c.contains(s.squares@[a]@));
        let b = choose|i: int| 0 <= i < s.squares@.len() && #[trigger] s.squares@[i].y == s.height - 1;
        assert(c.contains(s.squares@[b]@));
        assert(tight_set(c, (s.width as int, s.height as int).0, (s.width as int, s.height as int).1));
        let (w, h) = set_extents(c);
        assert(tight_set(c, w, h));
        let p = choose|p: (int, int)| c.contains(p) && p.0 == w - 1;
        let q = choose|p: (int, int)| c.contains(p) && p.1 == h - 1;
    }

    /// Appends `s` to `res` unless an equal shape is there already.
    fn push_unique(res: &mut Vec<Shape>, s: Shape, Ghost(m): Ghost<int>)
        requires
            all_wf(old(res)@),
            s.wf(),
            all_within(old(res)@, m),
            s.width <= m && s.height <= m,
        ensures
            all_wf(final(res)@),
            all_within(final(res)@, m),
            shape_cells(final(res)@) == add_unique(shape_cells(old(res)@), s.cells()),
    {
        let mut i: usize = 0;
        while i < res.len()
            invariant
                all_wf(res@),
                all_within(res@, m),
                s.wf(),
                0 <= i <= res@.len(),
                forall|k: int| 0 <= k < i ==> (#[trigger] res@[k]).cells() != s.cells(),
            decreases res.len() - i,
        {
            let same = res[i] == s;
            proof {
                Self::lemma_eq_iff_same_cells(res@[i as int], s);
            }
            if same {
                assert(shape_cells(res@)[i as int] == s.cells());
                return;
            }
            i = i + 1;
        }
        assert(!shape_cells(res@).contains(s.cells())) by {
            if shape_cells(res@).contains(s.cells()) {
                let k = choose|k: int| 0 <= k < shape_cells(res@).len() && shape_cells(res@)[k] == s.cells();
                assert(res@[k].cells() == s.cells());
            }
        }
        let ghost pre = res@;
        res.push(s);
        assert(shape_cells(res@) =~= shape_cells(pre).push(s.cells()));
    }

    /// Adds the three turned copies of `s` when `rotated`, each unless an equal
    /// shape is there already.
    fn push_turns(
        res: &mut Vec<Shape>,
        s: &Shape,
        rotated: bool,
        Ghost(cands): Ghost<Seq<Set<(int, int)>>>,
        Ghost(m): Ghost<int>,
    )
        requires
            all_wf(old(res)@),
            s.wf(),
            shape_cells(old(res)@) == dedup(cands),
            all_within(old(res)@, m),
            max(s.width as int, s.height as int) <= m,
        ensures
            all_wf(final(res)@),
            all_within(final(res)@, m),
            shape_cells(final(res)@) == dedup(cands + turns(s.cells(), rotated)),
    {
        proof {
            Self::lemma_set_extents(*s);
        }
        if rotated {
            let ghost t = turns(s.cells(), rotated);
            let r90 = s.rotated(Rotation::CW90);
            Self::push_unique(res, r90, Ghost(m));
            proof {
                lemma_dedup_push(cands, t[0]);
            }
            let r180 = s.rotated(Rotation::CW180);
            Self::push_unique(res, r180, Ghost(m));
            proof {
                lemma_dedup_push(cands.push(t[0]), t[1]);
            }
            let r270 = s.rotated(Rotation::CW270);
            Self::push_unique(res, r270, Ghost(m));
            proof {
                lemma_dedup_push(cands.push(t[0]).push(t[1]), t[2]);
                assert(cands.push(t[0]).push(t[1]).push(t[2]) =~= cands + t);
            }
        } else {
            assert(cands + turns(s.cells(), rotated) =~= cands);
        }
    }

    /// The distinct variants of the shape: the shape itself, then, when
    /// `rotated`, its turns, then, when `mirrored`, its mirror image and the turns
    /// of that; a variant equal to an earlier one is left out.
    pub fn variants(&self, mirrored: bool, rotated: bool) -> (r: Vec<Shape>)
        requires
            self.wf(),
        ensures
            all_wf(r@),
            shape_cells(r@) == dedup(variant_candidates(self.cells(), mirrored, rotated)),
            all_within(r@, max(self.width as int, self.height as int)),
    {
        let ghost mx = max(self.width as int, self.height as int);
        let ghost c = self.cells();
        proof {
            Self::lemma_set_extents(*self);
        }
        let mut res: Vec<Shape> = Vec::new();
        let s = self.rotated(Rotation::CW0);
        assert(s.cells() =~= c);
        assert(shape_cells(res@) =~= Seq::empty());
        assert(dedup(Seq::empty()) == Seq::<Set<(int, int)>>::empty());
        Self::push_unique(&mut res, s, Ghost(mx));
        proof {
            lemma_dedup_push(Seq::empty(), c);
            assert(Seq::<Set<(int, int)>>::empty().push(c) =~= seq![c]);
        }
        let ghost first = seq![c];
        Self::push_turns(&mut res, self, rotated, Ghost(first), Ghost(mx));
        let ghost cands = seq![c] + turns(c, rotated);
        if mirrored {
            let m = self.mirrored();
            let ghost mc = m.cells();
            Self::push_turns(&mut res, &m, false, Ghost(cands), Ghost(mx));
            assert(cands + turns(mc, false) =~= cands);
            proof {
                lemma_dedup_push(cands, mc);
            }
            Self::push_unique(&mut res, m.rotated(Rotation::CW0), Ghost(mx));
            assert(rotate_cells(mc, m.width as int, m.height as int, Rotation::CW0) =~= mc);
            let ghost with_m = cands.push(mc);
            Self::push_turns(&mut res, &m, rotated, Ghost(with_m), Ghost(mx));
            assert(cands.push(mc) + turns(mc, rotated) =~= cands + (seq![mc] + turns(mc, rotated)));
            assert(variant_candidates(c, mirrored, rotated) =~= cands + (seq![mc] + turns(mc, rotated)));
        } else {
            assert(variant_candidates(c, mirrored, rotated) =~= cands);
        }
        res
    }
}

/// Without mirroring or turning a shape has exactly one variant; with both it
/// has between one and eight.
pub proof fn lemma_variant_counts(c: Set<(int, int)>)
    ensures
        dedup(variant_candidates(c, false, false)).len() == 1,
        1 <= dedup(variant_candidates(c, true, true)).len() <= 8,
{
    let none = variant_candidates(c, false, false);
    assert(none =~= seq![c]);
    lemma_dedup_len(none);
    let all = variant_candidates(c, true, true);
    assert(all.len() == 8);
    lemma_dedup_len(all);
}

} // verus!
