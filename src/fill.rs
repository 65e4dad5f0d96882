use vstd::prelude::*;
use crate::geom::{dir8, lemma_pts_len, offset8, pts, shift};
use crate::vec2::{Vec2, Vec2i};

verus! {

/// The cell lies in the grid `[0, w) x [0, h)`.
pub open spec fn in_grid(w: int, h: int, c: (int, int)) -> bool {
    0 <= c.0 < w && 0 <= c.1 < h
}

/// The cell lies in the grid and is not occupied.
pub open spec fn free(occ: Set<(int, int)>, w: int, h: int, c: (int, int)) -> bool {
    in_grid(w, h, c) && !occ.contains(c)
}

/// The two cells are distinct and touch by an edge or a corner.
pub open spec fn adj8(a: (int, int), b: (int, int)) -> bool {
    a != b && -1 <= a.0 - b.0 <= 1 && -1 <= a.1 - b.1 <= 1
}

/// `p` is a walk from `s` whose every later cell is free and touches the one
/// before it.
pub open spec fn is_fill_path(occ: Set<(int, int)>, w: int, h: int, s: (int, int), p: Seq<(int, int)>) -> bool {
    &&& p.len() >= 1
    &&& p[0] == s
    &&& forall|i: int| 1 <= i < p.len() ==> free(occ, w, h, #[trigger] p[i]) && adj8(p[i - 1], p[i])
}

/// The cells that a fill from `s` over free cells reaches.
pub open spec fn region(occ: Set<(int, int)>, w: int, h: int, s: (int, int)) -> Set<(int, int)> {
    Set::new(|c: (int, int)| exists|p: Seq<(int, int)>| #[trigger] is_fill_path(occ, w, h, s, p) && p.last() == c)
}

/// No cell of the region has a neighbour outside the grid.
pub open spec fn enclosed(occ: Set<(int, int)>, w: int, h: int, s: (int, int)) -> bool {
    forall|c: (int, int), d: int|
        region(occ, w, h, s).contains(c) && 0 <= d < 8 ==> in_grid(w, h, #[trigger] shift(c, dir8(d)))
}

/// All cells of the grid `[0, w) x [0, h)`.
pub open spec fn grid_set(w: int, h: int) -> Set<(int, int)> {
    Set::new(|c: (int, int)| in_grid(w, h, c))
}

proof fn lemma_row_finite(w: int, y: int)
    requires
        0 <= w,
    ensures
        Set::new(|c: (int, int)| 0 <= c.0 < w && c.1 == y).finite(),
        Set::new(|c: (int, int)| 0 <= c.0 < w && c.1 == y).len() <= w,
    decreases w,
{
    let r = Set::new(|c: (int, int)| 0 <= c.0 < w && c.1 == y);
    if w == 0 {
        assert(r =~= Set::empty());
    } else {
        let r1 = Set::new(|c: (int, int)| 0 <= c.0 < w - 1 && c.1 == y);
        lemma_row_finite(w - 1, y);
        assert(r =~= r1.insert((w - 1, y)));
    }
}

/// The grid has at most `w * h` cells.
proof fn lemma_grid_finite(w: int, h: int)
    requires
        0 <= w,
        0 <= h,
    ensures
        grid_set(w, h).finite(),
        grid_set(w, h).len() <= w * h,
    decreases h,
{
    if h == 0 {
        assert(grid_set(w, h) =~= Set::empty());
    } else {
        lemma_grid_finite(w, h - 1);
        lemma_row_finite(w, h - 1);
        let r = Set::new(|c: (int, int)| 0 <= c.0 < w && c.1 == h - 1);
        assert(grid_set(w, h) =~= grid_set(w, h - 1).union(r));
        vstd::set_lib::lemma_len_union(grid_set(w, h - 1), r);
        assert(w * (h - 1) + w == w * h) by (nonlinear_arith);
    }
}

/// The cells marked in a row-per-`y` bitmap.
pub open spec fn mask_set(m: Seq<Vec<bool>>) -> Set<(int, int)> {
    Set::new(|c: (int, int)| 0 <= c.1 < m.len() && 0 <= c.0 < m[c.1]@.len() && m[c.1]@[c.0])
}

/// A bitmap of `h` rows of `w` cells.
pub open spec fn is_grid(m: Seq<Vec<bool>>, w: int, h: int) -> bool {
    &&& m.len() == h
    &&& forall|y: int| 0 <= y < h ==> (#[trigger] m[y])@.len() == w
}

/// The first free neighbour of `c`, looking from direction `d` on; `c` when
/// there is none.
pub open spec fn first_free_nbr(occ: Set<(int, int)>, w: int, h: int, c: (int, int), d: int) -> (int, int)
    decreases 8 - d,
{
    if d >= 8 {
        c
    } else if free(occ, w, h, shift(c, dir8(d))) {
        shift(c, dir8(d))
    } else {
        first_free_nbr(occ, w, h, c, d + 1)
    }
}

/// Where the fill starts: the centre cell of the grid, or, when that is
/// occupied, its first free neighbour.
pub open spec fn fill_seed(occ: Set<(int, int)>, w: int, h: int) -> (int, int) {
    let c = (w / 2, h / 2);
    if occ.contains(c) {
        first_free_nbr(occ, w, h, c, 0)
    } else {
        c
    }
}

spec fn row_falses(r: Seq<bool>) -> nat
    decreases r.len(),
{
    if r.len() == 0 {
        0
    } else {
        row_falses(r.drop_last()) + if r.last() { 0nat } else { 1nat }
    }
}

spec fn falses(m: Seq<Vec<bool>>) -> nat
    decreases m.len(),
{
    if m.len() == 0 {
        0
    } else {
        falses(m.drop_last()) + row_falses(m.last()@)
    }
}

proof fn lemma_row_mark(r: Seq<bool>, x: int)
    requires
        0 <= x < r.len(),
        !r[x],
    ensures
        row_falses(r.update(x, true)) + 1 == row_falses(r),
    decreases r.len(),
{
    let u = r.update(x, true);
    if x == r.len() - 1 {
        assert(u.drop_last() =~= r.drop_last());
    } else {
        assert(u.drop_last() =~= r.drop_last().update(x, true));
        lemma_row_mark(r.drop_last(), x);
    }
}

proof fn lemma_grid_mark(m: Seq<Vec<bool>>, y: int, row: Vec<bool>)
    requires
        0 <= y < m.len(),
        row_falses(row@) + 1 == row_falses(m[y]@),
    ensures
        falses(m.update(y, row)) + 1 == falses(m),
    decreases m.len(),
{
    let u = m.update(y, row);
    if y == m.len() - 1 {
        assert(u.drop_last() =~= m.drop_last());
    } else {
        assert(u.drop_last() =~= m.drop_last().update(y, row));
        lemma_grid_mark(m.drop_last(), y, row);
    }
}

/// The direction that leads from `a` to a cell `b` touching it.
proof fn lemma_dir_between(a: (int, int), b: (int, int)) -> (e: int)
    requires
        adj8(a, b),
    ensures
        0 <= e < 8,
        shift(a, dir8(e)) == b,
{
    let dx = b.0 - a.0;
    let dy = b.1 - a.1;
    if dx == 1 && dy == 0 {
        0
    } else if dx == 0 && dy == 1 {
        1
    } else if dx == -1 && dy == 0 {
        2
    } else if dx == 0 && dy == -1 {
        3
    } else if dx == 1 && dy == -1 {
        4
    } else if dx == 1 && dy == 1 {
        5
    } else if dx == -1 && dy == 1 {
        6
    } else {
        7
    }
}

/// A set that holds `s` and every free neighbour of each of its cells holds
/// the end of every fill path.
proof fn lemma_region_within(occ: Set<(int, int)>, w: int, h: int, s: (int, int), d: Set<(int, int)>, p: Seq<(int, int)>)
    requires
        d.contains(s),
        forall|a: (int, int), e: int|
            d.contains(a) && 0 <= e < 8 && free(occ, w, h, #[trigger] shift(a, dir8(e))) ==> d.contains(shift(a, dir8(e))),
        is_fill_path(occ, w, h, s, p),
    ensures
        d.contains(p.last()),
    decreases p.len(),
{
    if p.len() > 1 {
        let q = p.drop_last();
        assert forall|i: int| 1 <= i < q.len() implies free(occ, w, h, #[trigger] q[i]) && adj8(q[i - 1], q[i]) by {
            assert(q[i] == p[i] && q[i - 1] == p[i - 1]);
        }
        lemma_region_within(occ, w, h, s, d, q);
        let n = p.len() - 1;
        assert(free(occ, w, h, p[n]) && adj8(p[n - 1], p[n]));
        let e = lemma_dir_between(p[n - 1], p[n]);
        assert(q.last() == p[n - 1]);
    }
}

proof fn lemma_pts_push(s: Seq<Vec2i>, x: Vec2i)
    ensures
        pts(s.push(x)) == pts(s).insert(x@),
{
    let t = s.push(x);
    assert forall|c: (int, int)| #[trigger] pts(t).contains(c) <==> pts(s).insert(x@).contains(c) by {
        if pts(t).contains(c) {
            let i = choose|i: int| 0 <= i < t.len() && #[trigger] t[i]@ == c;
            if i < s.len() {
                assert(s[i]@ == c);
            }
        }
        if pts(s).contains(c) {
            let i = choose|i: int| 0 <= i < s.len() && #[trigger] s[i]@ == c;
            assert(t[i]@ == c);
        }
        if c == x@ {
            assert(t[s.len() as int]@ == c);
        }
    }
    assert(pts(t) =~= pts(s).insert(x@));
}

/// Fills from `seed` over the unmarked cells of a bitmap, stepping to the eight
/// neighbours. Gives the cells reached (the seed included) when none of them has
/// a neighbour outside the grid, and nothing otherwise.
pub fn fill_grid(grid: Vec<Vec<bool>>, w: i32, h: i32, seed: Vec2i) -> (r: Option<Vec<Vec2i>>)
    requires
        1 <= w < i32::MAX,
        1 <= h < i32::MAX,
        is_grid(grid@, w as int, h as int),
        in_grid(w as int, h as int, seed@),
    ensures
        r is Some <==> enclosed(mask_set(grid@), w as int, h as int, seed@),
        r matches Some(v) ==> v@.no_duplicates() && pts(v@) == region(mask_set(grid@), w as int, h as int, seed@),
        r matches Some(v) ==> v@.len() <= w * h,
{
    let ghost occ = mask_set(grid@);
    let ghost s = seed@;
    let ghost g = grid@;
    let ghost reg = region(occ, w as int, h as int, s);
    let mut mask = grid;
    let mut visited: Vec<Vec2i> = Vec::new();
    let mut stack: Vec<Vec2i> = Vec::new();
    let ghost mut paths: Map<(int, int), Seq<(int, int)>> = Map::empty();
    // mark the seed
    let sy = seed.y as usize;
    let sx = seed.x as usize;
    let ghost m0 = mask@;
    let mut row = mask[sy].clone();
    assert(row@ =~= mask@[sy as int]@);
    row.set(sx, true);
    mask.set(sy, row);
    stack.push(seed);
    proof {
        paths = paths.insert(s, seq![s]);
        assert(is_fill_path(occ, w as int, h as int, s, seq![s]));
    }
    assert(pts(visited@) + pts(stack@) =~= set![s]) by {
        assert(stack@[0]@ == s);
    }
    while stack.len() > 0
        invariant
            1 <= w < i32::MAX,
            1 <= h < i32::MAX,
            occ == mask_set(m0),
            m0 == g,
            g == grid@,
            s == seed@,
            is_grid(m0, w as int, h as int),
            is_grid(mask@, w as int, h as int),
            reg == region(occ, w as int, h as int, s),
            in_grid(w as int, h as int, s),
            visited@.no_duplicates(),
            stack@.no_duplicates(),
            forall|i: int, j: int|
                0 <= i < visited@.len() && 0 <= j < stack@.len() ==> (#[trigger] visited@[i])@ != (#[trigger] stack@[j])@,
            (pts(visited@) + pts(stack@)).contains(s),
            forall|c: (int, int)| #[trigger] (pts(visited@) + pts(stack@)).contains(c) ==> in_grid(w as int, h as int, c),
            forall|x: int, y: int|
                in_grid(w as int, h as int, (x, y)) ==> (#[trigger] mask@[y]@[x] <==> occ.contains((x, y)) || (pts(
                    visited@,
                ) + pts(stack@)).contains((x, y))),
            forall|c: (int, int)| #[trigger] (pts(visited@) + pts(stack@)).contains(c) ==> paths.contains_key(c) && is_fill_path(
                occ,
                w as int,
                h as int,
                s,
                paths[c],
            ) && paths[c].last() == c,
            forall|c: (int, int), e: int|
                pts(visited@).contains(c) && 0 <= e < 8 ==> in_grid(w as int, h as int, #[trigger] shift(c, dir8(e))),
            forall|c: (int, int), e: int|
                pts(visited@).contains(c) && 0 <= e < 8 && free(occ, w as int, h as int, #[trigger] shift(c, dir8(e)))
                    ==> (pts(visited@) + pts(stack@)).contains(shift(c, dir8(e))),
        decreases 2 * falses(mask@) + stack@.len(),
    {
        let ghost budget = 2 * falses(mask@) + stack@.len();
        let ghost before = stack@;
        let c = stack.pop().unwrap();
        proof {
            assert(before =~= stack@.push(c));
            lemma_pts_push(stack@, c);
            assert(pts(before).contains(c@));
            assert((pts(visited@) + pts(before)).contains(c@));
            assert(!pts(stack@).contains(c@)) by {
                if pts(stack@).contains(c@) {
                    let i = choose|i: int| 0 <= i < stack@.len() && #[trigger] stack@[i]@ == c@;
                    assert(before[i] == c);
                    assert(before[before.len() - 1] == c);
                }
            }
            assert(!pts(visited@).contains(c@)) by {
                if pts(visited@).contains(c@) {
                    let i = choose|i: int| 0 <= i < visited@.len() && #[trigger] visited@[i]@ == c@;
                    assert(before[before.len() - 1] == c);
                }
            }
            assert((pts(visited@) + pts(before)) =~= (pts(visited@) + pts(stack@)).insert(c@));
        }
        assert forall|q: (int, int)| #[trigger] (pts(visited@) + pts(stack@)).contains(q) implies in_grid(w as int, h as int, q)
            && paths.contains_key(q) && is_fill_path(occ, w as int, h as int, s, paths[q]) && paths[q].last() == q by {
            assert((pts(visited@) + pts(before)).contains(q));
        }
        let ghost pc = paths[c@];
        let mut e: usize = 0;
        while e < 8
            invariant
                1 <= w < i32::MAX,
                1 <= h < i32::MAX,
                occ == mask_set(m0),
                m0 == g,
                g == grid@,
                s == seed@,
            m0 == g,
            g == grid@,
            s == seed@,
                is_grid(m0, w as int, h as int),
                is_grid(mask@, w as int, h as int),
                reg == region(occ, w as int, h as int, s),
                in_grid(w as int, h as int, s),
                in_grid(w as int, h as int, c@),
                0 <= e <= 8,
                2 * falses(mask@) + stack@.len() < budget,
                visited@.no_duplicates(),
                stack@.no_duplicates(),
                forall|i: int, j: int|
                    0 <= i < visited@.len() && 0 <= j < stack@.len() ==> (#[trigger] visited@[i])@ != (#[trigger] stack@[j])@,
                !pts(visited@).contains(c@),
                !pts(stack@).contains(c@),
                (pts(visited@) + pts(stack@)).insert(c@).contains(s),
                forall|q: (int, int)| #[trigger] (pts(visited@) + pts(stack@)).contains(q) ==> in_grid(w as int, h as int, q),
                forall|x: int, y: int|
                    in_grid(w as int, h as int, (x, y)) ==> (#[trigger] mask@[y]@[x] <==> occ.contains((x, y)) || (pts(
                        visited@,
                    ) + pts(stack@)).insert(c@).contains((x, y))),
                paths.contains_key(c@) && paths[c@] == pc && is_fill_path(occ, w as int, h as int, s, pc) && pc.last() == c@,
                forall|q: (int, int)| #[trigger] (pts(visited@) + pts(stack@)).contains(q) ==> paths.contains_key(q) && is_fill_path(
                    occ,
                    w as int,
                    h as int,
                    s,
                    paths[q],
                ) && paths[q].last() == q,
                forall|q: (int, int), f: int|
                    pts(visited@).contains(q) && 0 <= f < 8 ==> in_grid(w as int, h as int, #[trigger] shift(q, dir8(f))),
                forall|q: (int, int), f: int|
                    pts(visited@).contains(q) && 0 <= f < 8 && free(occ, w as int, h as int, #[trigger] shift(q, dir8(f)))
                        ==> (pts(visited@) + pts(stack@)).insert(c@).contains(shift(q, dir8(f))),
                forall|f: int| 0 <= f < e ==> in_grid(w as int, h as int, #[trigger] shift(c@, dir8(f))),
                forall|f: int|
                    0 <= f < e && free(occ, w as int, h as int, #[trigger] shift(c@, dir8(f))) ==> (pts(visited@) + pts(
                        stack@,
                    )).insert(c@).contains(shift(c@, dir8(f))),
            decreases 8 - e,
        {
            let (ox, oy) = offset8(e);
            let nx = c.x as i64 + ox as i64;
            let ny = c.y as i64 + oy as i64;
            let ghost nb = shift(c@, dir8(e as int));
            assert(nb == (nx as int, ny as int));
            if nx < 0 || ny < 0 || nx >= w as i64 || ny >= h as i64 {
                proof {
                    assert(is_fill_path(occ, w as int, h as int, s, pc));
                    assert(reg.contains(c@));
                    assert(!in_grid(w as int, h as int, shift(c@, dir8(e as int))));
                    assert(!enclosed(occ, w as int, h as int, s));
                }
                return None;
            }
            let xx = nx as usize;
            let yy = ny as usize;
            if !mask[yy][xx] {
                let ghost pre_mask = mask@;
                let ghost pre_stack = stack@;
                let mut row = mask[yy].clone();
                assert(row@ =~= mask@[yy as int]@);
                proof {
                    lemma_row_mark(row@, xx as int);
                }
                row.set(xx, true);
                proof {
                    lemma_grid_mark(mask@, yy as int, row);
                }
                mask.set(yy, row);
                let n = Vec2 { x: nx as i32, y: ny as i32 };
                assert(n@ == nb);
                proof {
                    assert(!occ.contains(nb));
                    assert(!(pts(visited@) + pts(stack@)).insert(c@).contains(nb));
                    assert forall|j: int| 0 <= j < stack@.len() implies stack@[j] != n by {
                        assert(pts(stack@).contains(stack@[j]@));
                    }
                    assert forall|i: int| 0 <= i < visited@.len() implies visited@[i]@ != n@ by {
                        assert(pts(visited@).contains(visited@[i]@));
                    }
                }
                stack.push(n);
                proof {
                    lemma_pts_push(pre_stack, n);
                    let pn = pc.push(nb);
                    assert(free(occ, w as int, h as int, nb));
                    assert(adj8(c@, nb));
                    assert forall|i: int| 1 <= i < pn.len() implies free(occ, w as int, h as int, #[trigger] pn[i]) && adj8(pn[i - 1], pn[i]) by {
                        if i < pn.len() - 1 {
                            assert(pn[i] == pc[i] && pn[i - 1] == pc[i - 1]);
                        } else {
                            assert(pn[i - 1] == pc.last());
                        }
                    }
                    assert(is_fill_path(occ, w as int, h as int, s, pn));
                    let old_paths = paths;
                    paths = paths.insert(nb, pn);
                    assert forall|q: (int, int)| #[trigger] (pts(visited@) + pts(stack@)).contains(q) implies in_grid(w as int, h as int, q)
                        && paths.contains_key(q) && is_fill_path(occ, w as int, h as int, s, paths[q]) && paths[q].last() == q by {
                        if q != nb {
                            assert((pts(visited@) + pts(pre_stack)).contains(q));
                            assert(paths[q] == old_paths[q]);
                        }
                    }
                    assert(stack@.no_duplicates()) by {
                        assert forall|i: int, j: int| 0 <= i < stack@.len() && 0 <= j < stack@.len() && i != j implies stack@[i] != stack@[j] by {
                            if j == stack@.len() - 1 {
                                assert(stack@[i] == pre_stack[i]);
                            } else if i == stack@.len() - 1 {
                                assert(stack@[j] == pre_stack[j]);
                            } else {
                                assert(stack@[i] == pre_stack[i]);
                                assert(stack@[j] == pre_stack[j]);
                            }
                        }
                    }
                    assert forall|i: int, j: int|
                        0 <= i < visited@.len() && 0 <= j < stack@.len() implies (#[trigger] visited@[i])@ != (#[trigger] stack@[j])@ by {
                        if j < pre_stack.len() {
                            assert(stack@[j] == pre_stack[j]);
                        }
                    }
                    assert forall|x: int, y: int|
                        in_grid(w as int, h as int, (x, y)) implies (#[trigger] mask@[y]@[x] <==> occ.contains((x, y)) || (pts(
                            visited@,
                        ) + pts(stack@)).insert(c@).contains((x, y))) by {
                        if y == yy && x == xx {
                        } else {
                            assert(mask@[y]@[x] == pre_mask[y]@[x]);
                        }
                    }
                }
            }
            e = e + 1;
        }
        let ghost pre_visited = visited@;
        visited.push(c);
        proof {
            lemma_pts_push(pre_visited, c);
            assert((pts(visited@) + pts(stack@)) =~= (pts(pre_visited) + pts(stack@)).insert(c@));
            assert(visited@.no_duplicates()) by {
                assert forall|i: int, j: int| 0 <= i < visited@.len() && 0 <= j < visited@.len() && i != j implies visited@[i] != visited@[j] by {
                    if j == visited@.len() - 1 {
                        assert(visited@[i] == pre_visited[i]);
                        assert(pts(pre_visited).contains(pre_visited[i]@));
                    } else if i == visited@.len() - 1 {
                        assert(visited@[j] == pre_visited[j]);
                        assert(pts(pre_visited).contains(pre_visited[j]@));
                    } else {
                        assert(visited@[i] == pre_visited[i]);
                        assert(visited@[j] == pre_visited[j]);
                    }
                }
            }
            assert forall|i: int, j: int|
                0 <= i < visited@.len() && 0 <= j < stack@.len() implies (#[trigger] visited@[i])@ != (#[trigger] stack@[j])@ by {
                if i == visited@.len() - 1 {
                    assert(pts(stack@).contains(stack@[j]@));
                } else {
                    assert(visited@[i] == pre_visited[i]);
                }
            }
            assert forall|q: (int, int), f: int|
                pts(visited@).contains(q) && 0 <= f < 8 implies in_grid(w as int, h as int, #[trigger] shift(q, dir8(f))) by {
                if q != c@ {
                    assert(pts(pre_visited).contains(q));
                }
            }
        }
    }
    let ghost dset = pts(visited@);
    proof {
        assert(pts(stack@) =~= Set::empty());
        assert(pts(visited@) + pts(stack@) =~= dset);
        assert forall|q: (int, int)| #[trigger] reg.contains(q) implies dset.contains(q) by {
            let p = choose|p: Seq<(int, int)>| #[trigger] is_fill_path(occ, w as int, h as int, s, p) && p.last() == q;
            lemma_region_within(occ, w as int, h as int, s, dset, p);
        }
        assert forall|q: (int, int)| #[trigger] dset.contains(q) implies reg.contains(q) by {
            assert(is_fill_path(occ, w as int, h as int, s, paths[q]));
        }
        assert(dset =~= reg);
        lemma_pts_len(visited@);
        lemma_grid_finite(w as int, h as int);
        vstd::set_lib::lemma_len_subset(dset, grid_set(w as int, h as int));
    }
    Some(visited)
}

} // verus!
