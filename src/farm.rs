use vstd::prelude::*;
use crate::bundle::Bundle;
use crate::geom::{dir8, offset8, MAX_COORD};
use crate::layout::{anchor, fits, Layout, Position};
use crate::random::{random_below, seeded_rng};
use crate::shape::Shape;
use crate::vec2::Vec2;
use rand::StdRng;

verus! {

/// Fewest and most elementary edits in one trial of a mutation.
pub const MIN_FLIPS: usize = 2;
pub const MAX_FLIPS: usize = 4;

/// The optimizer: its configuration and its random stream.
pub struct Farm<'a> {
    pub bundle: &'a Bundle,
    pub rng: StdRng,
    pub gen_size: usize,
    pub max_iter: u32,
    pub elites: usize,
    pub mut_percentage: u32,
    pub mut_attempts: u32,
}

/// Whether `sh` anchored at (x, y) stays inside the coordinate range.
fn fits_at(sh: &Shape, x: i64, y: i64) -> (r: bool)
    requires
        sh.wf(),
    ensures
        r == (-MAX_COORD <= x && x + sh.width <= MAX_COORD && -MAX_COORD <= y && y + sh.height <= MAX_COORD),
{
    -(MAX_COORD as i64) <= x && x <= MAX_COORD as i64 && x + sh.width as i64 <= MAX_COORD as i64 && -(MAX_COORD as i64) <= y
        && y <= MAX_COORD as i64 && y + sh.height as i64 <= MAX_COORD as i64
}

/// Layout `l` is a placeable layout on `b` with `n` instances.
pub open spec fn placeable_on(l: Layout, b: &Bundle, n: int) -> bool {
    &&& l.placeable()
    &&& l.bundle == b
    &&& l.pos@.len() == n
}

/// One elementary edit of a mutation trial, with the values drawn for it.
/// `kind` 0 gives instance `i1` variant `a` and then instance `i2` variant `b`;
/// `kind` 1 moves the instances from `min(i1, i2)` to `max(i1, i2)` by the
/// neighbour offset number `a`; `kind` 2 exchanges the (shape id, variant)
/// pairs of instances `i1` and `i2`.
#[derive(Clone, Copy, PartialEq, Eq, Debug, Structural)]
pub struct Edit {
    pub kind: usize,
    pub i1: usize,
    pub i2: usize,
    pub a: usize,
    pub b: usize,
}

/// The instance `p` stays inside the coordinate range.
pub open spec fn fits_pos(b: &Bundle, p: Position) -> bool {
    fits(b.shape(p.shape as int, p.var as int), anchor(p))
}

/// `s` with instance `i` replaced by `p`, unless `p` would leave the
/// coordinate range.
pub open spec fn put_if_fits(b: &Bundle, s: Seq<Position>, i: int, p: Position) -> Seq<Position> {
    if fits_pos(b, p) {
        s.update(i, p)
    } else {
        s
    }
}

/// Instance `i` given variant `v`.
pub open spec fn reroll_spec(b: &Bundle, s: Seq<Position>, i: int, v: int) -> Seq<Position> {
    put_if_fits(b, s, i, Position { var: v as u16, ..s[i] })
}

/// The instance moved by `d`.
pub open spec fn moved(p: Position, d: (int, int)) -> Position {
    Position { x: (p.x + d.0) as i32, y: (p.y + d.1) as i32, ..p }
}

/// Instances `lo..k` moved by `d`, each unless it would leave the range.
pub open spec fn shift_upto(b: &Bundle, s: Seq<Position>, lo: int, k: int, d: (int, int)) -> Seq<Position>
    decreases k - lo,
{
    if k <= lo {
        s
    } else {
        let t = shift_upto(b, s, lo, k - 1, d);
        put_if_fits(b, t, k - 1, moved(t[k - 1], d))
    }
}

/// The (shape id, variant) pairs of instances `i1` and `i2` exchanged, unless
/// either would then leave the range.
pub open spec fn swap_spec(b: &Bundle, s: Seq<Position>, i1: int, i2: int) -> Seq<Position> {
    let q1 = Position { shape: s[i2].shape, var: s[i2].var, ..s[i1] };
    let q2 = Position { shape: s[i1].shape, var: s[i1].var, ..s[i2] };
    if i1 != i2 && fits_pos(b, q1) && fits_pos(b, q2) {
        s.update(i1, q1).update(i2, q2)
    } else {
        s
    }
}

pub open spec fn min_int(a: int, b: int) -> int {
    if a <= b {
        a
    } else {
        b
    }
}

pub open spec fn max_int(a: int, b: int) -> int {
    if a >= b {
        a
    } else {
        b
    }
}

/// The instances after one edit.
pub open spec fn edit_spec(b: &Bundle, s: Seq<Position>, e: Edit) -> Seq<Position> {
    if e.kind == 0 {
        reroll_spec(b, reroll_spec(b, s, e.i1 as int, e.a as int), e.i2 as int, e.b as int)
    } else if e.kind == 1 {
        shift_upto(
            b,
            s,
            min_int(e.i1 as int, e.i2 as int),
            max_int(e.i1 as int, e.i2 as int) + 1,
            dir8(e.a as int),
        )
    } else {
        swap_spec(b, s, e.i1 as int, e.i2 as int)
    }
}

/// The edit's values are in range for the instances `s`.
pub open spec fn edit_ok(b: &Bundle, s: Seq<Position>, e: Edit) -> bool {
    &&& e.kind < 3
    &&& e.i1 < s.len()
    &&& e.i2 < s.len()
    &&& e.kind == 0 ==> e.a < b.variants@[s[e.i1 as int].shape as int]@.len() && e.b < b.variants@[s[e.i2 as int].shape as int]@.len()
    &&& e.kind == 1 ==> e.a < 8
}

/// The instances after the edits of a trial, in order.
pub open spec fn trial_spec(b: &Bundle, s: Seq<Position>, es: Seq<Edit>) -> Seq<Position>
    decreases es.len(),
{
    if es.len() == 0 {
        s
    } else {
        edit_spec(b, trial_spec(b, s, es.drop_last()), es.last())
    }
}

/// Every edit of the trial is in range where it is applied.
pub open spec fn trial_ok(b: &Bundle, s: Seq<Position>, es: Seq<Edit>) -> bool
    decreases es.len(),
{
    es.len() == 0 || (trial_ok(b, s, es.drop_last()) && edit_ok(b, trial_spec(b, s, es.drop_last()), es.last()))
}

/// Gives instance `i` variant `v`; dropped when that would leave the range.
fn reroll(l: &mut Layout, i: usize, v: usize)
    requires
        old(l).placeable(),
        i < old(l).pos@.len(),
        v < old(l).bundle.variants@[old(l).pos@[i as int].shape as int]@.len(),
    ensures
        placeable_on(*final(l), old(l).bundle, old(l).pos@.len() as int),
        final(l).pos@ == reroll_spec(old(l).bundle, old(l).pos@, i as int, v as int),
{
    let p = l.pos[i];
    assert(p.shape < l.bundle.len());
    let q = Position { var: v as u16, ..p };
    let sh = l.shape_by_pos(&q);
    if fits_at(sh, q.x as i64, q.y as i64) {
        let ghost pre = *l;
        l.pos.set(i, q);
        assert forall|k: int| 0 <= k < l.pos@.len() implies fits(#[trigger] l.shape_at(k), anchor(l.pos@[k])) by {
            if k != i {
                assert(l.pos@[k] == pre.pos@[k]);
                assert(fits(pre.shape_at(k), anchor(pre.pos@[k])));
            }
        }
        assert(l.wf()) by {
            assert forall|a: int, b: int|
                0 <= a < l.pos@.len() && 0 <= b < l.pos@.len() && a != b implies (#[trigger] l.pos@[a]).shape
                    != (#[trigger] l.pos@[b]).shape by {
                assert(l.pos@[a].shape == pre.pos@[a].shape);
                assert(l.pos@[b].shape == pre.pos@[b].shape);
            }
            assert forall|a: int| 0 <= a < l.pos@.len() implies (#[trigger] l.pos@[a]).shape < l.bundle.len() by {
                assert(l.pos@[a].shape == pre.pos@[a].shape);
            }
        }
    }
}

/// Moves instances `lo..=hi` by (dx, dy), each unless that would leave the
/// coordinate range.
fn shift_range(l: &mut Layout, lo: usize, hi: usize, dx: i32, dy: i32)
    requires
        old(l).placeable(),
        lo <= hi < old(l).pos@.len(),
        -1 <= dx <= 1,
        -1 <= dy <= 1,
    ensures
        placeable_on(*final(l), old(l).bundle, old(l).pos@.len() as int),
        final(l).pos@ == shift_upto(old(l).bundle, old(l).pos@, lo as int, hi + 1, (dx as int, dy as int)),
{
    let ghost s0 = l.pos@;
    let mut k = lo;
    while k <= hi
        invariant
            l.placeable(),
            lo <= k <= hi + 1,
            hi < l.pos@.len(),
            -1 <= dx <= 1,
            -1 <= dy <= 1,
            l.bundle == old(l).bundle,
            l.pos@.len() == old(l).pos@.len(),
            s0 == old(l).pos@,
            l.pos@ == shift_upto(l.bundle, s0, lo as int, k as int, (dx as int, dy as int)),
        decreases hi + 1 - k,
    {
        let p = l.pos[k];
        let sh = l.shape_by_pos(&p);
        assert(fits(l.shape_at(k as int), anchor(l.pos@[k as int])));
        let x = p.x as i64 + dx as i64;
        let y = p.y as i64 + dy as i64;
        let ghost t = l.pos@;
        let ghost mv = moved(t[k as int], (dx as int, dy as int));
        if fits_at(sh, x, y) {
            let ghost pre = *l;
            l.pos.set(k, Position { x: x as i32, y: y as i32, ..p });
            assert(l.pos@ == t.update(k as int, mv));
            assert forall|a: int| 0 <= a < l.pos@.len() implies fits(#[trigger] l.shape_at(a), anchor(l.pos@[a])) by {
                if a != k {
                    assert(l.pos@[a] == pre.pos@[a]);
                    assert(fits(pre.shape_at(a), anchor(pre.pos@[a])));
                }
            }
            assert(l.wf()) by {
                assert forall|a: int, b: int|
                    0 <= a < l.pos@.len() && 0 <= b < l.pos@.len() && a != b implies (#[trigger] l.pos@[a]).shape
                        != (#[trigger] l.pos@[b]).shape by {
                    assert(l.pos@[a].shape == pre.pos@[a].shape);
                    assert(l.pos@[b].shape == pre.pos@[b].shape);
                }
                assert forall|a: int| 0 <= a < l.pos@.len() implies (#[trigger] l.pos@[a]).shape < l.bundle.len() by {
                    assert(l.pos@[a].shape == pre.pos@[a].shape);
                }
            }
        } else {
            assert(!fits_pos(l.bundle, mv));
        }
        k = k + 1;
    }
}

/// Exchanges the (shape id, variant) pairs of instances `i1` and `i2`, unless
/// that would leave the coordinate range.
fn swap_pair(l: &mut Layout, i1: usize, i2: usize)
    requires
        old(l).placeable(),
        i1 < old(l).pos@.len(),
        i2 < old(l).pos@.len(),
    ensures
        placeable_on(*final(l), old(l).bundle, old(l).pos@.len() as int),
        final(l).pos@ == swap_spec(old(l).bundle, old(l).pos@, i1 as int, i2 as int),
{
    if i1 == i2 {
        return;
    }
    let p1 = l.pos[i1];
    let p2 = l.pos[i2];
    let q1 = Position { shape: p2.shape, var: p2.var, ..p1 };
    let q2 = Position { shape: p1.shape, var: p1.var, ..p2 };
    let s1 = l.shape_by_pos(&q1);
    let s2 = l.shape_by_pos(&q2);
    if fits_at(s1, q1.x as i64, q1.y as i64) && fits_at(s2, q2.x as i64, q2.y as i64) {
        let ghost pre = *l;
        l.pos.set(i1, q1);
        l.pos.set(i2, q2);
        proof {
            assert forall|a: int| 0 <= a < l.pos@.len() implies fits(#[trigger] l.shape_at(a), anchor(l.pos@[a])) by {
                if a != i1 && a != i2 {
                    assert(l.pos@[a] == pre.pos@[a]);
                    assert(fits(pre.shape_at(a), anchor(pre.pos@[a])));
                }
            }
            assert forall|a: int, b: int|
                0 <= a < l.pos@.len() && 0 <= b < l.pos@.len() && a != b implies (#[trigger] l.pos@[a]).shape
                    != (#[trigger] l.pos@[b]).shape by {
                let fa = if a == i1 { i2 as int } else if a == i2 { i1 as int } else { a };
                let fb = if b == i1 { i2 as int } else if b == i2 { i1 as int } else { b };
                assert(l.pos@[a].shape == pre.pos@[fa].shape);
                assert(l.pos@[b].shape == pre.pos@[fb].shape);
            }
            assert forall|a: int| 0 <= a < l.pos@.len() implies (#[trigger] l.pos@[a]).shape < l.bundle.len() by {
                let fa = if a == i1 { i2 as int } else if a == i2 { i1 as int } else { a };
                assert(l.pos@[a].shape == pre.pos@[fa].shape);
            }
            assert forall|a: int|
                0 <= a < l.pos@.len() implies (#[trigger] l.pos@[a]).var < l.bundle.variants@[l.pos@[a].shape as int]@.len() by {
                let fa = if a == i1 { i2 as int } else if a == i2 { i1 as int } else { a };
                assert(l.pos@[a].shape == pre.pos@[fa].shape && l.pos@[a].var == pre.pos@[fa].var);
            }
        }
    }
}

/// Applies one edit.
pub fn apply_edit(l: &mut Layout, e: Edit)
    requires
        old(l).placeable(),
        edit_ok(old(l).bundle, old(l).pos@, e),
    ensures
        placeable_on(*final(l), old(l).bundle, old(l).pos@.len() as int),
        final(l).pos@ == edit_spec(old(l).bundle, old(l).pos@, e),
{
    if e.kind == 0 {
        reroll(l, e.i1, e.a);
        reroll(l, e.i2, e.b);
    } else if e.kind == 1 {
        let (dx, dy) = offset8(e.a);
        let (lo, hi) = if e.i1 <= e.i2 { (e.i1, e.i2) } else { (e.i2, e.i1) };
        shift_range(l, lo, hi, dx, dy);
    } else {
        swap_pair(l, e.i1, e.i2);
    }
}

/// A copy of `layout` with the edits of a trial applied in order.
pub fn apply_trial<'c>(layout: &Layout<'c>, edits: &Vec<Edit>) -> (r: Layout<'c>)
    requires
        layout.placeable(),
        trial_ok(layout.bundle, layout.pos@, edits@),
    ensures
        placeable_on(r, layout.bundle, layout.pos@.len() as int),
        r.pos@ == trial_spec(layout.bundle, layout.pos@, edits@),
{
    let mut cl = layout.duplicate();
    let mut f: usize = 0;
    while f < edits.len()
        invariant
            0 <= f <= edits@.len(),
            placeable_on(cl, layout.bundle, layout.pos@.len() as int),
            trial_ok(layout.bundle, layout.pos@, edits@),
            cl.pos@ == trial_spec(layout.bundle, layout.pos@, edits@.take(f as int)),
        decreases edits.len() - f,
    {
        proof {
            lemma_trial_prefix(layout.bundle, layout.pos@, edits@, f as int + 1);
            assert(edits@.take(f as int + 1).drop_last() =~= edits@.take(f as int));
        }
        apply_edit(&mut cl, edits[f]);
        f = f + 1;
    }
    assert(edits@.take(f as int) =~= edits@);
    cl
}

/// A prefix of an in-range trial is in range.
proof fn lemma_trial_prefix(b: &Bundle, s: Seq<Position>, es: Seq<Edit>, k: int)
    requires
        trial_ok(b, s, es),
        0 <= k <= es.len(),
    ensures
        trial_ok(b, s, es.take(k)),
    decreases es.len() - k,
{
    if k < es.len() {
        if k + 1 == es.len() {
            assert(es.take(k) =~= es.drop_last());
        } else {
            lemma_trial_prefix(b, s, es, k + 1);
            assert(es.take(k + 1).drop_last() =~= es.take(k));
        }
    } else {
        assert(es.take(k) =~= es);
    }
}

/// Layout `a` ranks before layout `b`: a higher score, or an equal score and a
/// smaller index.
pub open spec fn ranks_before(scores: Seq<i64>, a: int, b: int) -> bool {
    scores[a] > scores[b] || (scores[a] == scores[b] && a < b)
}

/// `order` lists each index of `scores` once, best score first, equal scores
/// by increasing index.
pub open spec fn is_ranking(scores: Seq<i64>, order: Seq<usize>) -> bool {
    &&& order.len() == scores.len()
    &&& forall|i: int| 0 <= i < order.len() ==> (#[trigger] order[i]) < scores.len()
    &&& order.no_duplicates()
    &&& forall|a: int, b: int| 0 <= a < b < order.len() ==> ranks_before(scores, #[trigger] order[a] as int, #[trigger] order[b] as int)
}

/// The indices of `scores` from the best score to the worst, equal scores in
/// index order.
pub fn rank_order(scores: &Vec<i64>) -> (r: Vec<usize>)
    ensures
        is_ranking(scores@, r@),
{
    let n = scores.len();
    let mut r: Vec<usize> = Vec::new();
    let mut k: usize = 0;
    while k < n
        invariant
            n == scores@.len(),
            0 <= k <= n,
            r@.len() == k,
            forall|i: int| 0 <= i < r@.len() ==> (#[trigger] r@[i]) < k,
            r@.no_duplicates(),
            forall|a: int, b: int| 0 <= a < b < r@.len() ==> ranks_before(scores@, #[trigger] r@[a] as int, #[trigger] r@[b] as int),
        decreases n - k,
    {
        let mut j: usize = 0;
        while j < r.len() && scores[r[j]] >= scores[k]
            invariant
                n == scores@.len(),
                0 <= k < n,
                0 <= j <= r@.len(),
                forall|i: int| 0 <= i < r@.len() ==> (#[trigger] r@[i]) < k,
                forall|i: int| 0 <= i < j ==> scores@[#[trigger] r@[i] as int] >= scores@[k as int],
            decreases r.len() - j,
        {
            j = j + 1;
        }
        let ghost pre = r@;
        r.insert(j, k);
        assert(r@ == pre.insert(j as int, k));
        proof {
            assert forall|a: int, b: int| 0 <= a < b < r@.len() implies ranks_before(scores@, #[trigger] r@[a] as int, #[trigger] r@[b] as int) by {
                if b < j {
                    assert(r@[a] == pre[a] && r@[b] == pre[b]);
                } else if b == j {
                    assert(r@[a] == pre[a]);
                } else if a < j {
                    assert(r@[a] == pre[a] && r@[b] == pre[b - 1]);
                } else if a == j {
                    assert(r@[b] == pre[b - 1]);
                    assert(j < pre.len());
                    assert(scores@[pre[j as int] as int] < scores@[k as int]);
                    assert(ranks_before(scores@, pre[j as int] as int, pre[b - 1] as int) || b - 1 == j);
                } else {
                    assert(r@[a] == pre[a - 1] && r@[b] == pre[b - 1]);
                }
            }
            assert forall|a: int, b: int| 0 <= a < r@.len() && 0 <= b < r@.len() && a != b implies r@[a] != r@[b] by {
                if a != j && b != j {
                    let fa = if a < j { a } else { a - 1 };
                    let fb = if b < j { b } else { b - 1 };
                    assert(r@[a] == pre[fa] && r@[b] == pre[fb]);
                } else if a == j {
                    let fb = if b < j { b } else { b - 1 };
                    assert(r@[b] == pre[fb]);
                } else {
                    let fa = if a < j { a } else { a - 1 };
                    assert(r@[a] == pre[fa]);
                }
            }
            assert forall|i: int| 0 <= i < r@.len() implies (#[trigger] r@[i]) < k + 1 by {
                if i < j {
                    assert(r@[i] == pre[i]);
                } else if i > j {
                    assert(r@[i] == pre[i - 1]);
                }
            }
        }
        k = k + 1;
    }
    r
}

/// `s` is the square root of `v`, rounded down.
pub open spec fn is_floor_sqrt(s: int, v: int) -> bool {
    0 <= s && s * s <= v < (s + 1) * (s + 1)
}

proof fn lemma_sqrt_unique(a: int, b: int, v: int)
    requires
        is_floor_sqrt(a, v),
        is_floor_sqrt(b, v),
    ensures
        a == b,
{
    if a < b {
        assert((a + 1) * (a + 1) <= b * b) by (nonlinear_arith)
            requires
                0 <= a,
                a + 1 <= b,
        ;
    }
    if b < a {
        assert((b + 1) * (b + 1) <= a * a) by (nonlinear_arith)
            requires
                0 <= b,
                b + 1 <= a,
        ;
    }
}

/// The largest `s` with `s * s <= v`, for `v <= n * n`.
pub fn floor_sqrt(v: u64, n: u64) -> (r: u64)
    requires
        v <= n * n,
    ensures
        r * r <= v < (r + 1) * (r + 1),
        r <= n,
{
    let mut lo: u64 = 0;
    let mut hi: u64 = n;
    assert(v <= n * n < (n as int + 1) * (n as int + 1)) by (nonlinear_arith)
        requires
            v <= n * n,
    ;
    while lo < hi
        invariant
            lo <= hi <= n,
            lo * lo <= v,
            v < (hi as int + 1) * (hi as int + 1),
        decreases hi - lo,
    {
        let mid = lo + (hi - lo) / 2 + 1;
        assert(lo < mid <= hi);
        assert((mid as int) * (mid as int) <= 0xffff_ffff_ffff_ffff_ffff_ffff_ffff_ffff) by (nonlinear_arith)
            requires
                0 <= mid <= 0xffff_ffff_ffff_ffff,
        ;
        let sq = (mid as u128) * (mid as u128);
        if sq <= v as u128 {
            lo = mid;
        } else {
            assert(v < (mid - 1 + 1) * (mid - 1 + 1));
            hi = mid - 1;
        }
    }
    lo
}

/// The rank to mutate for a draw from `[0, n * n]`: `n` minus the square root
/// of the draw, which favours the best ranks; a draw of 0 takes the last rank.
pub fn rank_from_draw(n: u64, draw: u64) -> (r: u64)
    requires
        1 <= n,
        draw <= n * n,
    ensures
        r < n,
        forall|s: int| #[trigger] is_floor_sqrt(s, draw as int) ==> r == (if s == 0 { n - 1 } else { n - s }),
{
    let s = floor_sqrt(draw, n);
    proof {
        assert forall|t: int| #[trigger] is_floor_sqrt(t, draw as int) implies t == s by {
            lemma_sqrt_unique(t, s as int, draw as int);
        }
    }
    if s == 0 {
        n - 1
    } else {
        n - s
    }
}

/// How many mutants the next generation gets: the requested share of the
/// population, but no more than the slots left after `kept` elites.
pub open spec fn mutation_count(gen_size: int, kept: int, pct: int) -> int {
    let want = gen_size * pct / 100;
    if gen_size - kept < want {
        gen_size - kept
    } else {
        want
    }
}

/// The ranks taken as elites: scanning the ranks from `p` on, each layout not
/// equal to one taken already, until `limit` are taken.
pub open spec fn elite_scan<'a>(gen: Seq<Layout<'a>>, order: Seq<usize>, limit: int, p: int, chosen: Seq<int>) -> Seq<int>
    decreases order.len() - p,
{
    if p >= order.len() || chosen.len() >= limit {
        chosen
    } else if exists|q: int|
        0 <= q < chosen.len() && gen[order[#[trigger] chosen[q]] as int].pos@ == gen[order[p] as int].pos@ {
        elite_scan(gen, order, limit, p + 1, chosen)
    } else {
        elite_scan(gen, order, limit, p + 1, chosen.push(p))
    }
}

proof fn lemma_elite_scan_len<'a>(gen: Seq<Layout<'a>>, order: Seq<usize>, limit: int, p: int, chosen: Seq<int>)
    requires
        0 <= p <= order.len(),
        chosen.len() <= p,
        forall|i: int| 0 <= i < chosen.len() ==> 0 <= #[trigger] chosen[i] < p,
    ensures
        elite_scan(gen, order, limit, p, chosen).len() <= order.len(),
        forall|i: int|
            0 <= i < elite_scan(gen, order, limit, p, chosen).len() ==> 0 <= #[trigger] elite_scan(gen, order, limit, p, chosen)[i]
                < order.len(),
    decreases order.len() - p,
{
    if p >= order.len() || chosen.len() >= limit {
    } else if exists|q: int|
        0 <= q < chosen.len() && gen[order[#[trigger] chosen[q]] as int].pos@ == gen[order[p] as int].pos@ {
        lemma_elite_scan_len(gen, order, limit, p + 1, chosen);
    } else {
        let c2 = chosen.push(p);
        assert forall|i: int| 0 <= i < c2.len() implies 0 <= #[trigger] c2[i] < p + 1 by {
            if i < chosen.len() {
                assert(c2[i] == chosen[i]);
            }
        }
        lemma_elite_scan_len(gen, order, limit, p + 1, c2);
    }
}

/// The ranks (positions in `order`) of the elites: the best layouts, each
/// unlike the ones taken before it, at most `limit` of them.
pub fn pick_elites<'a>(gen: &Vec<Layout<'a>>, order: &Vec<usize>, limit: usize) -> (r: Vec<usize>)
    requires
        forall|i: int| 0 <= i < order@.len() ==> (#[trigger] order@[i]) < gen@.len(),
    ensures
        r@.map_values(|x: usize| x as int) == elite_scan(gen@, order@, limit as int, 0, seq![]),
        r@.len() <= order@.len(),
        forall|i: int| 0 <= i < r@.len() ==> (#[trigger] r@[i]) < order@.len(),
{
    let mut chosen: Vec<usize> = Vec::new();
    let mut p: usize = 0;
    proof {
        lemma_elite_scan_len(gen@, order@, limit as int, 0, seq![]);
        assert(chosen@.map_values(|x: usize| x as int) =~= seq![]);
    }
    while p < order.len() && chosen.len() < limit
        invariant
            forall|i: int| 0 <= i < order@.len() ==> (#[trigger] order@[i]) < gen@.len(),
            0 <= p <= order@.len(),
            chosen@.len() <= p,
            forall|i: int| 0 <= i < chosen@.len() ==> (#[trigger] chosen@[i]) < p,
            elite_scan(gen@, order@, limit as int, 0, seq![]) == elite_scan(
                gen@,
                order@,
                limit as int,
                p as int,
                chosen@.map_values(|x: usize| x as int),
            ),
        decreases order.len() - p,
    {
        let ghost cs = chosen@.map_values(|x: usize| x as int);
        let cand = &gen[order[p]];
        let mut dup = false;
        let mut q: usize = 0;
        while q < chosen.len() && !dup
            invariant
                forall|i: int| 0 <= i < order@.len() ==> (#[trigger] order@[i]) < gen@.len(),
                0 <= p < order@.len(),
                forall|i: int| 0 <= i < chosen@.len() ==> (#[trigger] chosen@[i]) < p,
                cs == chosen@.map_values(|x: usize| x as int),
                cand == gen@[order@[p as int] as int],
                0 <= q <= chosen@.len(),
                dup <==> exists|k: int| 0 <= k < q && gen@[order@[#[trigger] cs[k]] as int].pos@ == gen@[order@[p as int] as int].pos@,
            decreases chosen.len() - q,
        {
            let other = &gen[order[chosen[q]]];
            assert(cs[q as int] == chosen@[q as int]);
            if *other == *cand {
                dup = true;
            }
            q = q + 1;
        }
        proof {
            if !dup {
                assert(!exists|k: int| 0 <= k < cs.len() && gen@[order@[#[trigger] cs[k]] as int].pos@ == gen@[order@[p as int] as int].pos@);
            }
        }
        if !dup {
            chosen.push(p);
            assert(chosen@.map_values(|x: usize| x as int) =~= cs.push(p as int));
        }
        p = p + 1;
    }
    proof {
        lemma_elite_scan_len(gen@, order@, limit as int, p as int, chosen@.map_values(|x: usize| x as int));
        assert forall|i: int| 0 <= i < chosen@.len() implies (#[trigger] chosen@[i]) < order@.len() by {
            assert(chosen@.map_values(|x: usize| x as int)[i] == chosen@[i]);
        }
    }
    chosen
}

/// `t` is one trial of a mutation of `layout`: a valid layout on the same
/// bundle, made by two to four in-range edits.
pub open spec fn trial_of<'c>(layout: Layout<'c>, t: Layout<'c>, es: Seq<Edit>) -> bool {
    &&& placeable_on(t, layout.bundle, layout.pos@.len() as int)
    &&& MIN_FLIPS <= es.len() <= MAX_FLIPS
    &&& trial_ok(layout.bundle, layout.pos@, es)
    &&& t.pos@ == trial_spec(layout.bundle, layout.pos@, es)
}

/// `ts[k]` has the highest score of `ts`, and is the first that has it.
pub open spec fn first_best<'c>(ts: Seq<Layout<'c>>, k: int) -> bool {
    &&& 0 <= k < ts.len()
    &&& forall|u: int| 0 <= u < ts.len() ==> (#[trigger] ts[u]).score_spec() <= ts[k].score_spec()
    &&& forall|u: int| 0 <= u < k ==> (#[trigger] ts[u]).score_spec() < ts[k].score_spec()
}

/// `ts` are `attempts` trials of `layout`, made by the edits `es`, and `ts[k]`
/// is the first best of them.
pub open spec fn trials_best<'c>(layout: Layout<'c>, ts: Seq<Layout<'c>>, es: Seq<Seq<Edit>>, k: int, attempts: int) -> bool {
    &&& ts.len() == attempts
    &&& es.len() == attempts
    &&& forall|u: int| 0 <= u < attempts ==> trial_of(layout, #[trigger] ts[u], es[u])
    &&& first_best(ts, k)
}

/// `c` is a centred mutation of the layout at some rank of `order`.
pub open spec fn mutant_of<'a>(prev: Seq<Layout<'a>>, order: Seq<usize>, attempts: int, c: Layout<'a>) -> bool {
    exists|rank: int, m: Layout<'a>|
        0 <= rank < order.len() && #[trigger] mutation_of(prev[order[rank] as int], m, attempts) && c.centred_from(m)
}

/// `r` is what mutating `layout` with `attempts` trials may give: `layout`
/// itself when there are none, else the first best of the trials.
pub open spec fn mutation_of<'c>(layout: Layout<'c>, r: Layout<'c>, attempts: int) -> bool {
    if attempts == 0 {
        r.pos@ == layout.pos@
    } else {
        exists|ts: Seq<Layout<'c>>, es: Seq<Seq<Edit>>, k: int|
            #[trigger] trials_best(layout, ts, es, k, attempts) && r.pos@ == ts[k].pos@
    }
}

impl<'a> Farm<'a> {
    /// The optimizer's configuration stays as it was.
    pub open spec fn same_config(&self, other: &Farm<'a>) -> bool {
        &&& self.bundle == other.bundle
        &&& self.gen_size == other.gen_size
        &&& self.max_iter == other.max_iter
        &&& self.elites == other.elites
        &&& self.mut_percentage == other.mut_percentage
        &&& self.mut_attempts == other.mut_attempts
    }

    /// Whether the search stops after `passes` scoring passes: the cap counts
    /// the generations scored, and at least one is always scored.
    pub fn finished(&self, passes: u32) -> (r: bool)
        ensures
            r == (passes >= 1 && passes >= self.max_iter),
    {
        passes >= 1 && passes >= self.max_iter
    }

    /// An optimizer over `bundle`, its random stream seeded from `seed`.
    pub fn new(
        bundle: &'a Bundle,
        seed: u32,
        gen_size: u32,
        max_iter: u32,
        elites: u32,
        mut_percentage: u32,
        mut_attempts: u32,
    ) -> (r: Farm<'a>)
        ensures
            r.bundle == bundle,
            r.gen_size == gen_size,
            r.max_iter == max_iter,
            r.elites == elites,
            r.mut_percentage == mut_percentage,
            r.mut_attempts == mut_attempts,
    {
        Farm {
            bundle: bundle,
            rng: seeded_rng(seed),
            gen_size: gen_size as usize,
            max_iter: max_iter,
            elites: elites as usize,
            mut_percentage: mut_percentage,
            mut_attempts: mut_attempts,
        }
    }

    /// Runs `mut_attempts` independent trials on copies of `layout`, each making
    /// two to four random edits (new variants for two instances; a shift of the
    /// run of instances between two indices by one of the eight unit offsets;
    /// an exchange of two instances' shapes), and returns the best-scoring
    /// trial (the first of equals), or a copy of `layout` when there are no
    /// trials.
    pub fn mutate_gene<'c>(&mut self, layout: &Layout<'c>) -> (r: Layout<'c>)
        requires
            layout.placeable(),
        ensures
            placeable_on(r, layout.bundle, layout.pos@.len() as int),
            mutation_of(*layout, r, old(self).mut_attempts as int),
            final(self).same_config(old(self)),
    {
        let n = layout.pos.len();
        let ghost b = layout.bundle;
        let ghost s0 = layout.pos@;
        let mut res = layout.duplicate();
        let mut max_score: i64 = i64::MIN;
        let ghost mut ts: Seq<Layout<'c>> = Seq::empty();
        let ghost mut ess: Seq<Seq<Edit>> = Seq::empty();
        let ghost mut kbest: int = 0;
        let mut t: u32 = 0;
        while t < self.mut_attempts
            invariant
                layout.placeable(),
                b == layout.bundle,
                s0 == layout.pos@,
                n == layout.pos@.len(),
                n >= 1,
                0 <= t <= self.mut_attempts,
                placeable_on(res, layout.bundle, n as int),
                self.same_config(old(self)),
                ts.len() == t,
                ess.len() == t,
                forall|u: int| 0 <= u < t ==> trial_of(*layout, #[trigger] ts[u], ess[u]),
                t == 0 ==> res.pos@ == layout.pos@,
                t > 0 ==> first_best(ts, kbest) && res.pos@ == ts[kbest].pos@ && max_score == ts[kbest].score_spec(),
            decreases self.mut_attempts - t,
        {
            let num_flips = MIN_FLIPS + random_below(&mut self.rng, MAX_FLIPS - MIN_FLIPS + 1);
            let mut cl = layout.duplicate();
            let ghost mut es: Seq<Edit> = Seq::empty();
            let mut f: usize = 0;
            while f < num_flips
                invariant
                    placeable_on(cl, b, n as int),
                    layout.placeable(),
                    b == layout.bundle,
                    s0 == layout.pos@,
                    n >= 1,
                    self.same_config(old(self)),
                    0 <= f <= num_flips,
                    es.len() == f,
                    trial_ok(b, s0, es),
                    cl.pos@ == trial_spec(b, s0, es),
                decreases num_flips - f,
            {
                let kind = random_below(&mut self.rng, 3);
                let i1 = random_below(&mut self.rng, n);
                let i2 = random_below(&mut self.rng, n);
                let mut a: usize = 0;
                let mut bb: usize = 0;
                if kind == 0 {
                    assert(cl.pos@[i1 as int].shape < cl.bundle.len());
                    assert(cl.pos@[i2 as int].shape < cl.bundle.len());
                    a = random_below(&mut self.rng, cl.bundle.variants[cl.pos[i1].shape as usize].len());
                    bb = random_below(&mut self.rng, cl.bundle.variants[cl.pos[i2].shape as usize].len());
                } else if kind == 1 {
                    a = random_below(&mut self.rng, 8);
                }
                let e = Edit { kind: kind, i1: i1, i2: i2, a: a, b: bb };
                let ghost before = cl.pos@;
                apply_edit(&mut cl, e);
                proof {
                    let es2 = es.push(e);
                    assert(es2.drop_last() =~= es);
                    assert(es2.last() == e);
                    es = es2;
                }
                f = f + 1;
            }
            let score = cl.score();
            proof {
                ts = ts.push(cl);
                ess = ess.push(es);
                assert(trial_of(*layout, ts[t as int], ess[t as int]));
                assert forall|u: int| 0 <= u < t + 1 implies trial_of(*layout, #[trigger] ts[u], ess[u]) by {
                    if u < t {
                        assert(ts[u] == ts.drop_last()[u]);
                    }
                }
            }
            if t == 0 || score > max_score {
                max_score = score;
                res = cl;
                proof {
                    kbest = t as int;
                }
            }
            t = t + 1;
        }
        proof {
            if self.mut_attempts > 0 {
                assert(trials_best(*layout, ts, ess, kbest, self.mut_attempts as int));
            }
        }
        res
    }
}

impl<'a> Farm<'a> {
    /// The start of the next generation: copies of the elites, then the
    /// mutants; the caller fills the remaining slots with fresh layouts. Each
    /// mutant comes from the layout at a rank drawn by `rank_from_draw`, is
    /// mutated by `mutate_gene` and centred.
    pub fn breed(&mut self, prev: &Vec<Layout<'a>>, order: &Vec<usize>) -> (r: Vec<Layout<'a>>)
        requires
            old(self).gen_size >= 1,
            old(self).gen_size * old(self).gen_size < usize::MAX,
            prev@.len() == old(self).gen_size,
            order@.len() == old(self).gen_size,
            forall|i: int| 0 <= i < order@.len() ==> (#[trigger] order@[i]) < prev@.len(),
            forall|i: int| 0 <= i < prev@.len() ==> placeable_on(#[trigger] prev@[i], old(self).bundle, old(self).bundle.len()),
        ensures
            final(self).same_config(old(self)),
            ({
                let e = elite_scan(prev@, order@, old(self).elites as int, 0, seq![]);
                &&& r@.len() == e.len() + mutation_count(old(self).gen_size as int, e.len() as int, old(self).mut_percentage as int)
                &&& forall|i: int| 0 <= i < e.len() ==> (#[trigger] r@[i]).pos@ == prev@[order@[e[i]] as int].pos@
                &&& forall|i: int| e.len() <= i < r@.len() ==> mutant_of(prev@, order@, old(self).mut_attempts as int, #[trigger] r@[i])
            }),
            forall|i: int| 0 <= i < r@.len() ==> placeable_on(#[trigger] r@[i], old(self).bundle, old(self).bundle.len()),
    {
        let n = self.gen_size;
        let ghost b = self.bundle;
        let chosen = pick_elites(prev, order, self.elites);
        let ghost e = elite_scan(prev@, order@, self.elites as int, 0, seq![]);
        assert(e.len() == chosen@.len());
        let mut next: Vec<Layout<'a>> = Vec::new();
        let mut i: usize = 0;
        while i < chosen.len()
            invariant
                self.same_config(old(self)),
                b == self.bundle,
                n == self.gen_size,
                prev@.len() == n,
                order@.len() == n,
                forall|k: int| 0 <= k < order@.len() ==> (#[trigger] order@[k]) < prev@.len(),
                forall|k: int| 0 <= k < prev@.len() ==> placeable_on(#[trigger] prev@[k], b, b.len()),
                e == chosen@.map_values(|x: usize| x as int),
                forall|k: int| 0 <= k < chosen@.len() ==> (#[trigger] chosen@[k]) < order@.len(),
                0 <= i <= chosen@.len(),
                next@.len() == i,
                forall|k: int| 0 <= k < i ==> (#[trigger] next@[k]).pos@ == prev@[order@[e[k]] as int].pos@,
                forall|k: int| 0 <= k < next@.len() ==> placeable_on(#[trigger] next@[k], b, b.len()),
            decreases chosen.len() - i,
        {
            let src = &prev[order[chosen[i]]];
            assert(placeable_on(prev@[order@[chosen@[i as int] as int] as int], b, b.len()));
            let copy = src.duplicate();
            next.push(copy);
            i = i + 1;
        }
        let kept = next.len();
        assert(n < 0x1_0000_0000) by {
            if n >= 0x1_0000_0000 {
                assert((n as int) * (n as int) >= 0x1_0000_0000 * 0x1_0000_0000) by (nonlinear_arith)
                    requires
                        n >= 0x1_0000_0000,
                ;
            }
        }
        assert((n as int) * (self.mut_percentage as int) < 0x1_0000_0000 * 0x1_0000_0000) by (nonlinear_arith)
            requires
                0 <= n < 0x1_0000_0000,
                0 <= self.mut_percentage < 0x1_0000_0000,
        ;
        let want: u128 = (n as u128) * (self.mut_percentage as u128) / 100;
        let room = n - kept;
        let num_mut: usize = if (room as u128) < want { room } else { want as usize };
        assert(num_mut == mutation_count(n as int, kept as int, self.mut_percentage as int));
        let mut m: usize = 0;
        while m < num_mut
            invariant
                self.same_config(old(self)),
                b == self.bundle,
                n == self.gen_size,
                n >= 1,
                n * n < usize::MAX,
                prev@.len() == n,
                order@.len() == n,
                forall|k: int| 0 <= k < order@.len() ==> (#[trigger] order@[k]) < prev@.len(),
                forall|k: int| 0 <= k < prev@.len() ==> placeable_on(#[trigger] prev@[k], b, b.len()),
                e.len() == kept,
                0 <= m <= num_mut,
                next@.len() == kept + m,
                forall|k: int| 0 <= k < kept ==> (#[trigger] next@[k]).pos@ == prev@[order@[e[k]] as int].pos@,
                forall|k: int| kept <= k < next@.len() ==> mutant_of(prev@, order@, self.mut_attempts as int, #[trigger] next@[k]),
                forall|k: int| 0 <= k < next@.len() ==> placeable_on(#[trigger] next@[k], b, b.len()),
            decreases num_mut - m,
        {
            let draw = random_below(&mut self.rng, n * n + 1);
            let rank = rank_from_draw(n as u64, draw as u64) as usize;
            let src = &prev[order[rank]];
            let mut mutant = self.mutate_gene(src);
            let ghost m0 = mutant;
            mutant.center();
            assert(mutation_of(prev@[order@[rank as int] as int], m0, self.mut_attempts as int));
            assert(mutant_of(prev@, order@, self.mut_attempts as int, mutant));
            let ghost pre = next@;
            next.push(mutant);
            assert(forall|k: int| 0 <= k < pre.len() ==> next@[k] == pre[k]);
            m = m + 1;
        }
        next
    }
}

} // verus!
