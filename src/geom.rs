use vstd::prelude::*;
use crate::vec2::Vec2i;

verus! {

/// Largest width or height a shape may have; coordinates stay well inside `i32`.
pub const MAX_SIDE: i32 = 0x1000_0000;

/// Largest magnitude of a coordinate of a cell placed in a layout, and largest
/// width or height of a shape of a bundle.
pub const MAX_COORD: i32 = 0x0400_0000;

/// The set of points listed in a sequence.
pub open spec fn pts(s: Seq<Vec2i>) -> Set<(int, int)> {
    Set::new(|c: (int, int)| exists|i: int| 0 <= i < s.len() && #[trigger] s[i]@ == c)
}

/// Lexicographic order on points: by `x`, then by `y`.
pub open spec fn lex_lt(a: Vec2i, b: Vec2i) -> bool {
    a.x < b.x || (a.x == b.x && a.y < b.y)
}

/// Strictly increasing in lexicographic order (hence free of duplicates).
pub open spec fn sorted_strict(s: Seq<Vec2i>) -> bool {
    forall|i: int, j: int| 0 <= i < j < s.len() ==> lex_lt(#[trigger] s[i], #[trigger] s[j])
}

/// The four edge-neighbour offsets, indexed 0..4.
pub open spec fn dir4(d: int) -> (int, int) {
    if d == 0 {
        (1, 0)
    } else if d == 1 {
        (0, 1)
    } else if d == 2 {
        (-1, 0)
    } else {
        (0, -1)
    }
}

/// The eight neighbour offsets (edges and diagonals), indexed 0..8.
pub open spec fn dir8(d: int) -> (int, int) {
    if d < 4 {
        dir4(d)
    } else if d == 4 {
        (1, -1)
    } else if d == 5 {
        (1, 1)
    } else if d == 6 {
        (-1, 1)
    } else {
        (-1, -1)
    }
}

pub open spec fn shift(p: (int, int), d: (int, int)) -> (int, int) {
    (p.0 + d.0, p.1 + d.1)
}

/// Edge-neighbour offset number `d` (0..4) as executable values.
pub fn offset4(d: usize) -> (r: (i32, i32))
    requires
        d < 4,
    ensures
        (r.0 as int, r.1 as int) == dir4(d as int),
{
    if d == 0 {
        (1, 0)
    } else if d == 1 {
        (0, 1)
    } else if d == 2 {
        (-1, 0)
    } else {
        (0, -1)
    }
}

/// Neighbour offset number `d` (0..8) as executable values.
pub fn offset8(d: usize) -> (r: (i32, i32))
    requires
        d < 8,
    ensures
        (r.0 as int, r.1 as int) == dir8(d as int),
{
    if d < 4 {
        offset4(d)
    } else if d == 4 {
        (1, -1)
    } else if d == 5 {
        (1, 1)
    } else if d == 6 {
        (-1, 1)
    } else {
        (-1, -1)
    }
}

fn lex_less(a: Vec2i, b: Vec2i) -> (r: bool)
    ensures
        r == lex_lt(a, b),
{
    a.x < b.x || (a.x == b.x && a.y < b.y)
}

/// Inserts `p` into a strictly sorted list, keeping it strictly sorted; a point
/// already present is not added twice.
pub fn insert_sorted(v: &mut Vec<Vec2i>, p: Vec2i)
    requires
        sorted_strict(old(v)@),
    ensures
        sorted_strict(final(v)@),
        pts(final(v)@) == pts(old(v)@).insert(p@),
        final(v)@.len() <= old(v)@.len() + 1,
{
    let mut i: usize = 0;
    while i < v.len() && lex_less(v[i], p)
        invariant
            i <= v.len(),
            forall|k: int| 0 <= k < i ==> lex_lt(#[trigger] v@[k], p),
        decreases v.len() - i,
    {
        i = i + 1;
    }
    if i < v.len() && v[i].x == p.x && v[i].y == p.y {
        assert(pts(v@) =~= pts(v@).insert(p@)) by {
            assert(v@[i as int]@ == p@);
        }
        return;
    }
    let ghost ov = v@;
    v.insert(i, p);
    assert(v@ == ov.insert(i as int, p));
    assert forall|a: int, b: int| 0 <= a < b < v@.len() implies lex_lt(#[trigger] v@[a], #[trigger] v@[b]) by {
        if b < i {
        } else if b == i {
        } else if a < i {
            assert(v@[b] == ov[b - 1]);
        } else if a == i {
            assert(v@[b] == ov[b - 1]);
            assert(!lex_lt(ov[i as int], p));
        } else {
            assert(v@[a] == ov[a - 1]);
            assert(v@[b] == ov[b - 1]);
        }
    }
    assert forall|c: (int, int)| pts(v@).contains(c) <==> #[trigger] pts(ov).insert(p@).contains(c) by {
        if pts(v@).contains(c) {
            let k = choose|k: int| 0 <= k < v@.len() && #[trigger] v@[k]@ == c;
            if k < i {
                assert(ov[k]@ == c);
            } else if k > i {
                assert(ov[k - 1]@ == c);
            }
        }
        if pts(ov).contains(c) {
            let k = choose|k: int| 0 <= k < ov.len() && #[trigger] ov[k]@ == c;
            if k < i {
                assert(v@[k]@ == c);
            } else {
                assert(v@[k + 1]@ == c);
            }
        }
        if c == p@ {
            assert(v@[i as int]@ == c);
        }
    }
    assert(pts(v@) =~= pts(ov).insert(p@));
}

/// The number of cells listed, when none is listed twice.
pub proof fn lemma_pts_len(s: Seq<Vec2i>)
    requires
        s.no_duplicates(),
    ensures
        pts(s).finite(),
        pts(s).len() == s.len(),
    decreases s.len(),
{
    if s.len() == 0 {
        assert(pts(s) =~= Set::empty());
    } else {
        let t = s.drop_last();
        assert(t.no_duplicates());
        lemma_pts_len(t);
        assert(pts(s) =~= pts(t).insert(s.last()@)) by {
            assert forall|c: (int, int)| #[trigger] pts(s).contains(c) implies pts(t).insert(s.last()@).contains(c) by {
                let i = choose|i: int| 0 <= i < s.len() && #[trigger] s[i]@ == c;
                if i < t.len() {
                    assert(t[i]@ == c);
                }
            }
            assert forall|c: (int, int)| #[trigger] pts(t).contains(c) implies pts(s).contains(c) by {
                let i = choose|i: int| 0 <= i < t.len() && #[trigger] t[i]@ == c;
                assert(s[i]@ == c);
            }
            assert(s[s.len() - 1]@ == s.last()@);
        }
        assert(!pts(t).contains(s.last()@)) by {
            if pts(t).contains(s.last()@) {
                let i = choose|i: int| 0 <= i < t.len() && #[trigger] t[i]@ == s.last()@;
                assert(s[i] != s[s.len() - 1]);
            }
        }
    }
}

/// A strictly sorted list holds no point twice.
pub proof fn lemma_sorted_no_dups(s: Seq<Vec2i>)
    requires
        sorted_strict(s),
    ensures
        s.no_duplicates(),
{
    assert forall|i: int, j: int| 0 <= i < s.len() && 0 <= j < s.len() && i != j implies s[i] != s[j] by {
        if i < j {
            assert(lex_lt(s[i], s[j]));
        } else {
            assert(lex_lt(s[j], s[i]));
        }
    }
}

/// Two strictly sorted lists of the same points are equal.
pub proof fn lemma_sorted_unique(a: Seq<Vec2i>, b: Seq<Vec2i>)
    requires
        sorted_strict(a),
        sorted_strict(b),
        pts(a) == pts(b),
    ensures
        a == b,
    decreases a.len(),
{
    if a.len() == 0 {
        if b.len() > 0 {
            assert(pts(b).contains(b[0]@));
        }
        assert(a =~= b);
    } else {
        assert(pts(a).contains(a[0]@));
        let j = choose|j: int| 0 <= j < b.len() && #[trigger] b[j]@ == a[0]@;
        assert(pts(b).contains(b[0]@));
        let i = choose|i: int| 0 <= i < a.len() && #[trigger] a[i]@ == b[0]@;
        if j > 0 {
            assert(lex_lt(b[0], b[j]));
            if i > 0 {
                assert(lex_lt(a[0], a[i]));
            }
        }
        assert(a[0] == b[0]);
        let a1 = a.drop_first();
        let b1 = b.drop_first();
        assert forall|c: (int, int)| #[trigger] pts(a1).contains(c) <==> pts(b1).contains(c) by {
            if pts(a1).contains(c) {
                let k = choose|k: int| 0 <= k < a1.len() && #[trigger] a1[k]@ == c;
                assert(a[k + 1]@ == c);
                assert(lex_lt(a[0], a[k + 1]));
                assert(pts(b).contains(c));
                let m = choose|m: int| 0 <= m < b.len() && #[trigger] b[m]@ == c;
                assert(m != 0);
                assert(b1[m - 1]@ == c);
            }
            if pts(b1).contains(c) {
                let k = choose|k: int| 0 <= k < b1.len() && #[trigger] b1[k]@ == c;
                assert(b[k + 1]@ == c);
                assert(lex_lt(b[0], b[k + 1]));
                assert(pts(a).contains(c));
                let m = choose|m: int| 0 <= m < a.len() && #[trigger] a[m]@ == c;
                assert(m != 0);
                assert(a1[m - 1]@ == c);
            }
        }
        assert(pts(a1) =~= pts(b1));
        lemma_sorted_unique(a1, b1);
        assert(a.len() == b.len());
        assert forall|k: int| 0 <= k < a.len() implies a[k] == b[k] by {
            if k > 0 {
                assert(a[k] == a1[k - 1] && b[k] == b1[k - 1]);
            }
        }
        assert(a =~= b);
    }
}

/// The points of `v`, strictly sorted.
pub fn sort_points(v: &Vec<Vec2i>) -> (r: Vec<Vec2i>)
    ensures
        sorted_strict(r@),
        pts(r@) == pts(v@),
        r@.len() <= v@.len(),
{
    let mut sorted: Vec<Vec2i> = Vec::new();
    let mut i: usize = 0;
    while i < v.len()
        invariant
            0 <= i <= v@.len(),
            sorted_strict(sorted@),
            pts(sorted@) == pts(v@.take(i as int)),
            sorted@.len() <= i,
        decreases v.len() - i,
    {
        insert_sorted(&mut sorted, v[i]);
        assert(pts(v@.take(i as int + 1)) =~= pts(v@.take(i as int)).insert(v@[i as int]@)) by {
            assert(v@.take(i as int + 1)[i as int] == v@[i as int]);
            assert forall|c: (int, int)| #[trigger] pts(v@.take(i as int)).contains(c)
                implies pts(v@.take(i as int + 1)).contains(c) by {
                let k = choose|k: int| 0 <= k < i && #[trigger] v@.take(i as int)[k]@ == c;
                assert(v@.take(i as int + 1)[k]@ == c);
            }
            assert forall|c: (int, int)| #[trigger] pts(v@.take(i as int + 1)).contains(c) && c != v@[i as int]@
                implies pts(v@.take(i as int)).contains(c) by {
                let k = choose|k: int| 0 <= k < i + 1 && #[trigger] v@.take(i as int + 1)[k]@ == c;
                assert(v@.take(i as int)[k]@ == c);
            }
        }
        i = i + 1;
    }
    assert(v@.take(v@.len() as int) =~= v@);
    sorted
}

} // verus!
