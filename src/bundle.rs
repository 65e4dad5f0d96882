use vstd::prelude::*;
use crate::geom::MAX_COORD;
use crate::shape::{
    all_wf, all_within, chars_of, dedup, grid_cells, lemma_dedup_len, max, shape_cells,
    variant_candidates, Shape,
};

verus! {

/// The variants of each shape of a run, indexed by shape id.
pub struct Bundle {
    pub variants: Vec<Vec<Shape>>,
}

/// A blank line (two line feeds) starts at index `i`.
pub open spec fn blank_at(s: Seq<char>, i: int) -> bool {
    0 <= i && i + 1 < s.len() && s[i] == '\n' && s[i + 1] == '\n'
}

/// The pieces of `s` from `start` on, cut at each blank line found scanning
/// from `i`, left to right and without overlap.
pub open spec fn split_from(s: Seq<char>, start: int, i: int) -> Seq<Seq<char>>
    decreases s.len() - i,
{
    if i + 1 >= s.len() {
        seq![s.subrange(start, s.len() as int)]
    } else if blank_at(s, i) {
        seq![s.subrange(start, i)] + split_from(s, i + 2, i + 2)
    } else {
        split_from(s, start, i + 1)
    }
}

/// The text's shape definitions: the pieces between blank lines.
pub open spec fn blocks(s: Seq<char>) -> Seq<Seq<char>> {
    split_from(s, 0, 0)
}

/// Cuts a text into the pieces between blank lines.
pub fn split_blocks(s: &Vec<char>) -> (r: Vec<Vec<char>>)
    ensures
        r@.map_values(|b: Vec<char>| b@) == blocks(s@),
{
    let mut res: Vec<Vec<char>> = Vec::new();
    let mut cur: Vec<char> = Vec::new();
    let mut start: usize = 0;
    let mut i: usize = 0;
    while i < s.len() && s.len() - i > 1
        invariant
            0 <= start <= i <= s@.len(),
            cur@ == s@.subrange(start as int, i as int),
            res@.map_values(|b: Vec<char>| b@) + split_from(s@, start as int, i as int) == blocks(s@),
        decreases s.len() - i,
    {
        if s[i] == '\n' && s[i + 1] == '\n' {
            let ghost pre = res@;
            assert(split_from(s@, start as int, i as int) == seq![s@.subrange(start as int, i as int)] + split_from(
                s@,
                i + 2,
                i + 2,
            ));
            res.push(cur);
            cur = Vec::new();
            assert(res@.map_values(|b: Vec<char>| b@) =~= pre.map_values(|b: Vec<char>| b@).push(
                s@.subrange(start as int, i as int),
            ));
            assert(res@.map_values(|b: Vec<char>| b@) + split_from(s@, i + 2, i + 2) =~= pre.map_values(
                |b: Vec<char>| b@,
            ) + split_from(s@, start as int, i as int));
            i = i + 2;
            start = i;
            assert(cur@ =~= s@.subrange(start as int, i as int));
        } else {
            cur.push(s[i]);
            assert(cur@ =~= s@.subrange(start as int, i + 1));
            i = i + 1;
        }
    }
    while i < s.len()
        invariant
            0 <= start <= i <= s@.len(),
            cur@ == s@.subrange(start as int, i as int),
        decreases s.len() - i,
    {
        cur.push(s[i]);
        assert(cur@ =~= s@.subrange(start as int, i + 1));
        i = i + 1;
    }
    let ghost pre = res@;
    res.push(cur);
    assert(res@.map_values(|b: Vec<char>| b@) =~= pre.map_values(|b: Vec<char>| b@) + split_from(
        s@,
        start as int,
        (s@.len() - 1) as int,
    )) by {
        if start as int <= s@.len() - 1 {
        }
    }
    res
}

impl Bundle {
    /// Number of shape ids.
    pub open spec fn len(&self) -> int {
        self.variants@.len() as int
    }

    /// The variant `v` of shape `s`.
    pub open spec fn shape(&self, s: int, v: int) -> Shape {
        self.variants@[s]@[v]
    }

    /// At least one shape, ids and variant numbers that fit in `u16`, and every
    /// shape with at least one well-formed variant.
    pub open spec fn wf(&self) -> bool {
        &&& 1 <= self.variants@.len() <= 0x10000
        &&& forall|s: int| 0 <= s < self.variants@.len() ==> {
            &&& 1 <= (#[trigger] self.variants@[s])@.len() <= 0x10000
            &&& all_wf(self.variants@[s]@)
            &&& all_within(self.variants@[s]@, MAX_COORD as int)
        }
    }
}

proof fn lemma_split_lens(s: Seq<char>, start: int, i: int)
    requires
        0 <= start <= i <= s.len(),
    ensures
        split_from(s, start, i).len() >= 1,
        forall|k: int| 0 <= k < split_from(s, start, i).len() ==> (#[trigger] split_from(s, start, i)[k]).len() <= s.len(),
    decreases s.len() - i,
{
    if i + 1 >= s.len() {
        assert(split_from(s, start, i)[0] == s.subrange(start, s.len() as int));
    } else if blank_at(s, i) {
        assert(split_from(s, start, i)[0] == s.subrange(start, i));
        lemma_split_lens(s, i + 2, i + 2);
        let r = split_from(s, start, i);
        let t = split_from(s, i + 2, i + 2);
        assert forall|k: int| 0 <= k < r.len() implies (#[trigger] r[k]).len() <= s.len() by {
            if k > 0 {
                assert(r[k] == t[k - 1]);
            }
        }
    } else {
        lemma_split_lens(s, start, i + 1);
    }
}

impl Bundle {
    /// Reads the shapes of a text, one per piece between blank lines, each with
    /// its variants. Nothing when a piece fills no cell, or when there are more
    /// pieces than shape ids.
    pub fn parse(input: &str, mirrored: bool, rotated: bool) -> (r: Option<Bundle>)
        requires
            input@.len() <= MAX_COORD,
        ensures
            r is Some <==> blocks(input@).len() <= 0x10000 && forall|i: int|
                0 <= i < blocks(input@).len() ==> !(#[trigger] grid_cells(blocks(input@)[i])).is_empty(),
            r matches Some(b) ==> {
                &&& b.wf()
                &&& b.variants@.len() == blocks(input@).len()
                &&& forall|i: int|
                    0 <= i < b.variants@.len() ==> shape_cells((#[trigger] b.variants@[i])@) == dedup(
                        variant_candidates(grid_cells(blocks(input@)[i]), mirrored, rotated),
                    )
            },
    {
        let s = chars_of(input);
        let pieces = split_blocks(&s);
        let ghost bl = blocks(input@);
        assert(pieces@.len() == bl.len());
        proof {
            lemma_split_lens(s@, 0, 0);
        }
        if pieces.len() > 0x10000 {
            return None;
        }
        let mut variants: Vec<Vec<Shape>> = Vec::new();
        let mut i: usize = 0;
        while i < pieces.len()
            invariant
                pieces@.map_values(|b: Vec<char>| b@) == bl,
                bl == blocks(input@),
                input@.len() <= MAX_COORD,
                pieces@.len() <= 0x10000,
                forall|k: int| 0 <= k < bl.len() ==> (#[trigger] bl[k]).len() <= input@.len(),
                0 <= i <= pieces@.len(),
                variants@.len() == i,
                forall|k: int| 0 <= k < i ==> !(#[trigger] grid_cells(bl[k])).is_empty(),
                forall|k: int| 0 <= k < i ==> {
                    &&& 1 <= (#[trigger] variants@[k])@.len() <= 0x10000
                    &&& all_wf(variants@[k]@)
                    &&& all_within(variants@[k]@, MAX_COORD as int)
                    &&& shape_cells(variants@[k]@) == dedup(variant_candidates(grid_cells(bl[k]), mirrored, rotated))
                },
            decreases pieces.len() - i,
        {
            assert(pieces@[i as int]@ == bl[i as int]);
            match Shape::parse_chars(&pieces[i]) {
                None => {
                    return None;
                },
                Some(sh) => {
                    let vs = sh.variants(mirrored, rotated);
                    proof {
                        lemma_dedup_len(variant_candidates(sh.cells(), mirrored, rotated));
                        assert(shape_cells(vs@).len() == vs@.len());
                        assert forall|k: int| 0 <= k < vs@.len() implies (#[trigger] vs@[k]).width <= MAX_COORD
                            && vs@[k].height <= MAX_COORD by {
                            assert(vs@[k].width <= max(sh.width as int, sh.height as int));
                        }
                    }
                    variants.push(vs);
                },
            }
            i = i + 1;
        }
        let b = Bundle { variants: variants };
        assert(b.variants@.len() >= 1);
        Some(b)
    }
}

/// Reads a bundle of shapes from a text; see `Bundle::parse`.
pub fn parse_bundle(input: &str, mirrored: bool, rotated: bool) -> (r: Option<Bundle>)
    requires
        input@.len() <= MAX_COORD,
    ensures
        r is Some <==> blocks(input@).len() <= 0x10000 && forall|i: int|
            0 <= i < blocks(input@).len() ==> !(#[trigger] grid_cells(blocks(input@)[i])).is_empty(),
        r matches Some(b) ==> {
            &&& b.wf()
            &&& b.variants@.len() == blocks(input@).len()
            &&& forall|i: int|
                0 <= i < b.variants@.len() ==> shape_cells((#[trigger] b.variants@[i])@) == dedup(
                    variant_candidates(grid_cells(blocks(input@)[i]), mirrored, rotated),
                )
        },
{
    Bundle::parse(input, mirrored, rotated)
}

} // verus!
