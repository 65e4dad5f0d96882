use polyomino::bundle::{parse_bundle, Bundle};
use polyomino::layout::{Layout, Overlap, Position};
use polyomino::random::seeded_rng;
use polyomino::shape::Shape;
use polyomino::vec2::Vec2i;

fn parse(text: &str) -> Shape {
    Shape::parse(text).unwrap()
}

fn at(x: i32, y: i32) -> Vec2i {
    Vec2i { x: x, y: y }
}

#[test]
fn test_overlap_status() {
    let shape1 = "   \n O\n OOO \n O\n";
    let shape1 = parse(shape1);

    let shape2 = "   O\n OOO \n O\n";
    let shape2 = parse(shape2);

    assert_eq!(Overlap::Overlap, Layout::overlap_status(&shape1, &shape2, &Vec2i { x: 0, y: 0 }, &Vec2i { x: 0, y: 0 }));

    assert_eq!(Overlap::Border, Layout::overlap_status(&shape1, &shape2, &Vec2i { x: 0, y: 0 }, &Vec2i { x: 0, y: 3 }));

    assert_eq!(Overlap::Border, Layout::overlap_status(&shape1, &shape2, &Vec2i { x: 1, y: 1 }, &Vec2i { x: 1, y: 4 }));

    assert_eq!(Overlap::Disjoint, Layout::overlap_status(&shape1, &shape2, &Vec2i { x: 0, y: 0 }, &Vec2i { x: 0, y: 4 }));

    assert_eq!(Overlap::Border, Layout::overlap_status(&shape1, &shape2, &Vec2i { x: -2, y: 0 }, &Vec2i { x: 0, y: 2 }));
}

#[test]
fn test_shape_dist() {
    let shape2 = "   O\n OOO \n O\n";
    let shape2 = parse(shape2);

    let shape3 = "OOOO\n   O\n";
    let shape3 = parse(shape3);

    assert_eq!(-1, Layout::distance(&shape2, &shape3, &Vec2i { x: 0, y: 0 }, &Vec2i { x: 0, y: 0 }));

    assert_eq!(0, Layout::distance(&shape2, &shape3, &Vec2i { x: 0, y: -3 }, &Vec2i { x: 0, y: 0 }));

    assert_eq!(1, Layout::distance(&shape2, &shape3, &Vec2i { x: 0, y: -4 }, &Vec2i { x: 0, y: 0 }));

    assert_eq!(2, Layout::distance(&shape2, &shape3, &Vec2i { x: 0, y: -4 }, &Vec2i { x: 1, y: 1 }));
}

#[test]
fn test_shape_dist2() {
    let shape1 = "OOOO\nO\n";
    let shape1 = parse(shape1);

    let shape2 = "O\nO\nO\nO\nO\n";
    let shape2 = parse(shape2);

    assert_eq!(0, Layout::distance(&shape1, &shape2, &Vec2i { x: 0, y: 1 }, &Vec2i { x: 3, y: 2 }));

    assert_eq!(-1, Layout::distance(&shape1, &shape2, &Vec2i { x: 0, y: 1 }, &Vec2i { x: 0, y: 2 }));
}

#[test]
fn relationship_cases_and_symmetry() {
    let a = parse("**\n*");
    let b = parse("***");
    let cases = [
        (at(0, 0), at(0, 0), Overlap::Overlap),
        (at(0, 0), at(0, 2), Overlap::Border),
        (at(0, 0), at(2, 0), Overlap::Border),
        (at(0, 0), at(0, 3), Overlap::Disjoint),
        (at(0, 0), at(3, 0), Overlap::Disjoint),
        (at(0, 0), at(1, 1), Overlap::Border),
        (at(0, 0), at(2, 1), Overlap::Disjoint),
    ];
    for (pa, pb, want) in cases.iter() {
        assert_eq!(*want, Layout::overlap_status(&a, &b, pa, pb));
        assert_eq!(*want, Layout::overlap_status(&b, &a, pb, pa));
    }
    // identical shape at identical position
    assert_eq!(Overlap::Overlap, Layout::overlap_status(&a, &a, &at(5, 5), &at(5, 5)));
}

#[test]
fn gap_matches_relationship() {
    let a = parse("*");
    let b = parse("*");
    assert_eq!(-1, Layout::distance(&a, &b, &at(0, 0), &at(0, 0)));
    assert_eq!(0, Layout::distance(&a, &b, &at(0, 0), &at(1, 0)));
    // a diagonal neighbour neither overlaps nor borders: Manhattan distance 2
    assert_eq!(Overlap::Disjoint, Layout::overlap_status(&a, &b, &at(0, 0), &at(1, 1)));
    assert_eq!(1, Layout::distance(&a, &b, &at(0, 0), &at(1, 1)));
    assert_eq!(6, Layout::distance(&a, &b, &at(-3, 2), &at(1, -1)));
}

const RING: &str = "*****\n\n*****\n\n*\n*\n*\n\n*\n*\n*";

fn ring_bundle() -> Bundle {
    parse_bundle(RING, false, false).unwrap()
}

fn place(layout: &mut Layout, coords: &[(i32, i32)]) {
    for (i, (x, y)) in coords.iter().enumerate() {
        layout.pos[i].x = *x;
        layout.pos[i].y = *y;
    }
}

#[test]
fn bundle_parse_reads_blocks_with_variants() {
    let b = ring_bundle();
    assert_eq!(b.variants.len(), 4);
    for vs in b.variants.iter() {
        assert_eq!(vs.len(), 1);
    }
    let full = parse_bundle(RING, true, true).unwrap();
    assert_eq!(full.variants.len(), 4);
    assert_eq!(full.variants[0].len(), 2);
    assert_eq!(full.variants[2].len(), 2);
    assert_eq!((full.variants[2][0].width, full.variants[2][0].height), (1, 3));
    let same = Bundle::parse(RING, false, false).unwrap();
    assert_eq!(same.variants.len(), 4);
}

#[test]
fn bundle_parse_rejects_an_empty_block() {
    assert!(parse_bundle("**\n\n", false, false).is_none());
    assert!(parse_bundle("**\n\n\n\n*", false, false).is_none());
    assert!(parse_bundle("**\n\n\n*", false, false).is_some());
}

#[test]
fn new_layout_puts_each_id_at_the_origin() {
    let b = ring_bundle();
    let l = Layout::new(&b);
    assert_eq!(l.pos.len(), 4);
    for (i, p) in l.pos.iter().enumerate() {
        assert!(*p == Position { x: 0, y: 0, shape: i as u16, var: 0 });
    }
    assert!(Position::zero() == Position { x: 0, y: 0, shape: 0, var: 0 });
    assert_eq!(l.pos[3].p(), at(0, 0));
    assert_eq!(l.shape_by_pos(&l.pos[2]).height, 3);
}

#[test]
fn bounds_and_center() {
    let b = ring_bundle();
    let mut l = Layout::new(&b);
    place(&mut l, &[(0, 0), (0, 4), (0, 1), (4, 1)]);
    assert_eq!(l.bounds(), (at(0, 0), at(5, 5)));
    l.center();
    assert_eq!(l.bounds(), (at(-2, -2), at(3, 3)));
    assert_eq!(l.pos[1].p(), at(-2, 2));
    let mut m = Layout::new(&b);
    place(&mut m, &[(-7, -3), (-7, 1), (-7, -2), (-3, -2)]);
    // centre (-4.5, -0.5) rounds toward zero to (-4, 0)
    m.center();
    assert_eq!(m.pos[0].p(), at(-3, -3));
}

#[test]
fn closed_ring_encloses_its_hole() {
    let b = ring_bundle();
    let mut l = Layout::new(&b);
    place(&mut l, &[(0, 0), (0, 4), (0, 1), (4, 1)]);
    let first = l.flood_fill();
    let second = l.flood_fill();
    let cells = first.unwrap();
    assert_eq!(cells.len(), 9);
    assert_eq!(second.unwrap().len(), 9);
    assert_eq!(l.score(), 9);
    let (core, off) = l.extract_core().unwrap();
    assert_eq!(off, at(1, 1));
    assert_eq!((core.width, core.height), (3, 3));
    assert_eq!(core.squares.len(), 9);
}

#[test]
fn open_chain_scores_minus_its_gaps() {
    let b = ring_bundle();
    let mut l = Layout::new(&b);
    // the right bar moved one column out: the ring opens
    place(&mut l, &[(0, 0), (0, 4), (0, 1), (6, 1)]);
    assert!(l.flood_fill().is_none());
    assert!(l.flood_fill().is_none());
    assert!(l.extract_core().is_none());
    // gaps in order: top-bottom 3, bottom-left 0, left-right 5, right-top 2
    assert_eq!(l.score(), -10);
    let all_at_origin = Layout::new(&b);
    assert!(all_at_origin.score() <= 0);
    assert_eq!(all_at_origin.score(), -4);
}

#[test]
fn shuffle_keeps_each_id_once() {
    let b = parse_bundle("*\n\n**\n\n***\n\n****\n\n*****\n\n**\n**", false, false).unwrap();
    let mut rng = seeded_rng(7);
    let mut l = Layout::new(&b);
    for _ in 0..5 {
        l.shuffle(&mut rng);
        let mut ids: Vec<u16> = l.pos.iter().map(|p| p.shape).collect();
        ids.sort();
        assert_eq!(ids, vec![0, 1, 2, 3, 4, 5]);
        for p in l.pos.iter() {
            assert_eq!((p.x, p.y, p.var), (0, 0, 0));
        }
    }
}

#[test]
fn shuffle_is_reproducible_for_a_seed() {
    let b = parse_bundle("*\n\n**\n\n***\n\n****\n\n*****\n\n**\n**", false, false).unwrap();
    let run = || {
        let mut rng = seeded_rng(42);
        let mut l = Layout::new(&b);
        l.shuffle(&mut rng);
        l.pos.iter().map(|p| p.shape).collect::<Vec<u16>>()
    };
    assert_eq!(run(), run());
}

#[test]
fn layouts_compare_by_instances() {
    let b = ring_bundle();
    let l = Layout::new(&b);
    let mut m = l.duplicate();
    assert!(l == m);
    m.pos[0].x = 1;
    assert!(l != m);
}

#[test]
fn fit_candidates_enumerate_variant_boundary_cell_order() {
    let anchor = parse("*");
    assert_eq!(anchor.boundary, vec![[-1, 0], [0, -1], [0, 1], [1, 0]]);
    let variants = vec![parse("**")];
    let c = Layout::fit_candidates(&anchor, &at(0, 0), &variants);
    let want = vec![
        (0, at(-1, 0)),
        (0, at(-2, 0)),
        (0, at(0, -1)),
        (0, at(-1, -1)),
        (0, at(0, 1)),
        (0, at(-1, 1)),
        (0, at(1, 0)),
        (0, at(0, 0)),
    ];
    assert_eq!(c, want);
    let two = vec![parse("**"), parse("*")];
    let c2 = Layout::fit_candidates(&anchor, &at(3, -2), &two);
    assert_eq!(c2.len(), 12);
    assert_eq!(c2[8], (1, at(2, -2)));
    assert_eq!(c2[11], (1, at(4, -2)));
}

#[test]
fn approx_extent_is_the_larger_side() {
    assert_eq!(parse("*****").approx_extent(), 5);
    assert_eq!(parse("*\n*\n**").approx_extent(), 3);
}

#[test]
fn permute_runs_the_given_fisher_yates_pass() {
    let b = parse_bundle("*\n\n**\n\n***\n\n****", false, false).unwrap();
    let mut l = Layout::new(&b);
    l.pos[2].x = 9;
    // step 0: swap(0,0); step 1: swap(1,0); step 2: swap(2,1); step 3: swap(3,0)
    l.permute(&vec![0, 0, 1, 0]);
    let ids: Vec<u16> = l.pos.iter().map(|p| p.shape).collect();
    assert_eq!(ids, vec![3, 2, 0, 1]);
    assert_eq!(l.pos[2].x, 9);
}

#[test]
fn repeated_fills_list_the_same_cells_in_order() {
    let b = ring_bundle();
    let mut l = Layout::new(&b);
    place(&mut l, &[(0, 0), (0, 4), (0, 1), (4, 1)]);
    let first = l.flood_fill().unwrap();
    let second = l.flood_fill().unwrap();
    assert_eq!(first, second);
    assert_eq!(first[0], at(1, 1));
    assert_eq!(first[1], at(1, 2));
    assert_eq!(first[8], at(3, 3));
}
