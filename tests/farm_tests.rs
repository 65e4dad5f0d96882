use polyomino::bundle::parse_bundle;
use polyomino::farm::{floor_sqrt, pick_elites, rank_from_draw, rank_order, Farm};
use polyomino::layout::Layout;

const SHAPES: &str = "***\n\n***\n\n**\n*\n\n*\n**";

#[test]
fn rank_order_is_best_first_and_stable() {
    let scores: Vec<i64> = vec![3, -2, 9, 3, 0, 9];
    assert_eq!(rank_order(&scores), vec![2, 5, 0, 3, 4, 1]);
    assert_eq!(rank_order(&vec![]), Vec::<usize>::new());
}

#[test]
fn floor_sqrt_rounds_down() {
    assert_eq!(floor_sqrt(0, 10), 0);
    assert_eq!(floor_sqrt(1, 10), 1);
    assert_eq!(floor_sqrt(15, 10), 3);
    assert_eq!(floor_sqrt(16, 10), 4);
    assert_eq!(floor_sqrt(100, 10), 10);
    assert_eq!(floor_sqrt(u32::MAX as u64 * u32::MAX as u64, u32::MAX as u64), u32::MAX as u64);
}

#[test]
fn rank_from_draw_favours_the_best() {
    assert_eq!(rank_from_draw(10, 100), 0);
    assert_eq!(rank_from_draw(10, 99), 1);
    assert_eq!(rank_from_draw(10, 1), 9);
    // a draw of 0 takes the last rank
    assert_eq!(rank_from_draw(10, 0), 9);
    assert_eq!(rank_from_draw(1, 1), 0);
}

#[test]
fn elites_skip_duplicates() {
    let b = parse_bundle(SHAPES, false, false).unwrap();
    let a = Layout::new(&b);
    let mut c = Layout::new(&b);
    c.pos[0].x = 3;
    let gen = vec![a.duplicate(), c.duplicate(), a.duplicate(), c.duplicate()];
    let order = vec![0, 2, 1, 3];
    assert_eq!(pick_elites(&gen, &order, 3), vec![0, 2]);
    assert_eq!(pick_elites(&gen, &order, 1), vec![0]);
    assert_eq!(pick_elites(&gen, &order, 0), Vec::<usize>::new());
}

#[test]
fn mutation_keeps_one_instance_per_id() {
    let b = parse_bundle(SHAPES, true, true).unwrap();
    let mut farm = Farm::new(&b, 42, 10, 1, 2, 50, 5);
    let l = Layout::new(&b);
    for _ in 0..20 {
        let m = farm.mutate_gene(&l);
        let mut ids: Vec<u16> = m.pos.iter().map(|p| p.shape).collect();
        ids.sort();
        assert_eq!(ids, vec![0, 1, 2, 3]);
        for p in m.pos.iter() {
            assert!((p.var as usize) < b.variants[p.shape as usize].len());
        }
    }
    assert_eq!(farm.gen_size, 10);
    assert_eq!(farm.mut_attempts, 5);
}

#[test]
fn breed_copies_elites_then_adds_mutants() {
    let b = parse_bundle(SHAPES, false, true).unwrap();
    let mut farm = Farm::new(&b, 1, 10, 1, 2, 50, 3);
    let mut prev: Vec<Layout> = Vec::new();
    for k in 0..10 {
        let mut l = Layout::new(&b);
        l.pos[0].x = (k % 3) as i32;
        prev.push(l);
    }
    let scores: Vec<i64> = prev.iter().map(|l| l.score()).collect();
    let order = rank_order(&scores);
    let next = farm.breed(&prev, &order);
    // two distinct elites, then 10 * 50% = 5 mutants
    assert_eq!(next.len(), 7);
    assert!(next[0] == prev[order[0]]);
    assert!(next[1] != next[0]);
}

#[test]
fn seeded_generation_is_reproducible() {
    let b = parse_bundle("***\n\n***", false, false).unwrap();
    let run = || {
        let mut farm = Farm::new(&b, 42, 10, 1, 2, 50, 3);
        let mut gen: Vec<Layout> = Vec::new();
        for _ in 0..10 {
            let mut l = Layout::new(&b);
            l.shuffle(&mut farm.rng);
            l.center();
            gen.push(l);
        }
        let scores: Vec<i64> = gen.iter().map(|l| l.score()).collect();
        let order = rank_order(&scores);
        let next = farm.breed(&gen, &order);
        let best: Vec<(i32, i32, u16, u16)> = next.iter().flat_map(|l| l.pos.iter().map(|p| (p.x, p.y, p.shape, p.var))).collect();
        (scores, order, best)
    };
    assert_eq!(run(), run());
}

use polyomino::farm::{apply_edit, apply_trial, Edit};

#[test]
fn edits_apply_as_drawn() {
    let b = parse_bundle("***\n\n***\n\n**\n*", false, true).unwrap();
    let l = Layout::new(&b);
    // variant 1 for instance 0, variant 2 for instance 2
    let mut c = l.duplicate();
    apply_edit(&mut c, Edit { kind: 0, i1: 0, i2: 2, a: 1, b: 2 });
    assert_eq!((c.pos[0].var, c.pos[1].var, c.pos[2].var), (1, 0, 2));
    // a shift between indices 2 and 1 (either order) moves instances 1..=2
    let mut d = l.duplicate();
    apply_edit(&mut d, Edit { kind: 1, i1: 2, i2: 1, a: 5, b: 0 });
    assert_eq!((d.pos[0].x, d.pos[0].y), (0, 0));
    assert_eq!((d.pos[1].x, d.pos[1].y), (1, 1));
    assert_eq!((d.pos[2].x, d.pos[2].y), (1, 1));
    // an exchange swaps shape ids and variants together
    let t = apply_trial(&c, &vec![Edit { kind: 2, i1: 0, i2: 2, a: 0, b: 0 }]);
    assert_eq!((t.pos[0].shape, t.pos[0].var), (2, 2));
    assert_eq!((t.pos[2].shape, t.pos[2].var), (0, 1));
}

#[test]
fn one_generation_cap_stops_after_one_pass() {
    let b = parse_bundle("***\n\n***", false, false).unwrap();
    let farm = Farm::new(&b, 42, 10, 1, 2, 50, 3);
    assert!(farm.finished(1));
    assert!(!farm.finished(0));
    let farm3 = Farm::new(&b, 42, 10, 3, 2, 50, 3);
    assert!(!farm3.finished(2));
    assert!(farm3.finished(3));
    let farm0 = Farm::new(&b, 42, 10, 0, 2, 50, 3);
    assert!(farm0.finished(1));
}
