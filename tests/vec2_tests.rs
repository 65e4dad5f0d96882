use polyomino::vec2::{Vec2, Vec2i};

#[test]
fn test_arithmetics() {
    let a = Vec2i { x: -1, y: 5 };
    let b = Vec2i { x: 3, y: -2 };

    assert_eq!(Vec2i { x: 2, y: 3 }, a + b);
    assert_eq!(Vec2i { x: 4, y: -7 }, b - a);
}

#[test]
fn new_and_comparison_with_pairs() {
    let v = Vec2::new(7, -3);
    assert_eq!(v, [7, -3]);
    assert_ne!(v, [-3, 7]);
}
