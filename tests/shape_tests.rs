use polyomino::shape::{Rotation, Shape};

fn parse(text: &str) -> Shape {
    Shape::parse(text).unwrap()
}

#[test]
fn test_shape_parse1() {
    let shape = "*\n*** \n*\n";
    let shape = parse(shape);
    assert_eq!(shape.squares, vec![[0, 0], [0, 1], [0, 2], [1, 1], [2, 1]]);
    assert_eq!((shape.width, shape.height), (3, 3));

    assert!(shape.is_set(0, 0));
    assert!(shape.is_set(1, 1));
    assert!(!shape.is_set(1, 0));
    assert!(!shape.is_set(5, 10));
    assert!(!shape.is_set(-1, 0));

    assert_eq!(
        shape.boundary,
        vec![[-1, 0], [-1, 1], [-1, 2], [0, -1], [0, 3], [1, 0], [1, 2], [2, 0], [2, 2], [3, 1]]
    );
}

#[test]
fn test_shape_parse2() {
    let shape = "   *\n****\n";
    let shape = parse(shape);
    assert_eq!(shape.squares, vec![[0, 1], [1, 1], [2, 1], [3, 0], [3, 1]]);
    assert_eq!((shape.width, shape.height), (4, 2));
}

#[test]
fn test_shape_mirrored() {
    let shape = "* **\n   *\n";
    let shape = parse(shape);
    assert_eq!(shape.mirrored().squares, vec![[0, 0], [0, 1], [1, 0], [3, 0]]);
    assert_eq!((shape.width, shape.height), (4, 2));
}

#[test]
fn test_shape_rotated() {
    let shape = "****\n   *\n";
    let shape = parse(shape);
    assert_eq!(shape.rotated(Rotation::CW0).squares, vec![[0, 0], [1, 0], [2, 0], [3, 0], [3, 1]]);
    assert_eq!(shape.rotated(Rotation::CW90).squares, vec![[0, 3], [1, 0], [1, 1], [1, 2], [1, 3]]);
    assert_eq!(shape.rotated(Rotation::CW180).squares, vec![[0, 0], [0, 1], [1, 1], [2, 1], [3, 1]]);
    assert_eq!(shape.rotated(Rotation::CW270).squares, vec![[0, 0], [0, 1], [0, 2], [0, 3], [1, 0]]);
}

#[test]
fn test_variants1() {
    let shape = "****";
    let shape = parse(shape);
    assert_eq!(2, shape.variants(true, true).len());
}

#[test]
fn test_variants2() {
    let shape = "*\n*\n***";
    let shape = parse(shape);
    assert_eq!(4, shape.variants(true, true).len());
}

#[test]
fn parse_of_blank_text_gives_no_shape() {
    assert!(Shape::parse("").is_none());
    assert!(Shape::parse("   \n  \n").is_none());
}

#[test]
fn parse_ignores_carriage_returns_before_line_feeds() {
    let shape = parse("**\r\n *\r\n");
    assert_eq!(shape.squares, vec![[0, 0], [1, 0], [1, 1]]);
    assert_eq!((shape.width, shape.height), (2, 2));
}

#[test]
fn parse_keeps_leading_blank_rows_and_columns() {
    let shape = parse("   \n O\n OOO \n O\n");
    assert_eq!((shape.width, shape.height), (4, 4));
    assert!(!shape.is_set(0, 0));
    assert!(shape.is_set(1, 1));
}

#[test]
fn rotating_four_times_gives_an_equal_shape() {
    for text in ["****\n   *\n", "*\n*\n***", "**\n**", "* *\n***"] {
        let shape = parse(text);
        let turned = shape
            .rotated(Rotation::CW90)
            .rotated(Rotation::CW90)
            .rotated(Rotation::CW90)
            .rotated(Rotation::CW90);
        assert!(turned == shape);
        assert_eq!(turned.squares, shape.squares);
    }
}

#[test]
fn mirroring_twice_gives_an_equal_shape() {
    let shape = parse("* **\n   *\n");
    let back = shape.mirrored().mirrored();
    assert!(back == shape);
    assert_eq!(back.squares, shape.squares);
}

#[test]
fn shapes_with_different_cells_differ() {
    assert!(parse("**") != parse("*\n*"));
    assert!(parse("**") == parse("**\n"));
}

#[test]
fn variants_without_symmetries_is_the_shape_itself() {
    let shape = parse("*\n*\n***");
    let vs = shape.variants(false, false);
    assert_eq!(vs.len(), 1);
    assert!(vs[0] == shape);
}

#[test]
fn variants_come_identity_first_then_turns_then_mirror() {
    let shape = parse("**\n*");
    let vs = shape.variants(false, true);
    assert_eq!(vs.len(), 4);
    assert_eq!(vs[0].squares, vec![[0, 0], [0, 1], [1, 0]]);
    assert_eq!(vs[1].squares, vec![[0, 0], [1, 0], [1, 1]]);
    let straight = parse("*****");
    let sv = straight.variants(true, true);
    assert_eq!(sv.len(), 2);
    assert_eq!((sv[0].width, sv[0].height), (5, 1));
    assert_eq!((sv[1].width, sv[1].height), (1, 5));
    let mirrored_only = parse("**\n *").variants(true, false);
    assert_eq!(mirrored_only.len(), 2);
    assert_eq!(mirrored_only[1].squares, vec![[0, 0], [0, 1], [1, 0]]);
}

#[test]
fn full_symmetry_gives_at_most_eight_variants() {
    let shape = parse("**\n*\n*");
    let vs = shape.variants(true, true);
    assert_eq!(vs.len(), 8);
    let square = parse("**\n**");
    assert_eq!(square.variants(true, true).len(), 1);
}
