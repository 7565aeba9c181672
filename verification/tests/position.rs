use evetech::{Position, COORD_LIMIT};

#[test]
fn distance() {
    let zero = Position::new(0, 0, 0);
    let one_x = Position::new(1, 0, 0);
    let one_y = Position::new(0, 1, 0);
    let one_z = Position::new(0, 0, 1);

    assert_eq!(Position::distance(&zero, &zero), 0);
    assert_eq!(Position::distance(&zero, &one_x), 1);
    assert_eq!(Position::distance(&zero, &one_y), 1);
    assert_eq!(Position::distance(&zero, &one_z), 1);
}

#[test]
fn distance_to() {
    let zero = Position::new(0, 0, 0);
    let one_x = Position::new(1, 0, 0);
    let one_y = Position::new(0, 1, 0);
    let one_z = Position::new(0, 0, 1);

    assert_eq!(zero.distance_to(&zero), 0);
    assert_eq!(zero.distance_to(&one_x), 1);
    assert_eq!(zero.distance_to(&one_y), 1);
    assert_eq!(zero.distance_to(&one_z), 1);
}

#[test]
fn distance_is_symmetric_and_zero_on_self() {
    let a = Position::new(12, -7, 44);
    let b = Position::new(-3, 25, 8);
    assert_eq!(Position::distance(&a, &b), Position::distance(&b, &a));
    assert_eq!(Position::distance(&a, &a), 0);
    assert_eq!(Position::distance(&b, &b), 0);
}

#[test]
fn distance_pythagorean() {
    let zero = Position::new(0, 0, 0);
    assert_eq!(Position::distance(&zero, &Position::new(3, 4, 0)), 5);
    assert_eq!(Position::distance(&zero, &Position::new(0, -3, 4)), 5);
    assert_eq!(Position::distance(&Position::new(1, 1, 1), &Position::new(3, 3, 2)), 3);
}

#[test]
fn distance_rounds_down() {
    let zero = Position::new(0, 0, 0);
    // sqrt(3) is between 1 and 2
    assert_eq!(Position::distance(&zero, &Position::new(1, 1, 1)), 1);
    // sqrt(8) is between 2 and 3
    assert_eq!(Position::distance(&zero, &Position::new(2, 2, 0)), 2);
}

#[test]
fn zero_and_default() {
    let z = Position::zero();
    assert_eq!(z, Position::new(0, 0, 0));
    assert_eq!(Position::default(), z);
}

#[test]
fn distance_at_the_coordinate_limit() {
    let far = Position::new(COORD_LIMIT, COORD_LIMIT, COORD_LIMIT);
    let near = Position::new(-COORD_LIMIT, -COORD_LIMIT, -COORD_LIMIT);
    assert_eq!(Position::distance(&far, &near), 1996918623117814387);
    assert_eq!(Position::distance(&near, &far), 1996918623117814387);
}
