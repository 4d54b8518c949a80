use troll_bot::fruit::{Fruit, Tree};
use troll_bot::troll::{Troll, TrollType};
use troll_bot::util::manhattan_dist;

#[test]
fn manhattan_dist_sums_coordinate_gaps() {
    assert_eq!(manhattan_dist((0, 0), (3, 4)), 7);
    assert_eq!(manhattan_dist((3, 4), (0, 0)), 7);
    assert_eq!(manhattan_dist((-2, 5), (1, -1)), 9);
    assert_eq!(manhattan_dist((1, 1), (1, 1)), 0);
}

#[test]
fn fruit_names_and_indexes() {
    assert_eq!(Fruit::from(&"PLUM".to_string()), Fruit::Plum);
    assert_eq!(Fruit::from(&"BANANA".to_string()), Fruit::Banana);
    assert_eq!(Fruit::Apple.to_string(), "APPLE");
    assert_eq!(Fruit::from_usize(9), Fruit::Apple);
    assert_eq!(Fruit::from_usize(19), Fruit::Banana);
    assert_eq!(Fruit::Lemon.to_usize(), 1);
}

#[test]
fn troll_commands() {
    let t = Troll::new(7, 0, 3, 4, 1, 1, 1, 1, 0, 0, 0, 0, 0, 0);
    assert_eq!(t.class, TrollType::Poly);
    assert_eq!(t.go_to(-2, 15), "MOVE 7 -2 15");
    assert_eq!(t.harvest(), "HARVEST 7");
    let tree = Tree::new(Fruit::Plum, 2, 5, 6, 4, 10, 0);
    assert_eq!(t.go_to_tree(&tree), "MOVE 7 5 6");
}
