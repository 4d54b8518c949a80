use troll_bot::consts::{ANY, APPLE, CHOP_ANY, CUT_ALL, IRON, PLANT_APPLE, PLANT_LEMON, WOOD};
use troll_bot::fruit::Fruit;
use troll_bot::troll::{Troll, TrollType};

#[test]
fn roles_follow_from_characteristics() {
    assert_eq!(TrollType::get_type([1, 1, 1, 1]), TrollType::Poly);
    assert_eq!(TrollType::get_type([2, 4, 0, 3]), TrollType::Choper);
    assert_eq!(TrollType::get_type([2, 2, 0, 2]), TrollType::Choper);
    assert_eq!(TrollType::get_type([2, 0, 0, 2]), TrollType::Griefer);
    assert_eq!(TrollType::get_type([2, 2, 2, 1]), TrollType::Peasant);
    assert_eq!(TrollType::get_type([2, 2, 0, 1]), TrollType::Miner);
    assert_eq!(TrollType::get_type([3, 3, 3, 3]), TrollType::Miner);
}

#[test]
fn roles_need_their_characteristics() {
    assert_eq!(TrollType::Poly.charac_need(0, 5), [1, 1, 1, 1]);
    assert_eq!(TrollType::Choper.charac_need(2, 5), [2, 4, 0, 3]);
    assert_eq!(TrollType::Miner.charac_need(1, 9), [2, 2, 0, 1]);
    assert_eq!(TrollType::Griefer.charac_need(1, 0), [2, 0, 0, 2]);
    assert_eq!(TrollType::Peasant.charac_need(0, 3), [2, 2, 2, 1]);
}

#[test]
fn training_costs_grow_with_the_squares_and_the_troll_count() {
    assert_eq!(TrollType::Peasant.cost(0, 5, 3), [7, 7, 7, 0, 4, 0]);
    assert_eq!(TrollType::Choper.cost(2, 0, 4), [8, 20, 4, 0, 13, 0]);
    assert_eq!(TrollType::Poly.cost(0, 0, 0), [1, 1, 1, 0, 1, 0]);
    assert_eq!(TrollType::Griefer.cost(1, 7, 2), [6, 2, 2, 0, 6, 0]);
}

#[test]
fn roles_have_numbers_objectives_and_names() {
    let all = [TrollType::Poly, TrollType::Peasant, TrollType::Miner, TrollType::Choper, TrollType::Griefer];
    for (n, t) in all.iter().enumerate() {
        assert_eq!(t.to_usize(), n);
        assert_eq!(TrollType::from_usize(n), *t);
    }
    assert_eq!(TrollType::Poly.default_objective(), ANY);
    assert_eq!(TrollType::Peasant.default_objective(), ANY);
    assert_eq!(TrollType::Miner.default_objective(), IRON);
    assert_eq!(TrollType::Choper.default_objective(), CHOP_ANY);
    assert_eq!(TrollType::Griefer.default_objective(), ANY);
    assert_eq!(TrollType::Poly.to_string(), "POLY");
    assert_eq!(TrollType::Peasant.to_string(), "PEASANT");
    assert_eq!(TrollType::Miner.to_string(), "MINER");
    assert_eq!(TrollType::Choper.to_string(), "CHOPER");
    assert_eq!(TrollType::Griefer.to_string(), "GRIEFER");
}

#[test]
fn a_new_troll_takes_its_role_and_objective() {
    let t = Troll::new(4, 1, 2, 3, 2, 4, 0, 3, 0, 0, 0, 0, 0, 5);
    assert_eq!(t.class, TrollType::Choper);
    assert_eq!(t.objective, CHOP_ANY);
    assert!(!t.assigned);
    assert_eq!(t.charac, [2, 4, 0, 3]);
    assert_eq!(t.items, [0, 0, 0, 0, 0, 5]);
}

#[test]
fn what_a_troll_carries() {
    let t = Troll::new(1, 0, 0, 0, 1, 5, 1, 1, 1, 0, 2, 0, 1, 0);
    assert_eq!(t.total_carry(), 4);
    assert_eq!(t.place_left(), 1);
    assert!(!t.is_full());
    assert!(!t.empty());
    assert_eq!(t.have_fruit(Fruit::Apple), 2);
    assert_eq!(t.have_fruit(Fruit::Lemon), 0);
    assert!(t.have(IRON));
    assert!(!t.have(WOOD));
    assert!(t.have_any_fruit());

    let full = Troll::new(2, 0, 0, 0, 1, 3, 1, 1, 0, 0, 0, 0, 2, 1);
    assert!(full.is_full());
    assert_eq!(full.place_left(), 0);
    assert!(!full.have_any_fruit());

    let bare = Troll::new(3, 0, 0, 0, 1, 1, 1, 1, 0, 0, 0, 0, 0, 0);
    assert!(bare.empty());
    assert_eq!(bare.total_carry(), 0);
}

#[test]
fn commands_name_the_troll() {
    let mut t = Troll::new(7, 0, 3, 4, 1, 5, 1, 1, 0, 1, 0, 0, 0, 0);
    assert_eq!(t.mine(), "MINE 7");
    assert_eq!(t.drop(), "DROP 7");
    assert_eq!(t.chop(), "CHOP 7");
    assert_eq!(t.plant_fruit(Fruit::Banana), "PLANT 7 BANANA");
    t.target(PLANT_LEMON);
    assert_eq!(t.pick(), "PICK 7 LEMON");
    // No apple carried: the first fruit carried is planted instead.
    t.target(PLANT_APPLE);
    assert_eq!(t.plant(), "PLANT 7 LEMON");
    let u = Troll::new(8, 0, 0, 0, 1, 5, 1, 1, 0, 1, 2, 0, 0, 0);
    let mut u = u;
    u.target(APPLE);
    assert_eq!(u.plant(), "PLANT 8 APPLE");
    assert_eq!(u.go_to(-4, 0), "MOVE 8 -4 0");
    assert_eq!(u.go_to(i32::MAX, i32::MIN), "MOVE 8 2147483647 -2147483648");
}

#[test]
fn target_sets_objective_and_marks_assigned() {
    let mut t = Troll::new(1, 0, 0, 0, 1, 1, 1, 1, 0, 0, 0, 0, 0, 0);
    assert_eq!(t.objective, ANY);
    t.target(CUT_ALL);
    assert_eq!(t.objective, CUT_ALL);
    assert!(t.assigned);
}
