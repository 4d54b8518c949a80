use troll_bot::board::Grid;
use troll_bot::consts::{ANY, BANANA_TRICKS, CUT_ALL, LEMON, PLANT_APPLE, THIEF};
use troll_bot::fruit::{Fruit, Tree};
use troll_bot::inventory::Inventory;
use troll_bot::troll::Troll;

// A 6 by 5 board: our shack in the top left corner, the enemy's in the bottom right, an
// iron mine in the middle, and rock at (4, 0). Drop tiles (1, 0) and (0, 1); the mine tile
// used is (1, 2).
fn board() -> Grid {
    let rows: Vec<String> = ["0...#.", "......", "..+...", "......", ".....1"]
        .iter()
        .map(|r| r.to_string())
        .collect();
    Grid::new(&"6 5".to_string(), &rows)
}

fn peasant(id: i32, x: i32, y: i32, items: [i32; 6]) -> Troll {
    Troll::new(id, 0, x, y, 2, 2, 2, 1, items[0], items[1], items[2], items[3], items[4], items[5])
}

fn poly(id: i32, x: i32, y: i32, items: [i32; 6]) -> Troll {
    Troll::new(id, 0, x, y, 1, 1, 1, 1, items[0], items[1], items[2], items[3], items[4], items[5])
}

fn miner(id: i32, x: i32, y: i32, iron: i32) -> Troll {
    Troll::new(id, 0, x, y, 2, 2, 0, 1, 0, 0, 0, 0, iron, 0)
}

fn choper(id: i32, x: i32, y: i32) -> Troll {
    Troll::new(id, 0, x, y, 2, 4, 0, 3, 0, 0, 0, 0, 0, 0)
}

fn griefer(id: i32, x: i32, y: i32) -> Troll {
    Troll::new(id, 0, x, y, 2, 0, 0, 2, 0, 0, 0, 0, 0, 0)
}

fn none() -> Inventory {
    Inventory::new(0, 0, 0, 0, 0, 0)
}

fn turn(trolls: &Vec<Troll>, trees: &Vec<Tree>) -> Grid {
    let mut g = board();
    g.update_tiles(trolls, &vec![], trees);
    g
}

#[test]
fn harvester_drops_at_the_shack() {
    let mut t = peasant(1, 1, 0, [1, 0, 0, 0, 0, 0]);
    let g = turn(&vec![t], &vec![]);
    assert!(t.can_drop(&g.drop_positions));
    assert_eq!(t.act(&g, &vec![], &none()), Some("DROP 1".to_string()));
}

#[test]
fn full_harvester_heads_for_the_first_closest_drop_tile() {
    let mut t = peasant(2, 3, 3, [0, 2, 0, 0, 0, 0]);
    let g = turn(&vec![t], &vec![]);
    assert_eq!(t.dist_from_base(&g), 5);
    assert_eq!(t.go_to_drop(&g), Some("MOVE 2 1 0".to_string()));
    assert_eq!(t.act(&g, &vec![], &none()), Some("MOVE 2 1 0".to_string()));
}

#[test]
fn harvester_harvests_its_tree_or_heads_for_the_closest() {
    let plum = Tree::new(Fruit::Plum, 3, 2, 0, 2, 4, 0);
    let lemon = Tree::new(Fruit::Lemon, 1, 5, 3, 2, 4, 0);
    let trees = vec![plum, lemon];
    let mut on_tree = peasant(3, 2, 0, [0; 6]);
    let mut away = peasant(4, 3, 3, [0; 6]);
    let g = turn(&vec![on_tree, away], &trees);
    assert!(on_tree.can_harvest(&g, &trees));
    assert_eq!(on_tree.act(&g, &trees, &none()), Some("HARVEST 3".to_string()));
    assert_eq!(away.find_shorter_tree(&trees), Some((2, &lemon)));
    assert_eq!(away.act(&g, &trees, &none()), Some("MOVE 4 5 3".to_string()));
    assert_eq!(away.objective, ANY);
}

#[test]
fn harvester_looks_for_its_fruit_first() {
    let plum = Tree::new(Fruit::Plum, 3, 2, 0, 2, 4, 0);
    let lemon = Tree::new(Fruit::Lemon, 1, 5, 3, 2, 4, 0);
    let trees = vec![plum, lemon];
    let mut t = peasant(5, 2, 0, [0; 6]);
    t.target(LEMON);
    let g = turn(&vec![t], &trees);
    assert!(!t.can_harvest(&g, &trees));
    assert_eq!(t.find_shorter_fruit(&trees, Fruit::Lemon), Some((6, &lemon)));
    assert_eq!(t.act(&g, &trees, &none()), Some("MOVE 5 5 3".to_string()));
    // Where no tree of its fruit bears any, any bearing tree does.
    assert_eq!(t.find_shorter_fruit(&vec![plum], Fruit::Apple), Some((0, &plum)));
}

#[test]
fn harvester_with_nothing_to_do_gives_no_command() {
    let mut t = peasant(6, 3, 3, [0; 6]);
    let bare = vec![Tree::new(Fruit::Plum, 0, 2, 0, 2, 4, 0)];
    let g = turn(&vec![t], &bare);
    assert_eq!(t.find_shorter_tree(&bare), None);
    assert_eq!(t.act(&g, &bare, &none()), None);
}

#[test]
fn miner_mines_or_heads_for_the_mine() {
    let mut at_mine = miner(7, 1, 2, 0);
    let mut away = miner(8, 4, 4, 0);
    let mut full = miner(9, 0, 1, 2);
    let g = turn(&vec![at_mine, away, full], &vec![]);
    assert!(at_mine.can_mine(g.mine_position));
    assert_eq!(at_mine.act(&g, &vec![], &none()), Some("MINE 7".to_string()));
    assert_eq!(away.act(&g, &vec![], &none()), Some("MOVE 8 1 2".to_string()));
    assert_eq!(full.act(&g, &vec![], &none()), Some("DROP 9".to_string()));
}

#[test]
fn choper_chops_grown_trees() {
    let small = Tree::new(Fruit::Plum, 0, 3, 2, 2, 4, 0);
    let grown = Tree::new(Fruit::Lemon, 0, 5, 3, 4, 8, 0);
    let trees = vec![small, grown];
    let mut on_grown = choper(10, 5, 3);
    let mut away = choper(11, 3, 3);
    let g = turn(&vec![on_grown, away], &trees);
    assert!(on_grown.can_chop(&g));
    assert_eq!(on_grown.act(&g, &trees, &none()), Some("CHOP 10".to_string()));
    assert_eq!(away.find_shorter_tree_to_chop(&trees), Some((2, &grown)));
    // The grown tree's tile is taken by our troll: nothing is walkable to chop.
    assert_eq!(away.act(&g, &trees, &none()), None);
    let mut alone = choper(12, 3, 3);
    let g = turn(&vec![alone], &trees);
    assert_eq!(alone.act(&g, &trees, &none()), Some("MOVE 12 5 3".to_string()));
    alone.target(CUT_ALL);
    assert_eq!(alone.act(&g, &trees, &none()), Some("MOVE 12 3 2".to_string()));
}

#[test]
fn griefer_destroys_the_tree_closest_to_the_enemy() {
    let mid = Tree::new(Fruit::Lemon, 0, 3, 2, 4, 8, 0);
    let far = Tree::new(Fruit::Apple, 0, 5, 3, 4, 8, 0);
    let trees = vec![mid, far];
    let mut away = griefer(13, 0, 4);
    let g = turn(&vec![away], &trees);
    assert!(!away.can_grief(&g, &trees));
    assert_eq!(away.go_to_grief(&g, &trees), Some("MOVE 13 5 3".to_string()));
    assert_eq!(away.act(&g, &trees, &none()), Some("MOVE 13 5 3".to_string()));
    let mut there = griefer(14, 5, 3);
    let g = turn(&vec![there], &trees);
    assert!(there.can_grief(&g, &trees));
    assert_eq!(there.act(&g, &trees, &none()), Some("CHOP 14".to_string()));
}

#[test]
fn poly_drops_iron_first_and_steals_when_asked() {
    let mut full = poly(15, 3, 3, [0, 0, 0, 0, 1, 0]);
    let g = turn(&vec![full], &vec![]);
    assert_eq!(full.act(&g, &vec![], &none()), Some("MOVE 15 1 0".to_string()));
    let far = Tree::new(Fruit::Apple, 0, 5, 3, 4, 8, 0);
    let mut thief = poly(16, 0, 4, [0; 6]);
    thief.target(THIEF);
    let g = turn(&vec![thief], &vec![far]);
    assert_eq!(thief.act(&g, &vec![far], &none()), Some("MOVE 16 5 3".to_string()));
}

#[test]
fn planter_picks_then_plants_near_the_shack() {
    let stock = Inventory::new(0, 0, 2, 0, 0, 0);
    let mut picker = peasant(17, 1, 0, [0; 6]);
    picker.target(PLANT_APPLE);
    let g = turn(&vec![picker], &vec![]);
    assert!(picker.can_pick(&g.drop_positions, &stock));
    assert_eq!(picker.act(&g, &vec![], &stock), Some("PICK 17 APPLE".to_string()));
    let mut sower = peasant(18, 0, 1, [0, 0, 1, 0, 0, 0]);
    sower.target(PLANT_APPLE);
    let g = turn(&vec![sower], &vec![]);
    assert!(sower.can_plant(&g));
    assert_eq!(sower.act(&g, &vec![], &stock), Some("PLANT 18 APPLE".to_string()));
}

#[test]
fn planter_without_its_fruit_falls_back_to_harvesting() {
    let plum = Tree::new(Fruit::Plum, 2, 2, 0, 2, 4, 0);
    let mut t = peasant(19, 3, 3, [0; 6]);
    t.target(PLANT_APPLE);
    let g = turn(&vec![t], &vec![plum]);
    // No apple anywhere: it heads for the plum tree, still a planter.
    assert_eq!(t.act(&g, &vec![plum], &none()), Some("MOVE 19 2 0".to_string()));
    assert_eq!(t.objective, PLANT_APPLE);
    // Nothing bears at all: it becomes a harvester of any fruit, with nothing to do.
    let mut u = peasant(20, 3, 3, [0; 6]);
    u.target(PLANT_APPLE);
    let g = turn(&vec![u], &vec![]);
    assert_eq!(u.act(&g, &vec![], &none()), None);
    assert_eq!(u.objective, ANY);
}

#[test]
fn banana_tricks() {
    let mut full = poly(21, 3, 3, [0, 0, 0, 1, 0, 0]);
    full.target(BANANA_TRICKS);
    let g = turn(&vec![full], &vec![]);
    assert_eq!(full.act(&g, &vec![], &none()), Some("PLANT 21 BANANA".to_string()));
    let mut fetch = poly(22, 3, 3, [0; 6]);
    fetch.target(BANANA_TRICKS);
    let g = turn(&vec![fetch], &vec![]);
    let bananas = Inventory::new(0, 0, 0, 3, 0, 0);
    assert!(!fetch.can_pick_fruit(&g.drop_positions, &bananas, Fruit::Banana));
    assert_eq!(fetch.act(&g, &vec![], &bananas), Some("MOVE 22 1 0".to_string()));
    assert_eq!(fetch.objective, BANANA_TRICKS);
    // No banana in stock: it cuts everything.
    let tree = Tree::new(Fruit::Plum, 0, 2, 0, 1, 4, 0);
    assert_eq!(fetch.act(&g, &vec![tree], &none()), Some("MOVE 22 2 0".to_string()));
    assert_eq!(fetch.objective, CUT_ALL);
}
