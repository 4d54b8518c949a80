use troll_bot::board::Grid;
use troll_bot::fruit::{Fruit, Tree};
use troll_bot::grid::{Entity, Tile};
use troll_bot::troll::Troll;
use troll_bot::util::safe_push_positions;

// A 6 by 5 board: our shack in the top left corner, the enemy's in the bottom right, an
// iron mine in the middle, and rock at (4, 0).
fn board() -> Grid {
    let rows: Vec<String> = ["0...#.", "......", "..+...", "......", ".....1"]
        .iter()
        .map(|r| r.to_string())
        .collect();
    Grid::new(&"6 5".to_string(), &rows)
}

fn poly(id: i32, player: i32, x: i32, y: i32) -> Troll {
    Troll::new(id, player, x, y, 1, 1, 1, 1, 0, 0, 0, 0, 0, 0)
}

#[test]
fn the_board_is_read() {
    let g = board();
    assert_eq!(g.shack_position, (0, 0));
    assert_eq!(g.enemy_shack_position, (5, 4));
    assert_eq!(g.drop_positions, vec![(1, 0), (0, 1)]);
    // (1, 2) and (2, 1) are both two steps from a drop tile; (1, 2) comes first.
    assert_eq!(g.mine_position, (1, 2));
    assert_eq!(g.mine_dist, 2);
}

#[test]
fn tiles_from_characters() {
    assert!(matches!(Tile::from_char('.'), Tile::Grass(ref v) if v.is_empty()));
    assert!(matches!(Tile::from_char('0'), Tile::Shack(_)));
    assert!(matches!(Tile::from_char('1'), Tile::EnemyShack(_)));
    assert!(matches!(Tile::from_char('~'), Tile::Water));
    assert!(matches!(Tile::from_char('#'), Tile::Rock));
    assert!(matches!(Tile::from_char('+'), Tile::Iron));
}

#[test]
fn tiles_hold_trees_and_trolls() {
    let tree = Tree::new(Fruit::Lemon, 2, 1, 1, 3, 5, 0);
    let mut tile = Tile::from_char('.');
    assert!(tile.can_be_planted());
    assert!(tile.can_walk_through());
    assert!(!tile.is_a_tree());
    assert_eq!(tile.get_tree(), None);
    tile.push(Entity::from_troll(poly(1, 1, 1, 1)));
    assert!(tile.can_walk_through());
    tile.push(Entity::from_tree(tree));
    assert!(tile.is_a_tree());
    assert!(!tile.can_be_planted());
    assert_eq!(tile.get_tree(), Some(&tree));
    tile.push(Entity::from_troll(poly(2, 0, 1, 1)));
    assert!(!tile.can_walk_through());
    let copy = tile.duplicate();
    assert_eq!(copy.get_tree(), Some(&tree));
    assert!(!copy.can_walk_through());

    let mut shack = Tile::from_char('0');
    shack.push(Entity::from_troll(poly(3, 0, 0, 0)));
    assert!(!shack.is_a_tree());
    assert!(!shack.can_be_planted());
    assert!(!Tile::from_char('~').can_walk_through());
}

#[test]
fn entities_tell_our_trolls_from_the_enemy_s() {
    assert!(matches!(Entity::from_troll(poly(1, 0, 0, 0)), Entity::Troll(t) if t.id == 1));
    assert!(matches!(Entity::from_troll(poly(2, 1, 0, 0)), Entity::EnemyTroll(t) if t.id == 2));
    let tree = Tree::new(Fruit::Plum, 0, 0, 0, 1, 1, 0);
    assert!(matches!(Entity::from_tree(tree), Entity::Tree(t) if t == tree));
}

#[test]
fn positions_off_the_board_are_not_pushed() {
    let mut v = vec![(9, 9)];
    safe_push_positions(&vec![(1, 0), (-1, 0), (0, 3), (0, 2), (3, 1)], &mut v, 3, 2);
    assert_eq!(v, vec![(9, 9), (1, 0), (0, 2)]);
}

#[test]
fn the_turn_map_puts_trolls_and_trees_on_their_tiles() {
    let mut g = board();
    let plum = Tree::new(Fruit::Plum, 3, 2, 0, 2, 4, 0);
    let me = poly(1, 0, 3, 3);
    let foe = poly(2, 1, 2, 0);
    assert!(g.holds_all(&vec![me], &vec![foe], &vec![plum]));
    assert!(!g.holds_all(&vec![poly(3, 0, 6, 0)], &vec![], &vec![]));
    assert!(!g.holds_all(&vec![], &vec![], &vec![Tree::new(Fruit::Plum, 0, 2, 2, 1, 1, 0)]));
    assert!(g.holds_all(&vec![poly(4, 0, 0, 0)], &vec![], &vec![]));
    g.update_tiles(&vec![me], &vec![foe], &vec![plum]);
    assert_eq!(g.tile_at((2, 0)).get_tree(), Some(&plum));
    assert!(g.tile_at((2, 0)).can_walk_through());
    assert!(!g.tile_at((3, 3)).can_walk_through());
    assert!(g.is_on_tree(&foe));
    assert!(!g.is_on_tree(&me));
    // The next turn starts again from the map as read.
    g.update_tiles(&vec![], &vec![], &vec![]);
    assert_eq!(g.tile_at((2, 0)).get_tree(), None);
    assert!(g.tile_at((3, 3)).can_walk_through());
}

#[test]
fn the_area_round_the_shack_goes_column_by_column() {
    let g = board();
    assert_eq!(g.get_shack_area_iter(1), vec![(0, 0), (0, 1), (1, 0)]);
    assert_eq!(g.get_shack_area_iter(0), vec![(0, 0)]);
    assert_eq!(
        g.get_shack_area_iter(2),
        vec![(0, 0), (0, 1), (0, 2), (1, 0), (1, 1), (2, 0)]
    );
}

#[test]
fn trees_near_the_shack_are_counted_by_fruit() {
    let mut g = board();
    let trees = vec![
        Tree::new(Fruit::Plum, 3, 2, 0, 2, 4, 0),
        Tree::new(Fruit::Lemon, 0, 1, 1, 4, 8, 0),
        Tree::new(Fruit::Apple, 1, 4, 4, 1, 2, 0),
    ];
    g.update_tiles(&vec![], &vec![], &trees);
    assert_eq!(g.tree_census(4), [1, 1, 0, 0]);
    assert_eq!(g.tree_census(8), [1, 1, 1, 0]);
    assert_eq!(g.tree_census(1), [0, 0, 0, 0]);
    assert_eq!(g.plants_need(4, [2, 2, 2, 1]), [1, 1, 2, 1]);
    assert_eq!(g.plants_need(4, [1, 0, 0, 0]), [0, 0, 0, 0]);
    // The need of the greatest fruit index wins.
    assert_eq!(g.plant_need(4, [2, 2, 2, 1]), Some(3));
    assert_eq!(g.plant_need(4, [2, 2, 2, 0]), Some(2));
    assert_eq!(g.plant_need(4, [1, 1, 0, 0]), None);
}

#[test]
fn the_nearest_free_spot_to_plant() {
    let mut g = board();
    assert_eq!(g.nearest_empty_place_to_plant(3), Some((0, 1)));
    g.update_tiles(&vec![poly(1, 0, 0, 1)], &vec![], &vec![]);
    assert_eq!(g.nearest_empty_place_to_plant(3), Some((1, 0)));
    g.update_tiles(
        &vec![poly(1, 0, 0, 1)],
        &vec![poly(2, 1, 1, 0)],
        &vec![Tree::new(Fruit::Plum, 0, 1, 0, 1, 1, 0)],
    );
    assert_eq!(g.nearest_empty_place_to_plant(3), Some((0, 2)));
    assert_eq!(g.nearest_empty_place_to_plant(0), None);
}

#[test]
fn trees_to_destroy_near_the_enemy() {
    let mut g = board();
    let near_home = Tree::new(Fruit::Plum, 0, 1, 1, 4, 8, 0);
    let mid = Tree::new(Fruit::Lemon, 0, 3, 2, 4, 8, 0);
    let far = Tree::new(Fruit::Apple, 0, 5, 3, 4, 8, 0);
    let trees = vec![near_home, mid, far];
    g.update_tiles(&vec![poly(1, 0, 5, 3)], &vec![], &trees);
    // Our troll stands on the tree closest to the enemy shack: the next one is chosen.
    assert_eq!(g.tree_to_grief(&trees), Some((3, 2)));
    assert_eq!(g.tree_to_grief_ignore_walk_through(&trees), Some((5, 3)));
    // Trees within three steps of our shack are spared.
    assert_eq!(g.tree_to_grief(&vec![near_home]), None);
    assert_eq!(g.tree_to_grief_ignore_walk_through(&vec![]), None);
}

#[test]
fn closest_trees_to_cut() {
    let mut g = board();
    let small = Tree::new(Fruit::Plum, 0, 1, 2, 1, 8, 0);
    let big = Tree::new(Fruit::Lemon, 0, 3, 3, 4, 8, 0);
    let big_far = Tree::new(Fruit::Plum, 0, 5, 3, 4, 8, 0);
    let trees = vec![small, big, big_far];
    g.update_tiles(&vec![], &vec![], &trees);
    assert_eq!(g.find_shorter_available_tree_to_cut((1, 1), &trees, 1), Some((1, &small)));
    assert_eq!(g.find_shorter_available_tree_to_cut((1, 1), &trees, 4), Some((4, &big)));
    assert_eq!(g.find_shorter_available_fruit_to_cut((1, 1), &trees, Fruit::Plum, 4), Some((6, &big_far)));
    assert_eq!(g.find_shorter_available_fruit_to_cut((1, 1), &trees, Fruit::Apple, 1), None);
    // A tile one of our trolls stands on is not walkable.
    g.update_tiles(&vec![poly(1, 0, 3, 3)], &vec![], &trees);
    assert_eq!(g.find_shorter_available_tree_to_cut((1, 1), &trees, 4), Some((6, &big_far)));
}
