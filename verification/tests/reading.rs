use troll_bot::board::Grid;
use troll_bot::consts::{ANY, DISTANT, NEAR};
use troll_bot::fruit::{Fruit, Tree};
use troll_bot::input::{int_line_valid, parse_count, tree_line_valid};
use troll_bot::inventory::Inventory;
use troll_bot::mapread::{map_size, map_valid};
use troll_bot::round::map_type;
use troll_bot::troll::{Troll, TrollType};

fn lines(rows: &[&str]) -> Vec<String> {
    rows.iter().map(|r| r.to_string()).collect()
}

#[test]
fn tree_line_is_read_field_by_field() {
    let t = Tree::from(&"APPLE 3 1 2 5 4 0\n".to_string());
    assert_eq!(t, Tree::new(Fruit::Apple, 4, 3, 1, 2, 5, 0));
    assert_eq!(t.nb_fruit, 4);
    assert_eq!(t.size, 2);
    assert_eq!(t.health, 5);
    let t = Tree::from(&"BANANA -1 7 4 12 0 3".to_string());
    assert_eq!(t, Tree::new(Fruit::Banana, 0, -1, 7, 4, 12, 3));
}

#[test]
fn troll_line_is_read_and_classed() {
    let t = Troll::from(&"3 0 2 1 1 1 1 1 0 2 0 0 0 0\n".to_string());
    assert_eq!((t.id, t.player, t.x, t.y), (3, 0, 2, 1));
    assert_eq!(t.charac, [1, 1, 1, 1]);
    assert_eq!(t.items, [0, 2, 0, 0, 0, 0]);
    assert_eq!(t.class, TrollType::Poly);
    assert_eq!(t.objective, ANY);
    assert!(!t.assigned);
    let m = Troll::from(&"9 1 0 4 2 2 0 1 0 0 0 0 3 0".to_string());
    assert_eq!(m.class, TrollType::Miner);
    assert_eq!(m.player, 1);
    assert_eq!(m.items[4], 3);
}

#[test]
fn stock_line_is_read() {
    let inv = Inventory::from(&"10 0 3 1 7 2\n".to_string());
    assert_eq!(inv.resources, [10, 0, 3, 1, 7, 2]);
}

#[test]
fn counts_are_read_like_str_parse() {
    assert_eq!(parse_count(&"12\n".to_string()), Some(12));
    assert_eq!(parse_count(&" -3 ".to_string()), Some(-3));
    assert_eq!(parse_count(&"+5".to_string()), Some(5));
    assert_eq!(parse_count(&"2147483647".to_string()), Some(i32::MAX));
    assert_eq!(parse_count(&"-2147483648".to_string()), Some(i32::MIN));
    assert_eq!(parse_count(&"2147483648".to_string()), None);
    assert_eq!(parse_count(&"".to_string()), None);
    assert_eq!(parse_count(&"-".to_string()), None);
    assert_eq!(parse_count(&"1 2".to_string()), None);
    assert_eq!(parse_count(&"x7".to_string()), None);
}

#[test]
fn line_checks_tell_readable_lines() {
    assert!(int_line_valid(&"1 2 3 4 5 6\n".to_string(), 6));
    assert!(int_line_valid(&"1 2 3 4 5 6 7".to_string(), 6));
    assert!(!int_line_valid(&"1 2 3 4 5".to_string(), 6));
    assert!(!int_line_valid(&"1 2 x 4 5 6".to_string(), 6));
    assert!(!int_line_valid(&"1  2 3 4 5 6".to_string(), 6));
    assert!(tree_line_valid(&"BANANA 1 2 3 4 5 6\n".to_string()));
    assert!(!tree_line_valid(&"KIWI 1 2 3 4 5 6".to_string()));
    assert!(!tree_line_valid(&"PLUM 1 2 3".to_string()));
    assert!(!tree_line_valid(&"PLUM 1 2 3 4 5 z".to_string()));
}

#[test]
fn header_gives_the_size() {
    assert_eq!(map_size(&"5 4\n".to_string()), Some((5, 4)));
    assert_eq!(map_size(&"12 7 9".to_string()), Some((12, 7)));
    assert_eq!(map_size(&"5".to_string()), None);
    assert_eq!(map_size(&"a b".to_string()), None);
}

#[test]
fn distant_map_is_read() {
    let header = "5 4\n".to_string();
    let rows = lines(&["0..~.\n", "..#..\n", "..+..\n", "....1\n"]);
    assert!(map_valid(&header, &rows));
    let g = Grid::new(&header, &rows);
    assert_eq!((g.width, g.height), (5, 4));
    assert_eq!(g.shack_position, (0, 0));
    assert_eq!(g.enemy_shack_position, (4, 3));
    assert_eq!(g.drop_positions, vec![(1, 0), (0, 1)]);
    assert_eq!(g.mine_position, (1, 2));
    assert_eq!(g.mine_dist, 2);
    assert_eq!(map_type(&g), DISTANT);
}

#[test]
fn near_map_is_read() {
    let header = "4 2".to_string();
    let rows = lines(&["0.1+", "...."]);
    assert!(map_valid(&header, &rows));
    let g = Grid::new(&header, &rows);
    assert_eq!(g.drop_positions, vec![(1, 0), (0, 1)]);
    assert_eq!(g.mine_position, (3, 1));
    assert_eq!(g.mine_dist, 3);
    assert_eq!(map_type(&g), NEAR);
}

#[test]
fn only_grass_tiles_serve_as_drop_or_mine_tiles() {
    // Water beside our shack, rock above and below the mine.
    let header = "5 3".to_string();
    let rows = lines(&["~##..", "0.+.1", "~##.."]);
    assert!(map_valid(&header, &rows));
    let g = Grid::new(&header, &rows);
    assert_eq!(g.shack_position, (0, 1));
    assert_eq!(g.drop_positions, vec![(1, 1)]);
    assert_eq!(g.mine_position, (1, 1));
    assert_eq!(g.mine_dist, 0);
    assert_eq!(map_type(&g), NEAR);
}

#[test]
fn malformed_maps_are_told() {
    let good = lines(&["0..~.", "..#..", "..+..", "....1"]);
    assert!(!map_valid(&"5".to_string(), &good));
    assert!(!map_valid(&"6 4".to_string(), &good));
    assert!(!map_valid(&"5 3".to_string(), &good));
    assert!(!map_valid(&"0 0".to_string(), &Vec::new()));
    let bad_char = lines(&["0..x.", "..#..", "..+..", "....1"]);
    assert!(!map_valid(&"5 4".to_string(), &bad_char));
    let no_mine = lines(&["0..~.", "..#..", ".....", "....1"]);
    assert!(!map_valid(&"5 4".to_string(), &no_mine));
    let closed_shack = lines(&["0#", "#+", ".."]);
    assert!(!map_valid(&"2 3".to_string(), &closed_shack));
}

#[test]
fn longer_rows_are_read_up_to_the_width() {
    let header = "4 2".to_string();
    let rows = lines(&["0.1+~~1", "....0x"]);
    assert!(map_valid(&header, &rows));
    let g = Grid::new(&header, &rows);
    assert_eq!((g.width, g.height), (4, 2));
    assert_eq!(g.shack_position, (0, 0));
    assert_eq!(g.enemy_shack_position, (2, 0));
    assert_eq!(g.drop_positions, vec![(1, 0), (0, 1)]);
    assert_eq!(g.mine_position, (3, 1));
    assert_eq!(g.grid.len(), 2);
    assert!(g.grid.iter().all(|r| r.len() == 4));
    let short = lines(&["0.1", "...."]);
    assert!(!map_valid(&header, &short));
}
