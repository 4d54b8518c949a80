use troll_bot::astar::get_neigh;
use troll_bot::board::Grid;
use troll_bot::consts::{CUT_ALL, IRON, THIEF};
use troll_bot::fruit::{Fruit, Tree};
use troll_bot::input::parse_count;
use troll_bot::inventory::Inventory;
use troll_bot::strategy::{distant_strategy, near_strategy, GameStateDistant, GameStateNear};
use troll_bot::troll::{Troll, TrollType};
use troll_bot::util::manhattan_dist;

fn board() -> Grid {
    let rows: Vec<String> = ["0...#.", "......", "..+...", "......", ".....1"]
        .iter()
        .map(|r| r.to_string())
        .collect();
    Grid::new(&"6 5".to_string(), &rows)
}

#[test]
fn distance_is_symmetric_and_zero_only_in_place() {
    let ps = [(0, 0), (3, -2), (-7, 5), (3, -2)];
    for a in ps.iter() {
        for b in ps.iter() {
            assert_eq!(manhattan_dist(*a, *b), manhattan_dist(*b, *a));
            assert_eq!(manhattan_dist(*a, *b) == 0, a == b);
        }
    }
}

#[test]
fn the_last_objective_given_wins() {
    let t0 = Troll::new(4, 0, 1, 2, 1, 3, 1, 1, 1, 0, 0, 0, 0, 0);
    let mut t = t0;
    t.target(IRON);
    t.target(THIEF);
    assert_eq!(t.objective, THIEF);
    assert!(t.assigned);
    assert_eq!((t.id, t.player, t.x, t.y, t.charac, t.items, t.class), (t0.id, t0.player, t0.x, t0.y, t0.charac, t0.items, t0.class));
}

#[test]
fn fruits_and_roles_round_trip() {
    for f in [Fruit::Plum, Fruit::Lemon, Fruit::Apple, Fruit::Banana].iter() {
        assert_eq!(Fruit::from_usize(f.to_usize()), *f);
        assert_eq!(Fruit::from(&f.to_string()), *f);
    }
    for t in [TrollType::Poly, TrollType::Peasant, TrollType::Miner, TrollType::Choper, TrollType::Griefer].iter() {
        assert_eq!(TrollType::from_usize(t.to_usize()), *t);
    }
}

#[test]
fn phases_never_go_back() {
    let near = [GameStateNear::Start(false), GameStateNear::Start(true), GameStateNear::End];
    for s in near.iter() {
        let mut u = *s;
        u.update();
        assert!(i32::from(u) >= i32::from(*s));
        assert!(i32::from(u) <= i32::from(*s) + 1);
    }
    let distant = [
        GameStateDistant::Start(true, true),
        GameStateDistant::Early(false, true),
        GameStateDistant::Mid(true),
        GameStateDistant::End,
        GameStateDistant::CutAll,
    ];
    for s in distant.iter() {
        let mut u = *s;
        u.update();
        assert!(i32::from(u) >= i32::from(*s));
        assert!(i32::from(u) <= i32::from(*s) + 1);
    }
}

#[test]
fn strategies_only_hand_out_objectives_and_move_forward() {
    let g = board();
    let t = |id: i32, c: [i32; 4]| Troll::new(id, 0, 3, 3, c[0], c[1], c[2], c[3], 0, 1, 0, 0, 0, 0);
    let before = vec![t(0, [1, 1, 1, 1]), t(1, [2, 2, 0, 1]), t(2, [2, 4, 0, 3])];
    let mut trolls = before.clone();
    let mut s = GameStateDistant::Mid(true);
    let mut actions = vec![];
    distant_strategy(&Inventory::new(0, 0, 0, 0, 0, 0), &mut s, 100, &g, &mut trolls, &vec![], &mut actions);
    assert!(i32::from(s) >= i32::from(GameStateDistant::Mid(true)));
    assert_eq!(trolls.len(), before.len());
    for (a, b) in before.iter().zip(trolls.iter()) {
        assert_eq!((a.id, a.x, a.y, a.charac, a.items, a.class), (b.id, b.x, b.y, b.charac, b.items, b.class));
    }
    let mut trolls = before.clone();
    let mut n = GameStateNear::Start(true);
    near_strategy(&Inventory::new(0, 0, 0, 0, 0, 0), &mut n, 100, &g, &mut trolls, &vec![], &mut actions);
    assert_eq!(n, GameStateNear::End);
    for (a, b) in before.iter().zip(trolls.iter()) {
        assert_eq!((a.id, a.x, a.y, a.charac, a.items, a.class), (b.id, b.x, b.y, b.charac, b.items, b.class));
    }
}

#[test]
fn what_is_needed_fills_the_gap() {
    let inv = Inventory::new(3, 0, 7, 1, 2, 0);
    let target = [5, 1, 2, 1, 9, 0];
    let needs = inv.what_is_needed(target).unwrap();
    for k in 0..6 {
        assert!(needs[k] >= 0);
        assert!(inv.resources[k] + needs[k] >= target[k]);
        assert_eq!(needs[k], (target[k] - inv.resources[k]).max(0));
    }
    assert_eq!(inv.what_is_needed([3, 0, 7, 1, 2, 0]), None);
}

#[test]
fn numbers_written_in_commands_read_back() {
    let t = Troll::new(12, 0, 0, 0, 1, 1, 1, 1, 0, 0, 0, 0, 0, 0);
    for (x, y) in [(0, -7), (123, 45), (i32::MAX, i32::MIN), (-1, 1000000)].iter() {
        let cmd = t.go_to(*x, *y);
        let fields: Vec<String> = cmd.split(' ').map(|s| s.to_string()).collect();
        assert_eq!(fields[0], "MOVE");
        assert_eq!(parse_count(&fields[1]), Some(12));
        assert_eq!(parse_count(&fields[2]), Some(*x));
        assert_eq!(parse_count(&fields[3]), Some(*y));
    }
}

#[test]
fn orders_name_the_troll_and_change_at_most_its_objective() {
    let mut g = board();
    let tree = Tree::new(Fruit::Plum, 2, 2, 0, 4, 4, 0);
    let mut trolls = vec![
        Troll::new(31, 0, 2, 0, 1, 1, 1, 1, 0, 0, 0, 0, 0, 0),
        Troll::new(32, 0, 3, 3, 2, 2, 0, 1, 0, 0, 0, 0, 0, 0),
        Troll::new(33, 0, 4, 4, 2, 4, 0, 3, 0, 0, 0, 0, 0, 0),
    ];
    trolls[2].target(CUT_ALL);
    g.update_tiles(&trolls, &vec![], &vec![tree]);
    for t in trolls.iter() {
        let mut u = *t;
        if let Some(cmd) = u.act(&g, &vec![tree], &Inventory::new(0, 0, 0, 0, 0, 0)) {
            let words: Vec<&str> = cmd.split(' ').collect();
            assert_eq!(words[1], t.id.to_string());
        }
        assert_eq!((u.id, u.x, u.y, u.charac, u.items, u.class), (t.id, t.x, t.y, t.charac, t.items, t.class));
    }
}

#[test]
fn neighbours_are_exactly_the_positions_in_reach() {
    let pos = (2, -1);
    let n = get_neigh(pos, 3);
    for dx in -4..=4 {
        for dy in -4..=4 {
            let p = (pos.0 + dx, pos.1 + dy);
            let d = manhattan_dist(p, pos);
            assert_eq!(n.contains(&p), 1 <= d && d <= 3);
        }
    }
}

#[test]
fn commands_keep_the_rules() {
    let trees = vec![
        Tree::new(Fruit::Plum, 2, 1, 1, 4, 4, 0),
        Tree::new(Fruit::Lemon, 0, 3, 1, 4, 4, 0),
        Tree::new(Fruit::Apple, 1, 0, 2, 2, 4, 0),
    ];
    let mut seen_drop = false;
    let mut seen_harvest = false;
    let mut seen_chop = false;
    let mut seen_mine = false;
    for x in 0..6 {
        for y in 0..5 {
            let kinds = [
                Troll::new(40, 0, x, y, 2, 2, 2, 1, 0, 0, 0, 0, 0, 0),
                Troll::new(40, 0, x, y, 2, 2, 2, 1, 1, 0, 0, 0, 0, 0),
                Troll::new(40, 0, x, y, 2, 4, 0, 3, 0, 0, 0, 0, 0, 0),
                Troll::new(40, 0, x, y, 2, 2, 0, 1, 0, 0, 0, 0, 0, 0),
                Troll::new(40, 0, x, y, 2, 0, 0, 2, 0, 0, 0, 0, 0, 0),
            ];
            for t in kinds.iter() {
                let t = *t;
                let mut g = board();
                if !g.holds_all(&vec![t], &vec![], &trees) {
                    continue;
                }
                g.update_tiles(&vec![t], &vec![], &trees);
                let mut u = t;
                if let Some(cmd) = u.act(&g, &trees, &Inventory::new(0, 0, 0, 0, 0, 0)) {
                    if cmd.starts_with("DROP") {
                        seen_drop = true;
                        assert!(g.drop_positions.contains(&(x, y)));
                        assert!(t.total_carry() > 0);
                    }
                    if cmd.starts_with("HARVEST") {
                        seen_harvest = true;
                        assert!(g.tile_at((x, y)).get_tree().map_or(false, |tr| tr.nb_fruit > 0));
                    }
                    if cmd.starts_with("CHOP") {
                        seen_chop = true;
                        assert!(g.tile_at((x, y)).is_a_tree());
                    }
                    if cmd.starts_with("MINE") {
                        seen_mine = true;
                        assert_eq!((x, y), g.mine_position);
                    }
                }
            }
        }
    }
    assert!(seen_drop && seen_harvest && seen_chop && seen_mine);
}

#[test]
fn a_turn_moves_one_phase_and_trains_at_most_once() {
    let g = board();
    let t = |id: i32| Troll::new(id, 0, 3, 3, 1, 1, 1, 1, 0, 1, 0, 0, 0, 0);
    let mut trolls = vec![t(0), t(1)];
    trolls[1].target(THIEF);
    let mut s = GameStateDistant::Start(true, true);
    let mut actions = vec!["WAIT".to_string()];
    distant_strategy(&Inventory::new(50, 50, 50, 50, 50, 50), &mut s, 5, &g, &mut trolls, &vec![], &mut actions);
    let step = i32::from(s) - i32::from(GameStateDistant::Start(true, true));
    assert!(0 <= step && step <= 1);
    assert!(actions.len() == 1 || (actions.len() == 2 && actions[1].starts_with("TRAIN ")));
    assert_eq!(actions.len(), 2);
    assert!(trolls[1].assigned);
    let mut n = GameStateNear::Start(false);
    let mut actions = vec![];
    near_strategy(&Inventory::new(50, 50, 50, 50, 50, 50), &mut n, 5, &g, &mut trolls, &vec![], &mut actions);
    assert_eq!(actions.len(), 1);
    assert!(actions[0].starts_with("TRAIN "));
}

#[test]
fn full_means_no_room_left() {
    for items in [[0, 0, 0, 0, 0, 0], [1, 0, 1, 0, 0, 1], [0, 0, 0, 0, 2, 1]] {
        let t = Troll::new(1, 0, 0, 0, 1, 3, 1, 1, items[0], items[1], items[2], items[3], items[4], items[5]);
        let sum: i32 = items.iter().sum();
        assert_eq!(t.total_carry(), sum);
        assert_eq!(t.place_left(), 3 - sum);
        assert_eq!(t.is_full(), t.place_left() == 0);
        assert_eq!(t.empty(), sum == 0);
    }
}

#[test]
fn neighbours_are_listed_once_nearest_first() {
    for speed in 1..6 {
        let ns = get_neigh((4, -3), speed);
        assert_eq!(ns.len() as i32, 2 * speed * (speed + 1));
        for i in 0..ns.len() {
            for j in 0..ns.len() {
                if i != j {
                    assert_ne!(ns[i], ns[j]);
                }
                if i <= j {
                    assert!(manhattan_dist(ns[i], (4, -3)) <= manhattan_dist(ns[j], (4, -3)));
                }
            }
        }
    }
}
