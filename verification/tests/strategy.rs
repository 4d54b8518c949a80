use troll_bot::board::Grid;
use troll_bot::consts::{ANY, BANANA_TRICKS, CUT_ALL, DISTANT, IRON, LEMON, NEAR, PLANT_APPLE, PLANT_BANANA, PLUM, THIEF, THIEF_NO_WASTE};
use troll_bot::fruit::{Fruit, Tree};
use troll_bot::guard::{fits_turn, try_play_round};
use troll_bot::inventory::{ask_for_resources, Inventory};
use troll_bot::round::{join_actions, map_type, play_round, sort_trolls};
use troll_bot::strategy::{distant_strategy, near_strategy, GameStateDistant, GameStateNear};
use troll_bot::troll::Troll;

fn distant_board() -> Grid {
    let rows: Vec<String> = ["0...#.", "......", "..+...", "......", ".....1"]
        .iter()
        .map(|r| r.to_string())
        .collect();
    Grid::new(&"6 5".to_string(), &rows)
}

fn near_board() -> Grid {
    let rows: Vec<String> = ["0.1+", "...."].iter().map(|r| r.to_string()).collect();
    Grid::new(&"4 2".to_string(), &rows)
}

fn poly(id: i32, x: i32, y: i32) -> Troll {
    Troll::new(id, 0, x, y, 1, 1, 1, 1, 0, 0, 0, 0, 0, 0)
}

fn peasant(id: i32, x: i32, y: i32) -> Troll {
    Troll::new(id, 0, x, y, 2, 2, 2, 1, 0, 0, 0, 0, 0, 0)
}

fn miner(id: i32, x: i32, y: i32) -> Troll {
    Troll::new(id, 0, x, y, 2, 2, 0, 1, 0, 0, 0, 0, 0, 0)
}

fn choper(id: i32, x: i32, y: i32) -> Troll {
    Troll::new(id, 0, x, y, 2, 4, 0, 3, 0, 0, 0, 0, 0, 0)
}

fn objectives(trolls: &Vec<Troll>) -> Vec<usize> {
    trolls.iter().map(|t| t.objective).collect()
}

#[test]
fn the_stock_tells_what_is_missing() {
    let inv = Inventory::new(1, 2, 3, 4, 5, 6);
    assert_eq!(inv.what_is_needed([2, 2, 0, 0, 7, 0]), Some([1, 0, 0, 0, 2, 0]));
    assert_eq!(inv.what_is_needed([1, 1, 1, 1, 1, 1]), None);
    assert_eq!(inv.what_is_needed([1, 2, 3, 4, 5, 6]), None);
}

#[test]
fn missing_iron_sends_the_polyvalent_trolls_mining() {
    let mut trolls = vec![poly(0, 0, 0), peasant(1, 0, 0), peasant(2, 0, 0)];
    ask_for_resources(&mut trolls, [3, 0, 0, 0, 5, 0]);
    assert_eq!(objectives(&trolls), vec![IRON, PLUM, PLUM]);
    assert!(trolls.iter().all(|t| t.assigned));
}

#[test]
fn missing_fruit_is_asked_until_the_hands_suffice() {
    let mut trolls = vec![poly(0, 0, 0), peasant(1, 0, 0), poly(2, 0, 0), miner(3, 0, 0)];
    ask_for_resources(&mut trolls, [1, 2, 0, 0, 0, 0]);
    assert_eq!(objectives(&trolls), vec![PLUM, LEMON, ANY, IRON]);
    assert_eq!(trolls.iter().map(|t| t.assigned).collect::<Vec<_>>(), vec![true, true, false, false]);
}

#[test]
fn training_is_ordered_when_the_stock_covers_it() {
    let mut trolls = vec![poly(0, 0, 0)];
    let inv = Inventory::new(2, 5, 0, 0, 5, 0);
    assert_eq!(inv.train_asked([2, 2, 0, 2], [2, 5, 0, 0, 5, 0], &mut trolls), Some("TRAIN 2 2 0 2".to_string()));
    assert!(!trolls[0].assigned);
    let poor = Inventory::new(0, 0, 0, 0, 0, 0);
    assert_eq!(poor.train_asked([2, 2, 0, 2], [2, 5, 0, 0, 5, 0], &mut trolls), None);
    assert_eq!(trolls[0].objective, IRON);
}

#[test]
fn near_phases() {
    assert_eq!(GameStateNear::from(0), GameStateNear::Start(false));
    assert_eq!(GameStateNear::from(1), GameStateNear::End);
    assert_eq!(i32::from(GameStateNear::Start(true)), 0);
    assert_eq!(i32::from(GameStateNear::End), 1);
    let mut s = GameStateNear::Start(false);
    s.update();
    assert_eq!(s, GameStateNear::Start(false));
    let mut s = GameStateNear::Start(true);
    s.update();
    assert_eq!(s, GameStateNear::End);
    s.update();
    assert_eq!(s, GameStateNear::End);
    let mut s = GameStateNear::Start(false);
    s.upgrade();
    assert_eq!(s, GameStateNear::End);
}

#[test]
fn distant_phases() {
    let all = [
        GameStateDistant::Start(false, false),
        GameStateDistant::Early(false, false),
        GameStateDistant::Mid(false),
        GameStateDistant::End,
        GameStateDistant::CutAll,
    ];
    for (n, s) in all.iter().enumerate() {
        assert_eq!(GameStateDistant::from(n as i32), *s);
        assert_eq!(i32::from(*s), n as i32);
    }
    let cases = [
        (GameStateDistant::Start(true, false), GameStateDistant::Start(true, false)),
        (GameStateDistant::Start(true, true), GameStateDistant::Early(false, false)),
        (GameStateDistant::Early(true, false), GameStateDistant::Early(true, false)),
        (GameStateDistant::Early(true, true), GameStateDistant::Mid(false)),
        (GameStateDistant::Mid(true), GameStateDistant::End),
        (GameStateDistant::End, GameStateDistant::End),
        (GameStateDistant::CutAll, GameStateDistant::CutAll),
    ];
    for (before, after) in cases.iter() {
        let mut s = *before;
        s.update();
        assert_eq!(s, *after);
    }
    let mut s = GameStateDistant::Start(true, false);
    s.upgrade();
    assert_eq!(s, GameStateDistant::Early(false, false));
    let mut s = GameStateDistant::End;
    s.upgrade();
    assert_eq!(s, GameStateDistant::CutAll);
}

#[test]
fn near_strategy_trains_a_choper_then_sends_everyone_stealing() {
    let g = near_board();
    let inv = Inventory::new(2, 5, 0, 0, 5, 0);
    let mut state = GameStateNear::Start(false);
    let mut trolls = vec![poly(0, 1, 1), choper(1, 2, 1)];
    let mut actions = vec!["MOVE 9 0 0".to_string()];
    near_strategy(&inv, &mut state, 3, &g, &mut trolls, &vec![], &mut actions);
    assert_eq!(actions, vec!["MOVE 9 0 0".to_string(), "TRAIN 2 2 0 2".to_string()]);
    assert_eq!(state, GameStateNear::Start(true));
    let mut actions = vec![];
    near_strategy(&inv, &mut state, 4, &g, &mut trolls, &vec![], &mut actions);
    assert!(actions.is_empty());
    assert_eq!(state, GameStateNear::End);
    assert_eq!(objectives(&trolls), vec![BANANA_TRICKS, THIEF_NO_WASTE]);
}

#[test]
fn near_strategy_asks_for_what_training_lacks() {
    let g = near_board();
    let mut state = GameStateNear::Start(false);
    let mut trolls = vec![poly(0, 1, 1)];
    let mut actions = vec![];
    near_strategy(&Inventory::new(0, 0, 0, 0, 0, 0), &mut state, 1, &g, &mut trolls, &vec![], &mut actions);
    assert!(actions.is_empty());
    assert_eq!(state, GameStateNear::Start(false));
    assert_eq!(objectives(&trolls), vec![IRON]);
}

#[test]
fn distant_strategy_cuts_everything_on_round_280() {
    let g = distant_board();
    let mut state = GameStateDistant::Early(true, false);
    let mut trolls = vec![poly(0, 1, 1), miner(1, 2, 1), peasant(2, 3, 3)];
    let mut actions = vec![];
    distant_strategy(&Inventory::new(0, 0, 0, 0, 0, 0), &mut state, 280, &g, &mut trolls, &vec![], &mut actions);
    assert_eq!(state, GameStateDistant::CutAll);
    assert!(actions.is_empty());
    assert_eq!(objectives(&trolls), vec![CUT_ALL, CUT_ALL, CUT_ALL]);
}

#[test]
fn distant_strategy_end_sends_polyvalent_trolls_and_miners_stealing() {
    let g = distant_board();
    let mut state = GameStateDistant::End;
    let mut trolls = vec![poly(0, 1, 1), miner(1, 2, 1), peasant(2, 3, 3)];
    let mut actions = vec![];
    distant_strategy(&Inventory::new(0, 0, 0, 0, 0, 0), &mut state, 200, &g, &mut trolls, &vec![], &mut actions);
    assert_eq!(state, GameStateDistant::End);
    assert_eq!(objectives(&trolls), vec![THIEF, THIEF, ANY]);
}

#[test]
fn distant_strategy_trains_a_peasant_then_plants() {
    let g = distant_board();
    let mut state = GameStateDistant::Start(false, false);
    let mut trolls = vec![poly(0, 1, 1)];
    let mut actions = vec![];
    // With one troll, a peasant costs 5 plums, 5 lemons, 5 apples and 2 iron.
    distant_strategy(&Inventory::new(5, 5, 5, 0, 2, 0), &mut state, 1, &g, &mut trolls, &vec![], &mut actions);
    assert_eq!(actions, vec!["TRAIN 2 2 2 1".to_string()]);
    assert_eq!(state, GameStateDistant::Start(true, false));
    assert_eq!(objectives(&trolls), vec![ANY]);
    // Then trees get planted: two of each fruit but one banana, round the shack.
    let mut trolls = vec![poly(0, 1, 1), peasant(1, 3, 3)];
    let mut actions = vec![];
    distant_strategy(&Inventory::new(0, 0, 0, 0, 0, 0), &mut state, 2, &g, &mut trolls, &vec![], &mut actions);
    assert!(actions.is_empty());
    assert_eq!(state, GameStateDistant::Start(true, false));
    assert_eq!(objectives(&trolls), vec![PLANT_BANANA, PLANT_APPLE]);
}

#[test]
fn turns_are_answered_by_joined_commands() {
    assert_eq!(join_actions(&vec![]), "WAIT");
    assert_eq!(join_actions(&vec!["CHOP 4".to_string()]), "CHOP 4");
    assert_eq!(
        join_actions(&vec!["MOVE 1 2 3".to_string(), "CHOP 4".to_string(), "DROP 5".to_string()]),
        "MOVE 1 2 3;CHOP 4;DROP 5"
    );
}

#[test]
fn a_turn_on_a_distant_map() {
    let mut g = distant_board();
    assert_eq!(map_type(&g), DISTANT);
    let small = Tree::new(Fruit::Plum, 0, 3, 2, 2, 4, 0);
    let young = Tree::new(Fruit::Apple, 0, 4, 4, 1, 4, 0);
    let trees = vec![small, young];
    let trolls = vec![poly(0, 3, 3), miner(1, 3, 2)];
    assert!(g.holds_all(&trolls, &vec![], &trees));
    g.update_tiles(&trolls, &vec![], &trees);
    let mut near = GameStateNear::Start(false);
    let mut distant = GameStateDistant::Mid(false);
    let inv = Inventory::new(0, 0, 0, 0, 0, 0);
    let line = play_round(DISTANT, &mut near, &mut distant, 280, &g, &inv, trolls, &trees);
    assert_eq!(line, "MOVE 0 4 4;CHOP 1");
    assert_eq!(distant, GameStateDistant::CutAll);
    assert_eq!(near, GameStateNear::Start(false));
}

#[test]
fn a_turn_on_a_near_map() {
    let g = near_board();
    assert_eq!(map_type(&g), NEAR);
    let mut near = GameStateNear::Start(false);
    let mut distant = GameStateDistant::Start(false, false);
    let none = Inventory::new(0, 0, 0, 0, 0, 0);
    assert_eq!(play_round(NEAR, &mut near, &mut distant, 1, &g, &none, vec![], &vec![]), "WAIT");
    assert_eq!(near, GameStateNear::Start(false));
    let rich = Inventory::new(2, 5, 0, 0, 5, 0);
    let line = play_round(NEAR, &mut near, &mut distant, 2, &g, &rich, vec![poly(0, 3, 1)], &vec![]);
    assert_eq!(line, "TRAIN 2 2 0 2");
    assert_eq!(near, GameStateNear::Start(true));
    assert_eq!(distant, GameStateDistant::Start(false, false));
}

#[test]
fn trolls_are_parted_by_owner_and_sorted_by_id() {
    let t = |id: i32, player: i32, x: i32| Troll::new(id, player, x, 0, 1, 1, 1, 1, 0, 0, 0, 0, 0, 0);
    let all = vec![t(5, 0, 0), t(2, 1, 1), t(1, 0, 2), t(3, 0, 3), t(2, 1, 4), t(3, 0, 5)];
    let (mine, theirs) = sort_trolls(&all);
    assert_eq!(mine.iter().map(|t| (t.id, t.x)).collect::<Vec<_>>(), vec![(1, 2), (3, 3), (3, 5), (5, 0)]);
    assert_eq!(theirs.iter().map(|t| (t.id, t.x)).collect::<Vec<_>>(), vec![(2, 1), (2, 4)]);
    let (none, also_none) = sort_trolls(&vec![]);
    assert!(none.is_empty() && also_none.is_empty());
}

#[test]
fn turns_out_of_bounds_are_refused() {
    let g = near_board();
    assert!(g.is_well_formed());
    let none = Inventory::new(0, 0, 0, 0, 0, 0);
    let trolls = vec![poly(0, 3, 1)];
    assert!(fits_turn(NEAR, GameStateNear::Start(false), &g, &none, &trolls, &vec![]));
    assert!(!fits_turn(7, GameStateNear::Start(false), &g, &none, &trolls, &vec![]));
    // A troll off the board, a tree off the board, too large a stock.
    assert!(!fits_turn(NEAR, GameStateNear::Start(false), &g, &none, &vec![poly(0, 4, 1)], &vec![]));
    let stray = Tree::new(Fruit::Plum, 0, 0, 2, 1, 1, 0);
    assert!(!fits_turn(NEAR, GameStateNear::Start(false), &g, &none, &trolls, &vec![stray]));
    // A stock so large that eight times it, times two more than the trolls, leaves i32.
    let huge = Inventory::new(0, 0, 0, 0, 100_000_000, 0);
    assert!(!fits_turn(NEAR, GameStateNear::Start(false), &g, &huge, &trolls, &vec![]));
    let large = Inventory::new(0, 0, 0, 0, 80_000_000, 0);
    assert!(fits_turn(NEAR, GameStateNear::Start(false), &g, &large, &trolls, &vec![]));
    assert!(!fits_turn(NEAR, GameStateNear::Start(false), &g, &large, &vec![poly(0, 3, 1), poly(1, 3, 1)], &vec![]));
    // Carrying more than it can, or a negative count, is played.
    let overloaded = Troll::new(1, 0, 0, 1, 1, 1, 1, 1, 2, 0, 0, 0, 0, 0);
    assert!(fits_turn(NEAR, GameStateNear::Start(false), &g, &none, &vec![overloaded], &vec![]));
    let owing = Troll::new(1, 0, 0, 1, 1, 1, 1, 1, -3, 0, 0, 0, 0, 0);
    assert!(fits_turn(NEAR, GameStateNear::Start(false), &g, &none, &vec![owing], &vec![]));
    // More than a thousand trolls with small amounts.
    let crowd: Vec<Troll> = (0..1100).map(|i| poly(i, 3, 1)).collect();
    assert!(fits_turn(DISTANT, GameStateNear::Start(false), &g, &none, &crowd, &vec![]));
    // An objective its role cannot pursue.
    let mut lost = choper(2, 1, 1);
    lost.target(IRON);
    assert!(!fits_turn(NEAR, GameStateNear::Start(false), &g, &none, &vec![lost], &vec![]));
    // A peasant at the end of a game with close shacks.
    let p = peasant(3, 1, 1);
    assert!(fits_turn(NEAR, GameStateNear::Start(false), &g, &none, &vec![p], &vec![]));
    assert!(!fits_turn(NEAR, GameStateNear::Start(true), &g, &none, &vec![p], &vec![]));
    assert!(fits_turn(DISTANT, GameStateNear::Start(true), &g, &none, &vec![p], &vec![]));

    let mut near = GameStateNear::Start(true);
    let mut distant = GameStateDistant::Start(false, false);
    assert_eq!(try_play_round(NEAR, &mut near, &mut distant, 5, &g, &none, vec![p], &vec![]), None);
    assert_eq!(near, GameStateNear::Start(true));
    let line = try_play_round(NEAR, &mut near, &mut distant, 5, &g, &none, vec![poly(0, 3, 1)], &vec![]);
    assert_eq!(line, Some("WAIT".to_string()));
    assert_eq!(near, GameStateNear::End);
}
