use vstd::prelude::*;
use crate::consts::{DISTANT, NEAR, CAPA, APPLE, BANANA, IRON, ANY, PLANT_PLUM, PLANT_BANANA, CHOP_ANY, CUT_ALL, THIEF,
    THIEF_NO_WASTE, BANANA_TRICKS};
use crate::fruit::Tree;
use crate::troll::{Troll, TrollType, prefix_sum};
use crate::board::Grid;
use crate::fruit::fruit_of;
use crate::inventory::{Inventory, targeted, fetcher, settle, distribute, distribute_ok, send_to_mine, asked};
use crate::planning::{mark_empty, mark_empty_ok, mark_carriers, mark_all, plant_rounds, plant_rounds_ok, carried_sum,
    carried_sum_ok, idle_planter};
use crate::strategy::{GameStateNear, GameStateDistant, near_step, near_updated, near_charac, near_cost,
    distant_step, distant_phase, train_or_ask, train_ok, plants_ok, cost_seq, cost_ok, early_role, miners_to_thieves,
    near_ok, distant_ok, of_classes};
use crate::laws::{same_but_task, reassigned, law_strategies_only_reassign, lemma_plant_rounds, lemma_mark_carriers,
    lemma_asked, lemma_train_or_ask, lemma_map_reassigned, lemma_bananas};
use crate::round::{round_ok, strategy_out, round_answer, play_round};
use crate::troll::{need_of, point_cost};
use crate::tactics::{TreeFilter, closest_ok};
use crate::util::{abs, dist_ok, lemma_dist_on_board};

verus! {

/// `v` lies within `bd` of zero, either way.
pub open spec fn within(v: int, bd: int) -> bool {
    -bd <= v <= bd
}

/// A bound `bd` on the amounts of a turn with `n` trolls under which every sum the turn makes
/// stays in `i32`: the training costs, which grow with the trolls, lie within it, and eight
/// times it, times two more than the trolls, fits in `i32` (what a troll carries and its room
/// stay within `7 * bd`, what the trolls are still asked for within `2 * bd + 7 * bd * n`, and
/// what they carry of one fruit within `bd * n`).
pub open spec fn budget_ok(bd: int, n: int) -> bool {
    &&& 0 <= n
    &&& n + 16 <= bd
    &&& 8 * bd * (n + 2) <= i32::MAX
}

/// The larger of two numbers.
pub open spec fn larger(a: int, b: int) -> int {
    if a >= b { a } else { b }
}

/// The largest size among the first `k` entries of `s`, zero where there is none.
pub open spec fn abs_max(s: Seq<i32>, k: int) -> int
    decreases k,
{
    if k <= 0 {
        0
    } else {
        larger(abs_max(s, k - 1), abs(s[k - 1] as int))
    }
}

/// The largest size of a characteristic or an item among the first `k` trolls.
pub open spec fn trolls_max(ts: Seq<Troll>, k: int) -> int
    decreases k,
{
    if k <= 0 {
        0
    } else {
        larger(trolls_max(ts, k - 1), larger(abs_max(ts[k - 1].charac@, 4), abs_max(ts[k - 1].items@, 6)))
    }
}

/// The bound on a turn's amounts: the largest size of a resource of the stock, a troll's
/// characteristic or item, and, for the training costs, the number of trolls plus 16.
pub open spec fn turn_bound(inventory: Inventory, ts: Seq<Troll>) -> int {
    larger(ts.len() as int + 16, larger(abs_max(inventory.resources@, 6), trolls_max(ts, ts.len() as int)))
}

proof fn lemma_abs_max(s: Seq<i32>, k: int)
    requires
        0 <= k <= s.len(),
    ensures
        0 <= abs_max(s, k) <= 0x8000_0000,
        forall|j: int| 0 <= j < k ==> abs(#[trigger] s[j] as int) <= abs_max(s, k),
    decreases k,
{
    if k > 0 {
        lemma_abs_max(s, k - 1);
    }
}

proof fn lemma_trolls_max(ts: Seq<Troll>, k: int)
    requires
        0 <= k <= ts.len(),
    ensures
        0 <= trolls_max(ts, k) <= 0x8000_0000,
        forall|j: int| 0 <= j < k ==> abs_max((#[trigger] ts[j]).charac@, 4) <= trolls_max(ts, k)
            && abs_max(ts[j].items@, 6) <= trolls_max(ts, k),
    decreases k,
{
    if k > 0 {
        lemma_trolls_max(ts, k - 1);
        lemma_abs_max(ts[k - 1].charac@, 4);
        lemma_abs_max(ts[k - 1].items@, 6);
    }
}

/// The objectives the strategies give a troll of each role, and that it can pursue.
pub open spec fn suits(class: TrollType, o: usize) -> bool {
    match class {
        TrollType::Poly => o <= APPLE || o == IRON || o == ANY || (PLANT_PLUM <= o <= PLANT_BANANA)
            || o == CUT_ALL || o == THIEF || o == BANANA_TRICKS,
        TrollType::Peasant => o <= APPLE || o == ANY || (PLANT_PLUM <= o <= PLANT_BANANA) || o == CUT_ALL,
        TrollType::Choper => (PLANT_PLUM <= o <= PLANT_BANANA) || o == CHOP_ANY || o == CUT_ALL || o == THIEF_NO_WASTE,
        _ => true,
    }
}

/// The troll's objective suits its role.
pub open spec fn aimed(t: Troll) -> bool {
    suits(t.class, t.objective)
}

/// The troll stands on the board, and its characteristics and items lie within `bd`.
pub open spec fn troll_fits(t: Troll, grid: Grid, bd: int) -> bool {
    &&& grid.on_board(t.pos())
    &&& forall|k: int| 0 <= k < 4 ==> within(#[trigger] t.charac@[k] as int, bd)
    &&& forall|k: int| 0 <= k < 6 ==> within(#[trigger] t.items@[k] as int, bd)
}

/// The board has a drop tile, the area of four steps round the shack stays in `i32`, and
/// every tree stands on the board.
pub open spec fn board_fits(grid: Grid, trees: Seq<Tree>) -> bool {
    &&& grid.well_formed()
    &&& grid.drop_positions@.len() > 0
    &&& grid.shack_position.0 <= i32::MAX - 5
    &&& grid.shack_position.1 <= i32::MAX - 5
    &&& forall|k: int| 0 <= k < trees.len() ==> grid.on_board(#[trigger] trees[k].pos())
}

proof fn lemma_prefix_within(s: Seq<i32>, n: int, bd: int)
    requires
        0 <= n <= s.len(),
        0 <= bd,
        forall|k: int| 0 <= k < s.len() ==> within(#[trigger] s[k] as int, bd),
    ensures
        within(prefix_sum(s, n), n * bd),
    decreases n,
{
    if n > 0 {
        lemma_prefix_within(s, n - 1, bd);
        assert((n - 1) * bd + bd == n * bd) by (nonlinear_arith);
        assert(within(s[n - 1] as int, bd));
    }
}

/// What a fitting troll carries, and the room it has left, can be computed.
pub proof fn lemma_carry_fits(t: Troll, grid: Grid, bd: int)
    requires
        troll_fits(t, grid, bd),
        0 <= bd,
        16 * bd <= i32::MAX,
    ensures
        t.carry_ok(),
        t.room_ok(),
        within(t.carried(), 6 * bd),
        within(t.room(), 7 * bd),
{
    assert forall|k: int| 0 <= k <= 6 implies i32::MIN <= #[trigger] prefix_sum(t.items@, k) <= i32::MAX by {
        lemma_prefix_within(t.items@, k, bd);
        assert(k * bd <= 6 * bd) by (nonlinear_arith)
            requires
                0 <= k <= 6,
                0 <= bd;
    }
    lemma_prefix_within(t.items@, 6, bd);
    assert(within(t.charac@[CAPA as int] as int, bd));
}

/// On a fitting board, every distance a fitting troll measures can be computed.
proof fn lemma_dists_fit(t: Troll, grid: Grid, trees: Seq<Tree>, bd: int)
    requires
        board_fits(grid, trees),
        troll_fits(t, grid, bd),
    ensures
        t.drop_dist_ok(grid),
        forall|k: int| 0 <= k < trees.len() ==> dist_ok(#[trigger] trees[k].pos(), t.pos()),
        forall|k: int| 0 <= k < trees.len() ==> dist_ok(#[trigger] trees[k].pos(), grid.enemy_shack_position),
        dist_ok(t.pos(), grid.enemy_shack_position),
        dist_ok(t.pos(), grid.shack_position),
        forall|f: TreeFilter| #[trigger] closest_ok(trees, f, t.pos()),
        grid.area_ok(3),
        grid.area_ok(4),
{
    let h = grid.height;
    let w = grid.width;
    assert forall|k: int| 0 <= k < grid.drop_positions@.len() implies dist_ok(#[trigger] grid.drop_positions@[k], t.pos()) by {
        lemma_dist_on_board(grid.drop_positions@[k], t.pos(), h, w);
    }
    assert forall|k: int| 0 <= k < trees.len() implies dist_ok(#[trigger] trees[k].pos(), t.pos())
        && dist_ok(trees[k].pos(), grid.enemy_shack_position) by {
        lemma_dist_on_board(trees[k].pos(), t.pos(), h, w);
        lemma_dist_on_board(trees[k].pos(), grid.enemy_shack_position, h, w);
    }
    lemma_dist_on_board(t.pos(), grid.enemy_shack_position, h, w);
    lemma_dist_on_board(t.pos(), grid.shack_position, h, w);
}

/// On a fitting board, a fitting troll whose objective suits its role can act.
pub proof fn lemma_act_fits(t: Troll, grid: Grid, trees: Seq<Tree>, inventory: Inventory, bd: int)
    requires
        board_fits(grid, trees),
        troll_fits(t, grid, bd),
        0 <= bd,
        16 * bd <= i32::MAX,
        aimed(t),
    ensures
        t.act_ok(grid, trees, inventory),
{
    lemma_carry_fits(t, grid, bd);
    lemma_dists_fit(t, grid, trees, bd);
    let any = targeted(t, ANY);
    let cut = targeted(t, CUT_ALL);
    lemma_carry_fits(any, grid, bd);
    lemma_dists_fit(any, grid, trees, bd);
    lemma_carry_fits(cut, grid, bd);
    lemma_dists_fit(cut, grid, trees, bd);
    assert(t.grief_ok(grid, trees));
    assert(t.griefer_ok(grid, trees));
    assert(t.thief_no_waste_ok(grid, trees));
    assert(t.thief_ok(grid, trees));
    assert(any.harvester_ok(grid, trees));
    assert(cut.choper_ok(grid, trees));
    assert(t.miner_ok(grid, trees));
    if PLANT_PLUM <= t.objective <= PLANT_BANANA {
        assert(t.planter_ok(grid, trees, inventory));
    }
    if t.objective <= APPLE || t.objective == ANY {
        assert(t.harvester_ok(grid, trees));
    }
    if t.objective == CUT_ALL || t.objective == CHOP_ANY || t.objective == THIEF_NO_WASTE {
        assert(t.choper_ok(grid, trees));
    }
    if t.objective == BANANA_TRICKS {
        assert(t.banana_tricks_ok(grid, trees, inventory));
    }
}

/// Every troll's objective suits its role.
pub open spec fn all_aimed(ts: Seq<Troll>) -> bool {
    forall|k: int| 0 <= k < ts.len() ==> aimed(#[trigger] ts[k])
}

proof fn lemma_cons_aimed(t: Troll, r: Seq<Troll>)
    requires
        aimed(t),
        all_aimed(r),
    ensures
        all_aimed(seq![t] + r),
{
    assert forall|k: int| 0 <= k < (seq![t] + r).len() implies aimed(#[trigger] (seq![t] + r)[k]) by {
        if k > 0 {
            assert((seq![t] + r)[k] == r[k - 1]);
        }
    }
}

proof fn lemma_settle_nonneg(needs: Seq<i32>, idx: int, nb: int)
    requires
        0 <= idx,
    ensures
        settle(needs, idx, nb).0 >= 0,
    decreases 3 - idx,
{
    if idx < 3 && nb <= 0 && idx + 1 < 3 {
        lemma_settle_nonneg(needs, idx + 1, needs[idx + 1] as int);
    }
}

proof fn lemma_distribute_aims(ts: Seq<Troll>, needs: Seq<i32>, idx: int, nb: int)
    requires
        0 <= idx,
        all_aimed(ts),
    ensures
        all_aimed(distribute(ts, needs, idx, nb)),
    decreases ts.len(),
{
    if ts.len() > 0 {
        let rest = ts.drop_first();
        assert(all_aimed(rest)) by {
            assert forall|k: int| 0 <= k < rest.len() implies aimed(#[trigger] rest[k]) by {
                assert(rest[k] == ts[k + 1]);
            }
        }
        assert(aimed(ts[0]));
        if idx >= 3 || !fetcher(ts[0]) {
            lemma_distribute_aims(rest, needs, idx, nb);
            lemma_cons_aimed(ts[0], distribute(rest, needs, idx, nb));
        } else {
            let next = settle(needs, idx, nb - ts[0].room());
            lemma_settle_nonneg(needs, idx, nb - ts[0].room());
            lemma_distribute_aims(rest, needs, next.0, next.1);
            lemma_cons_aimed(targeted(ts[0], idx as usize), distribute(rest, needs, next.0, next.1));
        }
    }
}

proof fn lemma_asked_aims(ts: Seq<Troll>, needs: Seq<i32>)
    requires
        all_aimed(ts),
    ensures
        all_aimed(asked(ts, needs)),
{
    let ts1 = send_to_mine(ts, needs);
    assert(all_aimed(ts1));
    let start = settle(needs, 0, needs[0] as int);
    lemma_settle_nonneg(needs, 0, needs[0] as int);
    lemma_distribute_aims(ts1, needs, start.0, start.1);
}

proof fn lemma_mark_empty_aims(ts: Seq<Troll>, o: usize, n: int)
    requires
        PLANT_PLUM <= o <= PLANT_BANANA,
        all_aimed(ts),
    ensures
        all_aimed(mark_empty(ts, o, n)),
    decreases ts.len(),
{
    if ts.len() > 0 {
        let rest = ts.drop_first();
        assert(all_aimed(rest)) by {
            assert forall|k: int| 0 <= k < rest.len() implies aimed(#[trigger] rest[k]) by {
                assert(rest[k] == ts[k + 1]);
            }
        }
        assert(aimed(ts[0]));
        if n > 0 && ts[0].carried() == 0 {
            lemma_mark_empty_aims(rest, o, n - 1);
            lemma_cons_aimed(targeted(ts[0], o), mark_empty(rest, o, n - 1));
        } else {
            lemma_mark_empty_aims(rest, o, n);
            lemma_cons_aimed(ts[0], mark_empty(rest, o, n));
        }
    }
}

proof fn lemma_plant_rounds_aims(ts: Seq<Troll>, needs: Seq<int>, n: int)
    requires
        n <= 4,
        all_aimed(ts),
    ensures
        all_aimed(plant_rounds(ts, needs, n)),
    decreases n,
{
    if n > 0 {
        lemma_plant_rounds_aims(ts, needs, n - 1);
        let prev = plant_rounds(ts, needs, n - 1);
        let k = n - 1;
        let o = (k + 7) as usize;
        let m = mark_carriers(prev, k, o);
        assert(all_aimed(m));
        lemma_mark_empty_aims(m, o, needs[k] - carried_sum(prev, k));
    }
}

proof fn lemma_train_or_ask_aims(inv: Inventory, charac: Seq<i32>, cost: Seq<i32>, ts: Seq<Troll>)
    requires
        all_aimed(ts),
    ensures
        all_aimed(train_or_ask(inv, charac, cost, ts).1),
{
    lemma_asked_aims(ts, inv.needs_for(cost));
}

/// The strategies keep every troll's objective suited to its role, but where the end of a
/// game with close shacks would send a peasant to play the banana tricks.
pub proof fn lemma_strategies_keep_aims(
    inv: Inventory,
    n: GameStateNear,
    d: GameStateDistant,
    round: i32,
    g: Grid,
    ts: Seq<Troll>,
)
    requires
        all_aimed(ts),
    ensures
        all_aimed(distant_step(inv, d, round, g, ts).1),
        (near_updated(n) is End ==> (forall|k: int| 0 <= k < ts.len() ==> (#[trigger] ts[k]).class != TrollType::Peasant))
            ==> all_aimed(near_step(inv, n, ts).1),
{
    lemma_train_or_ask_aims(inv, near_charac(), near_cost(), ts);
    let cnt = ts.len() as i32;
    match distant_phase(d, round) {
        GameStateDistant::Start(pt, _) => {
            if !pt {
                let c = cost_seq(TrollType::Peasant, cnt);
                let r = train_or_ask(inv, need_of(TrollType::Peasant), c, ts);
                lemma_train_or_ask_aims(inv, need_of(TrollType::Peasant), c, ts);
                lemma_plant_rounds_aims(r.1, g.plant_needs(4, seq![1i32, 1, 1, 0]), 4);
            } else {
                lemma_plant_rounds_aims(ts, g.plant_needs(4, seq![2i32, 2, 2, 1]), 4);
            }
        },
        GameStateDistant::Early(mt, _) => {
            let role = early_role(mt);
            let c = cost_seq(role, cnt);
            let r = train_or_ask(inv, need_of(role), c, ts);
            lemma_train_or_ask_aims(inv, need_of(role), c, ts);
            lemma_plant_rounds_aims(r.1, g.plant_needs(4, seq![2i32, 2, 2, 1]), 4);
        },
        GameStateDistant::Mid(_) => {
            let c = cost_seq(TrollType::Choper, cnt);
            let ts1 = miners_to_thieves(inv, c, ts);
            assert(all_aimed(ts1));
            let ts2 = train_or_ask(inv, need_of(TrollType::Choper), c, ts1).1;
            lemma_train_or_ask_aims(inv, need_of(TrollType::Choper), c, ts1);
            let ts3 = g.bananas_assigned(4, 3, ts2);
            let b1 = mark_carriers(ts2, BANANA as int, PLANT_BANANA);
            assert(all_aimed(b1));
            assert(all_aimed(mark_all(b1, |t: Troll| idle_planter(t), PLANT_BANANA)));
            assert(all_aimed(ts3));
            lemma_plant_rounds_aims(ts3, g.plant_needs(4, seq![2i32, 2, 2, 0]), 4);
        },
        _ => {},
    }
}

/// Every troll fits the board.
pub open spec fn all_fit(ts: Seq<Troll>, grid: Grid, bd: int) -> bool {
    forall|k: int| 0 <= k < ts.len() ==> troll_fits(#[trigger] ts[k], grid, bd)
}

/// Every resource of the stock lies within `bd`.
pub open spec fn stock_fits(inventory: Inventory, bd: int) -> bool {
    forall|k: int| 0 <= k < 6 ==> within(#[trigger] inventory.resources@[k] as int, bd)
}

proof fn lemma_same_fits(a: Troll, b: Troll, grid: Grid, bd: int)
    requires
        same_but_task(a, b),
        troll_fits(a, grid, bd),
    ensures
        troll_fits(b, grid, bd),
        b.class == a.class,
{
    if b != a {
        let o = choose|o: usize| b == targeted(a, o);
        assert(b.items@ == a.items@ && b.charac@ == a.charac@);
    }
}

proof fn lemma_reassigned_fits(a: Seq<Troll>, b: Seq<Troll>, grid: Grid, bd: int)
    requires
        reassigned(a, b),
        all_fit(a, grid, bd),
    ensures
        all_fit(b, grid, bd),
        b.len() == a.len(),
{
    assert forall|k: int| 0 <= k < b.len() implies troll_fits(#[trigger] b[k], grid, bd) by {
        assert(same_but_task(a[k], b[k]));
        lemma_same_fits(a[k], b[k], grid, bd);
    }
}

proof fn lemma_settle_within(needs: Seq<i32>, idx: int, nb: int, lim: int)
    requires
        0 <= idx,
        needs.len() == 6,
        forall|k: int| 0 <= k < 6 ==> within(#[trigger] needs[k] as int, lim),
        within(nb, lim),
    ensures
        settle(needs, idx, nb).0 >= 0,
        settle(needs, idx, nb).0 < 3 ==> 0 < settle(needs, idx, nb).1,
        within(settle(needs, idx, nb).1, lim),
    decreases 3 - idx,
{
    if idx < 3 && nb <= 0 && idx + 1 < 3 {
        assert(within(needs[idx + 1] as int, lim));
        lemma_settle_within(needs, idx + 1, needs[idx + 1] as int, lim);
    }
}

proof fn lemma_distribute_fits(ts: Seq<Troll>, needs: Seq<i32>, idx: int, nb: int, grid: Grid, bd: int, lim: int)
    requires
        0 <= idx,
        needs.len() == 6,
        0 <= bd,
        16 * bd <= i32::MAX,
        0 <= lim,
        forall|k: int| 0 <= k < 6 ==> within(#[trigger] needs[k] as int, lim),
        within(nb, lim),
        idx < 3 ==> 0 < nb,
        lim + 7 * bd * (ts.len() + 1) <= i32::MAX,
        all_fit(ts, grid, bd),
    ensures
        distribute_ok(ts, needs, idx, nb),
    decreases ts.len(),
{
    if ts.len() > 0 {
        let rest = ts.drop_first();
        assert(all_fit(rest, grid, bd)) by {
            assert forall|k: int| 0 <= k < rest.len() implies troll_fits(#[trigger] rest[k], grid, bd) by {
                assert(rest[k] == ts[k + 1]);
            }
        }
        assert(troll_fits(ts[0], grid, bd));
        assert(7 * bd * (rest.len() + 1) + 7 * bd == 7 * bd * (ts.len() + 1)) by (nonlinear_arith)
            requires
                rest.len() + 1 == ts.len();
        assert(7 * bd <= 7 * bd * (rest.len() + 1)) by (nonlinear_arith)
            requires
                0 <= bd;
        if idx >= 3 || !fetcher(ts[0]) {
            lemma_distribute_fits(rest, needs, idx, nb, grid, bd, lim);
        } else {
            lemma_carry_fits(ts[0], grid, bd);
            let lim2 = lim + 7 * bd;
            let next = settle(needs, idx, nb - ts[0].room());
            lemma_settle_within(needs, idx, nb - ts[0].room(), lim2);
            lemma_distribute_fits(rest, needs, next.0, next.1, grid, bd, lim2);
        }
    }
}

/// Asking a stock within `bd` for a cost within `bd` stays in `i32`.
proof fn lemma_train_fits(inv: Inventory, cost: Seq<i32>, ts: Seq<Troll>, grid: Grid, bd: int)
    requires
        budget_ok(bd, ts.len() as int),
        stock_fits(inv, bd),
        cost.len() == 6,
        forall|k: int| 0 <= k < 6 ==> 0 <= #[trigger] cost[k] <= bd,
        all_fit(ts, grid, bd),
    ensures
        train_ok(inv, cost, ts),
{
    let n = ts.len() as int;
    assert(16 * bd <= i32::MAX && 2 * bd + 7 * bd * (n + 1) <= i32::MAX) by (nonlinear_arith)
        requires
            0 <= n,
            16 <= bd,
            8 * bd * (n + 2) <= i32::MAX;
    assert forall|k: int| 0 <= k < 6 implies i32::MIN <= #[trigger] cost[k] - inv.resources@[k] <= i32::MAX by {
        assert(within(inv.resources@[k] as int, bd));
    }
    let needs = inv.needs_for(cost);
    assert forall|k: int| 0 <= k < 6 implies within(#[trigger] needs[k] as int, 2 * bd) by {
        assert(within(inv.resources@[k] as int, bd));
    }
    let ts1 = send_to_mine(ts, needs);
    assert(all_fit(ts1, grid, bd)) by {
        if needs[IRON as int] > 0 {
            assert forall|k: int| 0 <= k < ts1.len() implies troll_fits(#[trigger] ts1[k], grid, bd) by {
                assert(troll_fits(ts[k], grid, bd));
                assert(ts1[k].items@ == ts[k].items@ && ts1[k].charac@ == ts[k].charac@);
            }
        }
    }
    assert(within(needs[0] as int, 2 * bd));
    lemma_settle_within(needs, 0, needs[0] as int, 2 * bd);
    let start = settle(needs, 0, needs[0] as int);
    lemma_distribute_fits(ts1, needs, start.0, start.1, grid, bd, 2 * bd);
}

proof fn lemma_carried_sum_within(ts: Seq<Troll>, k: int, bd: int)
    requires
        0 <= k < 6,
        0 <= bd,
        forall|j: int| 0 <= j < ts.len() ==> within(#[trigger] ts[j].items@[k] as int, bd),
    ensures
        0 <= carried_sum(ts, k) <= ts.len() * bd,
    decreases ts.len(),
{
    if ts.len() > 0 {
        let init = ts.drop_last();
        assert forall|j: int| 0 <= j < init.len() implies within(#[trigger] init[j].items@[k] as int, bd) by {
            assert(init[j] == ts[j]);
        }
        lemma_carried_sum_within(init, k, bd);
        assert(within(ts[ts.len() - 1].items@[k] as int, bd));
        assert(init.len() * bd + bd == ts.len() * bd) by (nonlinear_arith)
            requires
                init.len() + 1 == ts.len();
    }
}

proof fn lemma_carried_sum_fits(ts: Seq<Troll>, k: int, grid: Grid, bd: int)
    requires
        0 <= k < 6,
        0 <= bd,
        ts.len() * bd <= i32::MAX,
        all_fit(ts, grid, bd),
    ensures
        carried_sum_ok(ts, k),
{
    assert forall|m: int| 0 <= m <= ts.len() implies #[trigger] carried_sum(ts.take(m), k) <= i32::MAX by {
        let part = ts.take(m);
        assert forall|j: int| 0 <= j < part.len() implies within(#[trigger] part[j].items@[k] as int, bd) by {
            assert(part[j] == ts[j]);
            assert(troll_fits(ts[j], grid, bd));
        }
        lemma_carried_sum_within(part, k, bd);
        assert(m * bd <= ts.len() * bd) by (nonlinear_arith)
            requires
                0 <= m <= ts.len(),
                0 <= bd;
    }
}

proof fn lemma_mark_empty_fits(ts: Seq<Troll>, n: int, grid: Grid, bd: int)
    requires
        0 <= bd,
        16 * bd <= i32::MAX,
        all_fit(ts, grid, bd),
    ensures
        mark_empty_ok(ts, n),
    decreases ts.len(),
{
    if ts.len() > 0 {
        let rest = ts.drop_first();
        assert(all_fit(rest, grid, bd)) by {
            assert forall|k: int| 0 <= k < rest.len() implies troll_fits(#[trigger] rest[k], grid, bd) by {
                assert(rest[k] == ts[k + 1]);
            }
        }
        assert(troll_fits(ts[0], grid, bd));
        lemma_carry_fits(ts[0], grid, bd);
        lemma_mark_empty_fits(rest, if n > 0 && ts[0].carried() == 0 { n - 1 } else { n }, grid, bd);
    }
}

proof fn lemma_plant_rounds_fit(ts: Seq<Troll>, needs: Seq<int>, n: int, grid: Grid, bd: int)
    requires
        n <= 4,
        0 <= bd,
        16 * bd <= i32::MAX,
        ts.len() * bd <= i32::MAX,
        all_fit(ts, grid, bd),
    ensures
        plant_rounds_ok(ts, needs, n),
    decreases n,
{
    if n > 0 {
        lemma_plant_rounds_fit(ts, needs, n - 1, grid, bd);
        let prev = plant_rounds(ts, needs, n - 1);
        lemma_plant_rounds(ts, needs, n - 1);
        lemma_reassigned_fits(ts, prev, grid, bd);
        let k = n - 1;
        lemma_carried_sum_fits(prev, k, grid, bd);
        let m = mark_carriers(prev, k, (k + 7) as usize);
        lemma_mark_carriers(prev, k, (k + 7) as usize);
        lemma_reassigned_fits(prev, m, grid, bd);
        lemma_mark_empty_fits(m, needs[k] - carried_sum(prev, k), grid, bd);
    }
}

/// The census of a fitting board's area of four steps is at most `i32::MAX`.
proof fn lemma_census_fits(grid: Grid, f: crate::fruit::Fruit)
    requires
        grid.well_formed(),
        grid.area_ok(4),
    ensures
        0 <= grid.census(grid.shack_area(4), f) <= i32::MAX,
{
    grid.lemma_shack_area(4);
    grid.lemma_census_bounds(grid.shack_area(4), f);
}

/// Planting small requirements with fitting trolls stays in `i32`.
proof fn lemma_plants_fit(grid: Grid, required: Seq<i32>, ts: Seq<Troll>, bd: int)
    requires
        grid.well_formed(),
        grid.area_ok(4),
        required.len() == 4,
        forall|k: int| 0 <= k < 4 ==> 0 <= #[trigger] required[k] <= 2,
        0 <= bd,
        16 * bd <= i32::MAX,
        ts.len() * bd <= i32::MAX,
        all_fit(ts, grid, bd),
    ensures
        plants_ok(grid, required, ts),
{
    assert forall|k: int| 0 <= k < 4 implies i32::MIN <= #[trigger] grid.missing(4, required, k) by {
        lemma_census_fits(grid, fruit_of(k as usize));
    }
    lemma_plant_rounds_fit(ts, grid.plant_needs(4, required), 4, grid, bd);
}

proof fn lemma_costs_small(t: TrollType, n: i32)
    requires
        0 <= n,
        n + 16 <= i32::MAX,
    ensures
        cost_ok(t, n),
        cost_seq(t, n).len() == 6,
        forall|k: int| 0 <= k < 6 ==> 0 <= #[trigger] cost_seq(t, n)[k] <= n + 16,
{
    assert forall|k: int| 0 <= k < 4 implies 0 <= #[trigger] need_of(t)[k] <= 4 by {}
    assert forall|k: int| 0 <= k < 4 implies point_cost(n as int, #[trigger] need_of(t)[k]) <= n + 16 by {
        let c = need_of(t)[k];
        assert(0 <= c <= 4);
        assert(c * c <= 16) by (nonlinear_arith)
            requires
                0 <= c <= 4;
    }
}

/// On a fitting board, with a stock and trolls within a bound meeting `budget_ok`, the strategy
/// for either kind of map can run.
proof fn lemma_strategies_fit(inv: Inventory, near: GameStateNear, d: GameStateDistant, round: i32, grid: Grid, ts: Seq<Troll>, trees: Seq<Tree>, bd: int)
    requires
        board_fits(grid, trees),
        budget_ok(bd, ts.len() as int),
        stock_fits(inv, bd),
        all_fit(ts, grid, bd),
    ensures
        near_ok(inv, near, ts),
        distant_ok(inv, d, round, grid, ts),
{
    let nn = ts.len() as int;
    assert(16 * bd <= i32::MAX && nn * bd <= i32::MAX) by (nonlinear_arith)
        requires
            0 <= nn,
            16 <= bd,
            8 * bd * (nn + 2) <= i32::MAX;
    assert(near_cost().len() == 6);
    assert forall|k: int| 0 <= k < 6 implies 0 <= #[trigger] near_cost()[k] <= bd by {}
    lemma_train_fits(inv, near_cost(), ts, grid, bd);
    let n = ts.len() as i32;
    assert(grid.area_ok(4));
    let r1110 = seq![1i32, 1, 1, 0];
    let r2221 = seq![2i32, 2, 2, 1];
    let r2220 = seq![2i32, 2, 2, 0];
    assert forall|k: int| 0 <= k < 4 implies 0 <= #[trigger] r1110[k] <= 2 by {}
    assert forall|k: int| 0 <= k < 4 implies 0 <= #[trigger] r2221[k] <= 2 by {}
    assert forall|k: int| 0 <= k < 4 implies 0 <= #[trigger] r2220[k] <= 2 by {}
    match distant_phase(d, round) {
        GameStateDistant::Start(pt, _) => {
            if !pt {
                let c = cost_seq(TrollType::Peasant, n);
                lemma_costs_small(TrollType::Peasant, n);
                lemma_train_fits(inv, c, ts, grid, bd);
                lemma_asked(ts, inv.needs_for(c));
                lemma_reassigned_fits(ts, asked(ts, inv.needs_for(c)), grid, bd);
                lemma_plants_fit(grid, r1110, asked(ts, inv.needs_for(c)), bd);
            } else {
                lemma_plants_fit(grid, r2221, ts, bd);
            }
        },
        GameStateDistant::Early(mt, _) => {
            let role = early_role(mt);
            let c = cost_seq(role, n);
            lemma_costs_small(role, n);
            lemma_train_fits(inv, c, ts, grid, bd);
            let ts1 = train_or_ask(inv, need_of(role), c, ts).1;
            lemma_train_or_ask(inv, need_of(role), c, ts);
            lemma_reassigned_fits(ts, ts1, grid, bd);
            lemma_plants_fit(grid, r2221, ts1, bd);
        },
        GameStateDistant::Mid(_) => {
            let c = cost_seq(TrollType::Choper, n);
            lemma_costs_small(TrollType::Choper, n);
            let ts1 = miners_to_thieves(inv, c, ts);
            lemma_map_reassigned(ts, of_classes(TrollType::Miner, TrollType::Miner), THIEF);
            lemma_reassigned_fits(ts, ts1, grid, bd);
            lemma_train_fits(inv, c, ts1, grid, bd);
            let ts2 = train_or_ask(inv, need_of(TrollType::Choper), c, ts1).1;
            lemma_train_or_ask(inv, need_of(TrollType::Choper), c, ts1);
            lemma_reassigned_fits(ts1, ts2, grid, bd);
            let b1 = mark_carriers(ts2, BANANA as int, PLANT_BANANA);
            lemma_mark_carriers(ts2, BANANA as int, PLANT_BANANA);
            lemma_reassigned_fits(ts2, b1, grid, bd);
            lemma_census_fits(grid, crate::fruit::Fruit::Banana);
            lemma_carried_sum_fits(b1, BANANA as int, grid, bd);
            assert forall|j: int| 0 <= j < b1.len() implies #[trigger] b1[j].carry_ok() by {
                assert(troll_fits(b1[j], grid, bd));
                lemma_carry_fits(b1[j], grid, bd);
            }
            assert(grid.bananas_assigned_ok(4, 3, ts2));
            let ts3 = grid.bananas_assigned(4, 3, ts2);
            lemma_bananas(grid, 4, 3, ts2);
            lemma_reassigned_fits(ts2, ts3, grid, bd);
            lemma_plants_fit(grid, r2220, ts3, bd);
        },
        _ => {},
    }
}

/// Every troll stands on the board.
pub open spec fn all_on_board(ts: Seq<Troll>, grid: Grid) -> bool {
    forall|k: int| 0 <= k < ts.len() ==> grid.on_board((#[trigger] ts[k]).pos())
}

/// A turn's input the bot can play: a known kind of map, a fitting board, every troll on the
/// board with an objective that suits its role, the amounts of the turn within a bound meeting
/// `budget_ok`, and no peasant where the end of a game with close shacks would send it to play
/// the banana tricks.
pub open spec fn turn_fits(kind: usize, near: GameStateNear, grid: Grid, inventory: Inventory, ts: Seq<Troll>, trees: Seq<Tree>) -> bool {
    &&& kind == DISTANT || kind == NEAR
    &&& board_fits(grid, trees)
    &&& budget_ok(turn_bound(inventory, ts), ts.len() as int)
    &&& all_on_board(ts, grid)
    &&& all_aimed(ts)
    &&& kind == NEAR && near_updated(near) is End
        ==> forall|k: int| 0 <= k < ts.len() ==> (#[trigger] ts[k]).class != TrollType::Peasant
}

/// Every amount of a turn lies within the turn's bound.
proof fn lemma_bound_covers(inventory: Inventory, ts: Seq<Troll>, grid: Grid)
    requires
        all_on_board(ts, grid),
    ensures
        stock_fits(inventory, turn_bound(inventory, ts)),
        all_fit(ts, grid, turn_bound(inventory, ts)),
{
    let bd = turn_bound(inventory, ts);
    lemma_abs_max(inventory.resources@, 6);
    lemma_trolls_max(ts, ts.len() as int);
    assert forall|k: int| 0 <= k < 6 implies within(#[trigger] inventory.resources@[k] as int, bd) by {
        assert(abs(inventory.resources@[k] as int) <= abs_max(inventory.resources@, 6));
    }
    assert forall|j: int| 0 <= j < ts.len() implies troll_fits(#[trigger] ts[j], grid, bd) by {
        let t = ts[j];
        lemma_abs_max(t.charac@, 4);
        lemma_abs_max(t.items@, 6);
        assert(abs_max(t.charac@, 4) <= bd && abs_max(t.items@, 6) <= bd);
        assert forall|k: int| 0 <= k < 4 implies within(#[trigger] t.charac@[k] as int, bd) by {
            assert(abs(t.charac@[k] as int) <= abs_max(t.charac@, 4));
        }
        assert forall|k: int| 0 <= k < 6 implies within(#[trigger] t.items@[k] as int, bd) by {
            assert(abs(t.items@[k] as int) <= abs_max(t.items@, 6));
        }
    }
}

/// A turn whose input fits can be played, whatever the phase of a map with distant shacks
/// and the round.
pub proof fn lemma_turn_fits(
    kind: usize,
    near: GameStateNear,
    distant: GameStateDistant,
    round: i32,
    grid: Grid,
    inventory: Inventory,
    ts: Seq<Troll>,
    trees: Seq<Tree>,
)
    requires
        turn_fits(kind, near, grid, inventory, ts, trees),
    ensures
        round_ok(kind, near, distant, round, grid, inventory, ts, trees),
{
    let bd = turn_bound(inventory, ts);
    let nn = ts.len() as int;
    lemma_bound_covers(inventory, ts, grid);
    assert(16 * bd <= i32::MAX) by (nonlinear_arith)
        requires
            0 <= nn,
            16 <= bd,
            8 * bd * (nn + 2) <= i32::MAX;
    lemma_strategies_fit(inventory, near, distant, round, grid, ts, trees, bd);
    let ts1 = strategy_out(kind, near, distant, round, grid, inventory, ts).2;
    law_strategies_only_reassign(inventory, near, distant, round, grid, ts);
    lemma_strategies_keep_aims(inventory, near, distant, round, grid, ts);
    if kind == DISTANT {
        assert(ts1 == distant_step(inventory, distant, round, grid, ts).1);
        assert(all_aimed(ts1));
    } else {
        assert(ts1 == near_step(inventory, near, ts).1);
        if near_updated(near) is End {
            assert(forall|k: int| 0 <= k < ts.len() ==> (#[trigger] ts[k]).class != TrollType::Peasant);
        }
        assert(all_aimed(ts1));
    }
    lemma_reassigned_fits(ts, ts1, grid, bd);
    assert forall|k: int| 0 <= k < ts1.len() implies (#[trigger] ts1[k]).act_ok(grid, trees, inventory) by {
        assert(troll_fits(ts1[k], grid, bd));
        assert(aimed(ts1[k]));
        lemma_act_fits(ts1[k], grid, trees, inventory, bd);
    }
}

fn suits_exec(class: TrollType, o: usize) -> (b: bool)
    ensures
        b == suits(class, o),
{
    match class {
        TrollType::Poly => o <= APPLE || o == IRON || o == ANY || (PLANT_PLUM <= o && o <= PLANT_BANANA)
            || o == CUT_ALL || o == THIEF || o == BANANA_TRICKS,
        TrollType::Peasant => o <= APPLE || o == ANY || (PLANT_PLUM <= o && o <= PLANT_BANANA) || o == CUT_ALL,
        TrollType::Choper => (PLANT_PLUM <= o && o <= PLANT_BANANA) || o == CHOP_ANY || o == CUT_ALL || o == THIEF_NO_WASTE,
        _ => true,
    }
}

/// The largest size among the entries of `a`.
fn abs_max_exec<const N: usize>(a: &[i32; N]) -> (m: i64)
    ensures
        m == abs_max(a@, N as int),
{
    let mut m: i64 = 0;
    let mut k: usize = 0;
    while k < N
        invariant
            k <= N,
            a@.len() == N,
            m == abs_max(a@, k as int),
            0 <= m <= 0x8000_0000,
        decreases N - k,
    {
        let v: i64 = a[k] as i64;
        let av: i64 = if v < 0 { -v } else { v };
        if av > m {
            m = av;
        }
        k = k + 1;
    }
    m
}

/// The input of a turn fits (see `turn_fits`).
pub fn fits_turn(
    kind: usize,
    near: GameStateNear,
    grid: &Grid,
    inventory: &Inventory,
    trolls: &Vec<Troll>,
    trees: &Vec<Tree>,
) -> (b: bool)
    ensures
        b == turn_fits(kind, near, *grid, *inventory, trolls@, trees@),
{
    if kind != DISTANT && kind != NEAR {
        return false;
    }
    if !grid.is_well_formed() || grid.drop_positions.len() == 0 {
        return false;
    }
    if grid.shack_position.0 > i32::MAX - 5 || grid.shack_position.1 > i32::MAX - 5 {
        return false;
    }
    let mut k: usize = 0;
    while k < trees.len()
        invariant
            k <= trees@.len(),
            forall|j: int| 0 <= j < k ==> grid.on_board(#[trigger] trees@[j].pos()),
        decreases trees@.len() - k,
    {
        let t = trees[k];
        if !(0 <= t.x && t.x < grid.width && 0 <= t.y && t.y < grid.height) {
            assert(!grid.on_board(trees@[k as int].pos()));
            return false;
        }
        k = k + 1;
    }
    let n = trolls.len();
    if n > 0x4000 {
        proof {
            let bd = turn_bound(*inventory, trolls@);
            let nn = n as int;
            assert(!budget_ok(bd, nn)) by (nonlinear_arith)
                requires
                    nn > 0x4000,
                    bd >= nn + 16;
        }
        return false;
    }
    let mut after = near;
    after.update();
    let peasants_banned = kind == NEAR && after == GameStateNear::End;
    let mut m: i64 = abs_max_exec(&inventory.resources);
    proof {
        lemma_abs_max(inventory.resources@, 6);
    }
    let mut k: usize = 0;
    while k < n
        invariant
            n == trolls@.len(),
            n <= 0x4000,
            k <= n,
            after == near_updated(near),
            peasants_banned == (kind == NEAR && near_updated(near) is End),
            m == larger(abs_max(inventory.resources@, 6), trolls_max(trolls@, k as int)),
            0 <= m <= 0x8000_0000,
            forall|j: int| 0 <= j < k ==> grid.on_board((#[trigger] trolls@[j]).pos()) && aimed(trolls@[j]),
            peasants_banned ==> forall|j: int| 0 <= j < k ==> (#[trigger] trolls@[j]).class != TrollType::Peasant,
        decreases n - k,
    {
        let t = &trolls[k];
        if !(0 <= t.x && t.x < grid.width && 0 <= t.y && t.y < grid.height) || !suits_exec(t.class, t.objective) {
            return false;
        }
        if peasants_banned && t.class == TrollType::Peasant {
            return false;
        }
        let mc = abs_max_exec(&t.charac);
        let mi = abs_max_exec(&t.items);
        proof {
            lemma_abs_max(t.charac@, 4);
            lemma_abs_max(t.items@, 6);
        }
        if mc > m {
            m = mc;
        }
        if mi > m {
            m = mi;
        }
        k = k + 1;
    }
    let floor: i64 = n as i64 + 16;
    let bd: i64 = if floor > m { floor } else { m };
    assert(bd == turn_bound(*inventory, trolls@));
    assert(8 * bd * (n + 2) <= 8 * 0x8000_0000 * 0x4002) by (nonlinear_arith)
        requires
            0 <= bd <= 0x8000_0000,
            0 <= n <= 0x4000;
    8 * bd * (n as i64 + 2) <= i32::MAX as i64
}

/// Plays the turn where its input fits (see `turn_fits` and `play_round`), and gives no line,
/// leaving the phases as they were, where it does not.
pub fn try_play_round(
    kind: usize,
    near: &mut GameStateNear,
    distant: &mut GameStateDistant,
    round: i32,
    grid: &Grid,
    inventory: &Inventory,
    trolls: Vec<Troll>,
    trees: &Vec<Tree>,
) -> (r: Option<String>)
    ensures
        r is Some <==> turn_fits(kind, *old(near), *grid, *inventory, trolls@, trees@),
        r matches Some(line) ==> ({
            let (n, d, _, _) = strategy_out(kind, *old(near), *old(distant), round, *grid, *inventory, trolls@);
            &&& *final(near) == n && *final(distant) == d
            &&& line@ == round_answer(kind, *old(near), *old(distant), round, *grid, *inventory, trolls@, trees@)
        }),
        r is None ==> *final(near) == *old(near) && *final(distant) == *old(distant),
{
    if !fits_turn(kind, *near, grid, inventory, &trolls, trees) {
        return None;
    }
    proof {
        lemma_turn_fits(kind, *near, *distant, round, *grid, *inventory, trolls@, trees@);
    }
    Some(play_round(kind, near, distant, round, grid, inventory, trolls, trees))
}

} // verus!
