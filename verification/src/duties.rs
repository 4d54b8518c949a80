use vstd::prelude::*;
use crate::consts::{BANANA, IRON, WOOD, PLANT_BANANA, THIEF};
use crate::fruit::{Fruit, Tree};
use crate::troll::{Troll, TrollType, id_cmd, need_of};
use crate::board::Grid;
use crate::inventory::{Inventory, targeted, fetcher, settle, distribute, send_to_mine, asked};
use crate::planning::{carried_sum, mark_carriers, mark_empty, plant_rounds};
use crate::strategy::{GameStateDistant, distant_step, distant_phase, cost_seq, train_or_ask};
use crate::util::dist;

verus! {

// ---------------------------------------------------------------- sending trolls for resources

/// The troll is sent for fruit once the iron step is done: a peasant, or a polyvalent troll
/// without a task where no iron is needed (where iron is, every polyvalent troll goes mining).
pub open spec fn fetches(t: Troll, needs: Seq<i32>) -> bool {
    t.class == TrollType::Peasant || (t.class == TrollType::Poly && !t.assigned && needs[IRON as int] <= 0)
}

proof fn lemma_fetcher_after_iron(ts: Seq<Troll>, needs: Seq<i32>, j: int)
    requires
        0 <= j < ts.len(),
    ensures
        send_to_mine(ts, needs).len() == ts.len(),
        fetcher(send_to_mine(ts, needs)[j]) == fetches(ts[j], needs),
        fetches(ts[j], needs) ==> send_to_mine(ts, needs)[j] == ts[j],
{
}

/// From a resource wanted, `settle` moves only to resources wanted, or past the fruits.
proof fn lemma_settle_wanted(needs: Seq<i32>, idx: int, nb: int)
    requires
        needs.len() == 6,
        0 <= idx,
        nb > 0 && idx < 3 ==> needs[idx] > 0,
    ensures
        settle(needs, idx, nb).0 >= 3 || (0 <= settle(needs, idx, nb).0 && needs[settle(needs, idx, nb).0] > 0),
    decreases 3 - idx,
{
    if idx < 3 && nb <= 0 && idx + 1 < 3 {
        lemma_settle_wanted(needs, idx + 1, needs[idx + 1] as int);
    }
}

/// Where the first fruit wanted is `k0`, the search for a fruit starts there.
proof fn lemma_settle_first(needs: Seq<i32>, i: int, k0: int)
    requires
        needs.len() == 6,
        0 <= i <= k0 < 3,
        needs[k0] > 0,
        forall|m: int| 0 <= m < k0 ==> needs[m] <= 0,
    ensures
        settle(needs, i, needs[i] as int) == (k0, needs[k0] as int),
    decreases k0 - i,
{
    if i < k0 {
        lemma_settle_first(needs, i + 1, k0);
    }
}

proof fn lemma_distribute_len(ts: Seq<Troll>, needs: Seq<i32>, idx: int, nb: int)
    ensures
        distribute(ts, needs, idx, nb).len() == ts.len(),
    decreases ts.len(),
{
    if ts.len() > 0 {
        if idx >= 3 || !fetcher(ts[0]) {
            lemma_distribute_len(ts.drop_first(), needs, idx, nb);
        } else {
            let next = settle(needs, idx, nb - ts[0].room());
            lemma_distribute_len(ts.drop_first(), needs, next.0, next.1);
        }
    }
}

/// `distribute` leaves every troll that does not fetch as it is, and sends each one that it
/// changes for a fruit that is wanted.
proof fn lemma_distribute_shape(ts: Seq<Troll>, needs: Seq<i32>, idx: int, nb: int, j: int)
    requires
        needs.len() == 6,
        0 <= idx,
        idx < 3 ==> needs[idx] > 0,
        0 <= j < ts.len(),
    ensures
        distribute(ts, needs, idx, nb).len() == ts.len(),
        !fetcher(ts[j]) ==> distribute(ts, needs, idx, nb)[j] == ts[j],
        distribute(ts, needs, idx, nb)[j] == ts[j] || exists|k: int| 0 <= k < 3 && needs[k] > 0
            && distribute(ts, needs, idx, nb)[j] == #[trigger] targeted(ts[j], k as usize),
    decreases ts.len(),
{
    lemma_distribute_len(ts, needs, idx, nb);
    let rest = ts.drop_first();
    if idx >= 3 || !fetcher(ts[0]) {
        if j > 0 {
            lemma_distribute_shape(rest, needs, idx, nb, j - 1);
            assert(distribute(ts, needs, idx, nb)[j] == distribute(rest, needs, idx, nb)[j - 1]);
        }
    } else {
        let next = settle(needs, idx, nb - ts[0].room());
        lemma_settle_wanted(needs, idx, nb - ts[0].room());
        if j > 0 {
            lemma_distribute_shape(rest, needs, next.0, next.1, j - 1);
            assert(distribute(ts, needs, idx, nb)[j] == distribute(rest, needs, next.0, next.1)[j - 1]);
        } else {
            assert(distribute(ts, needs, idx, nb)[0] == targeted(ts[0], idx as usize));
        }
    }
}

/// The first troll that fetches is sent for the resource at hand.
proof fn lemma_distribute_first(ts: Seq<Troll>, needs: Seq<i32>, idx: int, nb: int, j: int)
    requires
        0 <= idx < 3,
        0 <= j < ts.len(),
        fetcher(ts[j]),
        forall|i: int| 0 <= i < j ==> !fetcher(#[trigger] ts[i]),
    ensures
        distribute(ts, needs, idx, nb)[j] == targeted(ts[j], idx as usize),
    decreases ts.len(),
{
    lemma_distribute_len(ts, needs, idx, nb);
    if j > 0 {
        let rest = ts.drop_first();
        assert(!fetcher(ts[0]));
        assert forall|i: int| 0 <= i < j - 1 implies !fetcher(#[trigger] rest[i]) by {
            assert(rest[i] == ts[i + 1]);
        }
        lemma_distribute_first(rest, needs, idx, nb, j - 1);
        lemma_distribute_len(rest, needs, idx, nb);
        assert(distribute(ts, needs, idx, nb)[j] == distribute(rest, needs, idx, nb)[j - 1]);
    }
}

/// The trolls sent for what training lacks (`ask_for_resources`): the first troll that fetches
/// is sent for the first fruit wanted (plums, then lemons, then apples); every troll that does
/// not fetch is left as it is, but that polyvalent trolls all go mining where iron is wanted;
/// and a troll that fetches is either left as it is or sent for a fruit that is wanted.
pub proof fn law_first_fetcher_serves_first_fruit(ts: Seq<Troll>, needs: Seq<i32>, k0: int, j: int)
    requires
        needs.len() == 6,
        0 <= k0 < 3,
        needs[k0] > 0,
        forall|m: int| 0 <= m < k0 ==> needs[m] <= 0,
        0 <= j < ts.len(),
        fetches(ts[j], needs),
        forall|i: int| 0 <= i < j ==> !fetches(#[trigger] ts[i], needs),
    ensures
        asked(ts, needs).len() == ts.len(),
        asked(ts, needs)[j].objective == k0,
        asked(ts, needs)[j].assigned,
        asked(ts, needs)[j] == (Troll { objective: k0 as usize, assigned: true, ..ts[j] }),
{
    let ts1 = send_to_mine(ts, needs);
    lemma_settle_first(needs, 0, k0);
    lemma_fetcher_after_iron(ts, needs, j);
    assert forall|i: int| 0 <= i < j implies !fetcher(#[trigger] ts1[i]) by {
        lemma_fetcher_after_iron(ts, needs, i);
    }
    lemma_distribute_first(ts1, needs, k0, needs[k0] as int, j);
    lemma_distribute_len(ts1, needs, k0, needs[k0] as int);
}

/// Every troll after `ask_for_resources`: a polyvalent troll goes mining where iron is wanted;
/// any other troll that does not fetch stays as it is; a troll that fetches either stays as it
/// is or is sent for one of plums, lemons and apples that is wanted.
pub proof fn law_asked_only_for_wanted_fruit(ts: Seq<Troll>, needs: Seq<i32>, j: int)
    requires
        needs.len() == 6,
        0 <= j < ts.len(),
    ensures
        asked(ts, needs).len() == ts.len(),
        ts[j].class == TrollType::Poly && needs[IRON as int] > 0 ==> asked(ts, needs)[j] == targeted(ts[j], IRON),
        !fetches(ts[j], needs) && !(ts[j].class == TrollType::Poly && needs[IRON as int] > 0)
            ==> asked(ts, needs)[j] == ts[j],
        fetches(ts[j], needs) ==> asked(ts, needs)[j] == ts[j] || exists|k: int| 0 <= k < 3 && needs[k] > 0
            && asked(ts, needs)[j] == #[trigger] targeted(ts[j], k as usize),
{
    let ts1 = send_to_mine(ts, needs);
    let start = settle(needs, 0, needs[0] as int);
    lemma_settle_wanted(needs, 0, needs[0] as int);
    lemma_fetcher_after_iron(ts, needs, j);
    lemma_distribute_shape(ts1, needs, start.0, start.1, j);
}

/// The room of the trolls before position `j` that fetch and that `r`, the trolls after the
/// asking, sends for resource `k`.
pub open spec fn room_sent(ts: Seq<Troll>, r: Seq<Troll>, needs: Seq<i32>, k: int, j: int) -> int
    decreases j,
{
    if j <= 0 {
        0
    } else {
        room_sent(ts, r, needs, k, j - 1) + if fetches(ts[j - 1], needs) && r[j - 1].assigned && r[j - 1].objective == k {
            ts[j - 1].room()
        } else {
            0
        }
    }
}

/// One troll's turn in `distribute`: the resource at hand and how many of it are still wanted.
spec fn fstep(needs: Seq<i32>, st: (int, int), t: Troll) -> (int, int) {
    if st.0 >= 3 || !fetcher(t) { st } else { settle(needs, st.0, st.1 - t.room()) }
}

/// The resource at hand, and how many of it are still wanted, once `distribute` has gone past
/// the first `j` trolls.
spec fn dstate(ts: Seq<Troll>, needs: Seq<i32>, st: (int, int), j: int) -> (int, int)
    decreases j,
{
    if j <= 0 { st } else { fstep(needs, dstate(ts, needs, st, j - 1), ts[j - 1]) }
}

proof fn lemma_dstate_shift(ts: Seq<Troll>, needs: Seq<i32>, st: (int, int), j: int)
    requires
        1 <= j <= ts.len(),
    ensures
        dstate(ts, needs, st, j) == dstate(ts.drop_first(), needs, fstep(needs, st, ts[0]), j - 1),
    decreases j,
{
    let rest = ts.drop_first();
    let s1 = fstep(needs, st, ts[0]);
    if j > 1 {
        lemma_dstate_shift(ts, needs, st, j - 1);
        assert(rest[j - 2] == ts[j - 1]);
        assert(dstate(rest, needs, s1, j - 1) == fstep(needs, dstate(rest, needs, s1, j - 2), rest[j - 2]));
        assert(dstate(ts, needs, st, j) == fstep(needs, dstate(ts, needs, st, j - 1), ts[j - 1]));
    } else {
        assert(dstate(ts, needs, st, 0) == st);
        assert(dstate(ts, needs, st, 1) == fstep(needs, dstate(ts, needs, st, 0), ts[0]));
        assert(dstate(rest, needs, s1, 0) == s1);
    }
}

/// Each troll after `distribute` is the troll sent for the resource at hand when its turn came,
/// where it fetches and one is left, and otherwise the troll as it was.
proof fn lemma_distribute_at(ts: Seq<Troll>, needs: Seq<i32>, st: (int, int), j: int)
    requires
        0 <= j < ts.len(),
    ensures
        distribute(ts, needs, st.0, st.1)[j] == ({
            let s = dstate(ts, needs, st, j);
            if s.0 < 3 && fetcher(ts[j]) { targeted(ts[j], s.0 as usize) } else { ts[j] }
        }),
    decreases ts.len(),
{
    lemma_distribute_len(ts, needs, st.0, st.1);
    let rest = ts.drop_first();
    let s1 = fstep(needs, st, ts[0]);
    if j > 0 {
        lemma_distribute_at(rest, needs, s1, j - 1);
        lemma_dstate_shift(ts, needs, st, j);
        assert(rest[j - 1] == ts[j]);
        if st.0 >= 3 || !fetcher(ts[0]) {
            assert(distribute(ts, needs, st.0, st.1)[j] == distribute(rest, needs, st.0, st.1)[j - 1]);
        } else {
            assert(distribute(ts, needs, st.0, st.1)[j] == distribute(rest, needs, s1.0, s1.1)[j - 1]);
        }
    }
}

/// From resource `a`, of which `x` (what is wanted, less the room already sent for it) are still
/// wanted, where no troll was sent for any later resource yet, `settle` moves to the first
/// resource still wanted.
proof fn lemma_settle_least(needs: Seq<i32>, a: int, x: int, sent: spec_fn(int) -> int)
    requires
        needs.len() == 6,
        0 <= a < 3,
        x == needs[a] - sent(a),
        forall|k: int| a < k < 3 ==> #[trigger] sent(k) == 0,
    ensures
        a <= settle(needs, a, x).0 <= 3,
        forall|k: int| a <= k < settle(needs, a, x).0 && k < 3 ==> needs[k] - #[trigger] sent(k) <= 0,
        settle(needs, a, x).0 < 3 ==> settle(needs, a, x).1 == needs[settle(needs, a, x).0] - sent(settle(needs, a, x).0)
            && settle(needs, a, x).1 > 0,
    decreases 3 - a,
{
    if x <= 0 && a + 1 < 3 {
        assert(sent(a + 1) == 0);
        lemma_settle_least(needs, a + 1, needs[a + 1] as int, sent);
    }
}

/// The state `distribute` keeps along the trolls: the resources before the one at hand are
/// covered by the room sent for them; of the one at hand, what is wanted less the room sent for
/// it is still wanted; nothing was sent for the later ones.
spec fn fill_state(ts: Seq<Troll>, r: Seq<Troll>, needs: Seq<i32>, s: (int, int), j: int) -> bool {
    &&& 0 <= s.0 <= 3
    &&& forall|k: int| 0 <= k < s.0 && k < 3 ==> needs[k] - #[trigger] room_sent(ts, r, needs, k, j) <= 0
    &&& s.0 < 3 ==> s.1 == needs[s.0] - room_sent(ts, r, needs, s.0, j) && s.1 > 0
    &&& forall|k: int| s.0 < k < 3 ==> #[trigger] room_sent(ts, r, needs, k, j) == 0
}

proof fn lemma_fill_state(ts: Seq<Troll>, needs: Seq<i32>, j: int)
    requires
        needs.len() == 6,
        0 <= j <= ts.len(),
        forall|i: int| 0 <= i < ts.len() && fetches(#[trigger] ts[i], needs) ==> !ts[i].assigned,
    ensures
        fill_state(ts, asked(ts, needs), needs,
            dstate(send_to_mine(ts, needs), needs, settle(needs, 0, needs[0] as int), j), j),
    decreases j,
{
    let ts1 = send_to_mine(ts, needs);
    let s0 = settle(needs, 0, needs[0] as int);
    let r = asked(ts, needs);
    lemma_distribute_len(ts1, needs, s0.0, s0.1);
    if j == 0 {
        let zero = |k: int| 0int;
        assert forall|k: int| 0 <= k < 3 implies #[trigger] room_sent(ts, r, needs, k, 0) == zero(k) by {}
        lemma_settle_least(needs, 0, needs[0] as int, zero);
    } else {
        lemma_fill_state(ts, needs, j - 1);
        let s = dstate(ts1, needs, s0, j - 1);
        let i = j - 1;
        lemma_fetcher_after_iron(ts, needs, i);
        lemma_distribute_at(ts1, needs, s0, i);
        assert(r[i] == (if s.0 < 3 && fetcher(ts1[i]) { targeted(ts1[i], s.0 as usize) } else { ts1[i] }));
        if s.0 < 3 && fetcher(ts1[i]) {
            assert(ts1[i] == ts[i]);
            assert forall|k: int| 0 <= k < 3 implies #[trigger] room_sent(ts, r, needs, k, j)
                == room_sent(ts, r, needs, k, i) + if k == s.0 { ts[i].room() } else { 0 } by {}
            let sent = |k: int| room_sent(ts, r, needs, k, j);
            assert forall|k: int| s.0 < k < 3 implies #[trigger] sent(k) == 0 by {}
            lemma_settle_least(needs, s.0, s.1 - ts[i].room(), sent);
            let s2 = settle(needs, s.0, s.1 - ts[i].room());
            assert(dstate(ts1, needs, s0, j) == s2);
            assert forall|k: int| 0 <= k < s2.0 && k < 3 implies needs[k] - #[trigger] room_sent(ts, r, needs, k, j) <= 0 by {
                if k < s.0 {
                    assert(room_sent(ts, r, needs, k, j) == room_sent(ts, r, needs, k, i));
                } else {
                    assert(sent(k) == room_sent(ts, r, needs, k, j));
                }
            }
            assert forall|k: int| s2.0 < k < 3 implies #[trigger] room_sent(ts, r, needs, k, j) == 0 by {
                assert(sent(k) == room_sent(ts, r, needs, k, j));
            }
        } else {
            assert(dstate(ts1, needs, s0, j) == s);
            assert forall|k: int| 0 <= k < 3 implies #[trigger] room_sent(ts, r, needs, k, j) == room_sent(ts, r, needs, k, i) by {
                if fetches(ts[i], needs) {
                    assert(ts1[i] == ts[i]);
                    assert(!ts[i].assigned);
                    assert(r[i] == ts1[i]);
                }
            }
        }
    }
}

/// How `ask_for_resources` sends the trolls that fetch, each coming without a task: each in
/// turn is sent for the first of plums, lemons and apples of which more is wanted than the room
/// of the trolls already sent for it, and where none is, it is left as it is.
pub proof fn law_fetchers_fill_fruits_in_order(ts: Seq<Troll>, needs: Seq<i32>, j: int, k0: int)
    requires
        needs.len() == 6,
        0 <= j < ts.len(),
        fetches(ts[j], needs),
        forall|i: int| 0 <= i < ts.len() && fetches(#[trigger] ts[i], needs) ==> !ts[i].assigned,
    ensures
        ({
            let r = asked(ts, needs);
            &&& r.len() == ts.len()
            &&& 0 <= k0 < 3 && needs[k0] - room_sent(ts, r, needs, k0, j) > 0
                && (forall|k: int| 0 <= k < k0 ==> needs[k] - #[trigger] room_sent(ts, r, needs, k, j) <= 0)
                ==> r[j] == targeted(ts[j], k0 as usize)
            &&& (forall|k: int| 0 <= k < 3 ==> needs[k] - #[trigger] room_sent(ts, r, needs, k, j) <= 0) ==> r[j] == ts[j]
        }),
{
    let ts1 = send_to_mine(ts, needs);
    let s0 = settle(needs, 0, needs[0] as int);
    let r = asked(ts, needs);
    lemma_distribute_len(ts1, needs, s0.0, s0.1);
    lemma_fill_state(ts, needs, j);
    lemma_fetcher_after_iron(ts, needs, j);
    lemma_distribute_at(ts1, needs, s0, j);
    let s = dstate(ts1, needs, s0, j);
    if 0 <= k0 < 3 && needs[k0] - room_sent(ts, r, needs, k0, j) > 0
        && (forall|k: int| 0 <= k < k0 ==> needs[k] - #[trigger] room_sent(ts, r, needs, k, j) <= 0) {
        if s.0 < k0 {
            assert(needs[s.0] - room_sent(ts, r, needs, s.0, j) <= 0);
        }
        if s.0 > k0 {
            assert(needs[k0] - room_sent(ts, r, needs, k0, j) <= 0);
        }
        assert(s.0 == k0);
    }
    if forall|k: int| 0 <= k < 3 ==> needs[k] - #[trigger] room_sent(ts, r, needs, k, j) <= 0 {
        if s.0 < 3 {
            assert(needs[s.0] - room_sent(ts, r, needs, s.0, j) <= 0);
        }
    }
}

// ---------------------------------------------------------------- planting bananas

/// The trolls after `assign_plant_bananas`: where bananas are missing in the area, every troll
/// carrying bananas is sent to plant them; where more are missing than are carried, so is every
/// polyvalent troll or peasant that carries nothing; no other troll is changed.
pub proof fn law_bananas_go_to_idle_planters(g: Grid, area: i32, required: i32, ts: Seq<Troll>, k: int)
    requires
        0 <= k < ts.len(),
    ensures
        ({
            let missing = required - g.census(g.shack_area(area), Fruit::Banana);
            let r = g.bananas_assigned(area, required, ts);
            let carrier = ts[k].items@[BANANA as int] > 0;
            let idle = (ts[k].class == TrollType::Poly || ts[k].class == TrollType::Peasant) && ts[k].carried() == 0;
            &&& r.len() == ts.len()
            &&& missing <= 0 ==> r[k] == ts[k]
            &&& missing > 0 && carrier ==> r[k] == targeted(ts[k], PLANT_BANANA)
            &&& missing > 0 && missing - carried_sum(ts, BANANA as int) > 0 && idle
                ==> r[k] == targeted(ts[k], PLANT_BANANA)
            &&& !carrier && !(missing > 0 && missing - carried_sum(ts, BANANA as int) > 0 && idle) ==> r[k] == ts[k]
        }),
{
    let ts1 = crate::planning::mark_carriers(ts, BANANA as int, PLANT_BANANA);
    lemma_carried_sum_marked(ts, BANANA as int, PLANT_BANANA);
    assert(ts1[k].class == ts[k].class && ts1[k].items@ == ts[k].items@);
    assert(ts1[k].carried() == ts[k].carried());
}

/// Marking the carriers of item `k` keeps what each troll carries of it.
proof fn lemma_carried_sum_marked(ts: Seq<Troll>, k: int, o: usize)
    ensures
        carried_sum(crate::planning::mark_carriers(ts, k, o), k) == carried_sum(ts, k),
    decreases ts.len(),
{
    if ts.len() > 0 {
        let m = crate::planning::mark_carriers(ts, k, o);
        lemma_carried_sum_marked(ts.drop_last(), k, o);
        assert(m.drop_last() =~= crate::planning::mark_carriers(ts.drop_last(), k, o));
        assert(m.last().items@ == ts.last().items@);
    }
}

// ---------------------------------------------------------------- thieves

/// A thief (a miner, or a polyvalent troll not full of iron or wood, whose objective is to
/// steal) drops what it carries on a drop tile; elsewhere, full and closer to our shack than
/// to the enemy's, it heads for the closest walkable drop tile; otherwise it acts as a griefer.
pub proof fn law_thief_brings_load_home(t: Troll, grid: Grid, trees: Seq<Tree>, inv: Inventory)
    requires
        t.objective == THIEF,
        t.class == TrollType::Miner || (t.class == TrollType::Poly
            && !(t.full() && (t.items@[IRON as int] > 0 || t.items@[WOOD as int] > 0))),
    ensures
        ({
            let on_drop = grid.drop_positions@.contains(t.pos()) && t.carried() > 0;
            let home = t.charac@[crate::consts::CAPA as int] == t.carried()
                && dist(t.pos(), grid.enemy_shack_position) > dist(t.pos(), grid.shack_position);
            &&& on_drop ==> t.act_out(grid, trees, inv).0 == Some(id_cmd("DROP"@, t.id))
            &&& !on_drop && home ==> t.act_out(grid, trees, inv).0 == t.drop_target(grid)
            &&& !on_drop && !home ==> t.act_out(grid, trees, inv).0 == t.griefer_out(grid, trees)
        }),
{
}

// ---------------------------------------------------------------- miners turned thieves

/// Planting rounds leave a troll that carries something, but no fruit, as it is.
proof fn lemma_plant_rounds_keep(ts: Seq<Troll>, needs: Seq<int>, n: int, j: int)
    requires
        0 <= j < ts.len(),
        n <= 4,
        ts[j].carried() != 0,
        forall|f: int| 0 <= f < 4 ==> #[trigger] ts[j].items@[f] <= 0,
    ensures
        plant_rounds(ts, needs, n).len() == ts.len(),
        plant_rounds(ts, needs, n)[j] == ts[j],
    decreases n,
{
    if n > 0 {
        lemma_plant_rounds_keep(ts, needs, n - 1, j);
        let prev = plant_rounds(ts, needs, n - 1);
        let k = n - 1;
        let m = mark_carriers(prev, k, (k + 7) as usize);
        assert(m[j] == prev[j]);
        lemma_mark_empty_keep(m, (k + 7) as usize, needs[k] - carried_sum(prev, k), j);
    }
}

/// `mark_empty` leaves a troll that carries something as it is.
proof fn lemma_mark_empty_keep(ts: Seq<Troll>, o: usize, n: int, j: int)
    requires
        0 <= j < ts.len(),
        ts[j].carried() != 0,
    ensures
        mark_empty(ts, o, n).len() == ts.len(),
        mark_empty(ts, o, n)[j] == ts[j],
    decreases ts.len(),
{
    let rest = ts.drop_first();
    if j == 0 {
        lemma_mark_empty_len(rest, o, if n > 0 && ts[0].carried() == 0 { n - 1 } else { n });
    } else {
        let n2 = if n > 0 && ts[0].carried() == 0 { n - 1 } else { n };
        assert(rest[j - 1] == ts[j]);
        lemma_mark_empty_keep(rest, o, n2, j - 1);
        assert(mark_empty(ts, o, n)[j] == mark_empty(rest, o, n2)[j - 1]);
    }
}

proof fn lemma_mark_empty_len(ts: Seq<Troll>, o: usize, n: int)
    ensures
        mark_empty(ts, o, n).len() == ts.len(),
    decreases ts.len(),
{
    if ts.len() > 0 {
        lemma_mark_empty_len(ts.drop_first(), o, if n > 0 && ts[0].carried() == 0 { n - 1 } else { n });
    }
}

/// The turn of the middle of a game on a map with distant shacks turns miners into thieves
/// exactly where the stock holds the iron a choper costs (its chopping power, 3, squared, plus
/// the number of trolls): then every miner carrying something, but no fruit, leaves the turn
/// with the objective to steal; otherwise such a miner leaves the turn as it came.
pub proof fn law_miners_steal_once_iron_suffices(
    inv: Inventory,
    d: GameStateDistant,
    round: i32,
    grid: Grid,
    ts: Seq<Troll>,
    k: int,
)
    requires
        distant_phase(d, round) is Mid,
        ts.len() + 9 <= i32::MAX,
        0 <= k < ts.len(),
        ts[k].class == TrollType::Miner,
        ts[k].carried() != 0,
        forall|f: int| 0 <= f < 4 ==> #[trigger] ts[k].items@[f] <= 0,
    ensures
        distant_step(inv, d, round, grid, ts).1.len() == ts.len(),
        inv.resources@[IRON as int] >= ts.len() + 9 ==> distant_step(inv, d, round, grid, ts).1[k]
            == (Troll { objective: THIEF, assigned: true, ..ts[k] }),
        inv.resources@[IRON as int] < ts.len() + 9 ==> distant_step(inv, d, round, grid, ts).1[k] == ts[k],
{
    let n = ts.len() as i32;
    let cost = cost_seq(TrollType::Choper, n);
    assert(need_of(TrollType::Choper)[3] == 3);
    assert(cost[IRON as int] == ts.len() + 9);
    let ts1 = crate::strategy::miners_to_thieves(inv, cost, ts);
    let t1 = ts1[k];
    assert(t1.class == TrollType::Miner && t1.items@ == ts[k].items@ && t1.carried() == ts[k].carried());
    assert(inv.resources@[IRON as int] >= ts.len() + 9 ==> t1 == targeted(ts[k], THIEF));
    assert(inv.resources@[IRON as int] < ts.len() + 9 ==> t1 == ts[k]);
    let ts2 = train_or_ask(inv, need_of(TrollType::Choper), cost, ts1).1;
    let needs = inv.needs_for(cost);
    if !inv.covers(cost) {
        let start = settle(needs, 0, needs[0] as int);
        lemma_settle_wanted(needs, 0, needs[0] as int);
        lemma_distribute_shape(send_to_mine(ts1, needs), needs, start.0, start.1, k);
        assert(send_to_mine(ts1, needs)[k] == t1);
    }
    assert(ts2.len() == ts.len() && ts2[k] == t1);
    let ts3 = grid.bananas_assigned(4, 3, ts2);
    assert(mark_carriers(ts2, BANANA as int, PLANT_BANANA)[k] == t1);
    assert(ts3.len() == ts.len() && ts3[k] == t1);
    let req = seq![2i32, 2, 2, 0];
    if !grid.nothing_missing(4, req) {
        lemma_plant_rounds_keep(ts3, grid.plant_needs(4, req), 4, k);
    }
    assert(crate::strategy::after_plants(grid, req, ts3)[k] == t1);
}

} // verus!
