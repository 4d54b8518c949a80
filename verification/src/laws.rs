use vstd::prelude::*;
use crate::fruit::{Fruit, fruit_name, fruit_index, fruit_of, is_fruit_name, names_fruit};
use crate::troll::{Troll, TrollType, type_index, type_at};
use crate::inventory::{Inventory, targeted, shortfall};
use crate::strategy::{
    GameStateNear, GameStateDistant, near_index, near_at, near_updated, distant_index, distant_at,
    distant_updated, near_step, distant_step, distant_phase,
};
use crate::util::dist;

verus! {

/// The distance between two positions does not depend on their order, and is zero exactly
/// between a position and itself.
pub proof fn law_dist_symmetric(a: (i32, i32), b: (i32, i32))
    ensures
        dist(a, b) == dist(b, a),
        dist(a, b) >= 0,
        dist(a, b) == 0 <==> a == b,
{
}

/// Giving a troll an objective keeps everything else about it, and the last objective given
/// is the one it keeps.
pub proof fn law_target_last_wins(t: Troll, first: usize, second: usize)
    ensures
        targeted(targeted(t, first), second) == targeted(t, second),
        targeted(t, first).id == t.id && targeted(t, first).pos() == t.pos(),
        targeted(t, first).items == t.items && targeted(t, first).charac == t.charac,
        targeted(t, first).class == t.class,
        targeted(t, first).objective == first && targeted(t, first).assigned,
{
}

/// A fruit's item index names it back, and so does its name.
pub proof fn law_fruit_round_trip(f: Fruit, g: Fruit)
    ensures
        names_fruit(fruit_index(f)),
        fruit_of(fruit_index(f)) == f,
        is_fruit_name(fruit_name(f)),
        fruit_name(f) == fruit_name(g) ==> f == g,
{
    reveal_strlit("PLUM");
    reveal_strlit("LEMON");
    reveal_strlit("APPLE");
    reveal_strlit("BANANA");
    if f != g {
        assert(fruit_name(f).len() != fruit_name(g).len() || fruit_name(f)[0] != fruit_name(g)[0]);
    }
}

/// A role's ratio index gives the role back.
pub proof fn law_role_round_trip(t: TrollType)
    ensures
        type_index(t) < 5,
        type_at(type_index(t)) == t,
{
}

/// The phases of a game never go back: the turn's check keeps the phase or moves on to the
/// next one, and a phase's number gives the phase back, freshly entered.
pub proof fn law_phases_move_forward(n: GameStateNear, d: GameStateDistant)
    ensures
        near_index(near_updated(n)) == near_index(n) || near_index(near_updated(n)) == near_index(n) + 1,
        distant_index(distant_updated(d)) == distant_index(d) || distant_index(distant_updated(d)) == distant_index(d) + 1,
        near_index(near_at(near_index(n) as int)) == near_index(n),
        distant_index(distant_at(distant_index(d) as int)) == distant_index(d),
{
}

/// A turn of either strategy never takes the game back to an earlier phase.
pub proof fn law_strategies_move_forward(
    inv: Inventory,
    n: GameStateNear,
    d: GameStateDistant,
    round: i32,
    grid: crate::board::Grid,
    ts: Seq<Troll>,
)
    ensures
        near_index(near_step(inv, n, ts).0) >= near_index(n),
        distant_index(distant_step(inv, d, round, grid, ts).0) >= distant_index(d),
        round == 280 ==> distant_step(inv, d, round, grid, ts).0 == GameStateDistant::CutAll,
{
}

/// What the stock lacks is never negative, and added to the stock it reaches the target;
/// the stock covers a target exactly where it holds at least as much of everything.
pub proof fn law_needs_fill_the_gap(inv: Inventory, target: Seq<i32>, k: int)
    requires
        0 <= k < 6,
        target.len() == 6,
    ensures
        shortfall(inv.resources@, target, k) >= 0,
        inv.resources@[k] + shortfall(inv.resources@, target, k) >= target[k],
        inv.covers(target) <==> forall|j: int| 0 <= j < 6 ==> #[trigger] inv.resources@[j] >= target[j],
{
    if inv.covers(target) {
        assert forall|j: int| 0 <= j < 6 implies #[trigger] inv.resources@[j] >= target[j] by {
            assert(shortfall(inv.resources@, target, j) == 0);
        }
    }
    if forall|j: int| 0 <= j < 6 ==> #[trigger] inv.resources@[j] >= target[j] {
        assert forall|j: int| 0 <= j < 6 implies #[trigger] shortfall(inv.resources@, target, j) == 0 by {
            assert(inv.resources@[j] >= target[j]);
        }
    }
}

} // verus!

verus! {

proof fn lemma_dec_nat_digits(m: nat)
    ensures
        crate::parse::all_digits(crate::text::dec_nat(m)),
        crate::parse::digits_val(crate::text::dec_nat(m)) == m,
        crate::text::dec_nat(m).len() >= 1,
        crate::parse::is_digit(crate::text::dec_nat(m)[0]),
    decreases m,
{
    let s = crate::text::dec_nat(m);
    if m < 10 {
        assert(s == seq![crate::text::digit_char(m as int)]);
        assert(s.drop_last() == Seq::<char>::empty());
        assert(crate::text::digit_char(m as int) as int == 48 + m);
        assert(s.last() == crate::text::digit_char(m as int));
        assert(crate::parse::digits_val(s) == crate::parse::digits_val(s.drop_last()) * 10 + (s.last() as int - 48));
    } else {
        lemma_dec_nat_digits(m / 10);
        let r = crate::text::dec_nat(m / 10);
        assert(s == r.push(crate::text::digit_char((m % 10) as int)));
        assert(s.drop_last() == r);
        assert(s[0] == r[0]);
        assert forall|k: int| 0 <= k < s.len() implies crate::parse::is_digit(#[trigger] s[k]) by {
            if k < r.len() {
                assert(s[k] == r[k]);
            }
        }
        assert((m / 10) * 10 + m % 10 == m);
        assert(crate::text::digit_char((m % 10) as int) as int == 48 + m % 10);
        assert(s.last() == crate::text::digit_char((m % 10) as int));
        assert(crate::parse::digits_val(s) == crate::parse::digits_val(s.drop_last()) * 10 + (s.last() as int - 48));
    }
}

proof fn lemma_trim_plain(s: Seq<char>)
    requires
        s.len() >= 1,
        !crate::parse::is_ws(s[0]),
        !crate::parse::is_ws(s.last()),
    ensures
        crate::parse::trim(s) == s,
{
    assert(crate::parse::trim_start(s) == s);
}

/// A number the commands write is read back by the field parser: the decimal rendering of
/// any `i32` parses to that `i32`, also amid the white space a field may hold.
pub proof fn law_written_numbers_read_back(n: i32)
    ensures
        crate::parse::parse_int(crate::text::dec(n as int)) == Some(n as int),
        crate::parse::field(crate::text::dec(n as int)) == Some(n as int),
{
    let s = crate::text::dec(n as int);
    if n < 0 {
        let m = (-(n as int)) as nat;
        lemma_dec_nat_digits(m);
        let d = crate::text::dec_nat(m);
        assert(s == seq!['-'] + d);
        assert(s[0] == '-');
        assert(s.drop_first() == d);
        assert(s.last() == d.last());
        assert(crate::parse::is_digit(d[d.len() - 1]));
        lemma_trim_plain(s);
    } else {
        let m = n as nat;
        lemma_dec_nat_digits(m);
        assert(crate::parse::is_digit(s[s.len() - 1]));
        lemma_trim_plain(s);
    }
}

} // verus!

verus! {

/// `c` is a command for the troll `id`: a verb, the troll's id, and possibly more.
pub open spec fn command_for(c: Seq<char>, id: i32) -> bool {
    exists|verb: Seq<char>, rest: Seq<char>| c == #[trigger] verb_id_rest(verb, id, rest)
}

/// A verb, the troll's id, then `rest`.
pub open spec fn verb_id_rest(verb: Seq<char>, id: i32, rest: Seq<char>) -> Seq<char> {
    crate::text::with_arg(verb, id as int) + rest
}

/// An optional command is, where there is one, a command for the troll `id`.
pub open spec fn order_for(o: Option<Seq<char>>, id: i32) -> bool {
    o matches Some(c) ==> command_for(c, id)
}

/// `b` is `a`, or `a` given some objective.
pub open spec fn same_but_task(a: Troll, b: Troll) -> bool {
    b == a || exists|o: usize| b == #[trigger] targeted(a, o)
}

proof fn lemma_id_cmd(verb: Seq<char>, id: i32)
    ensures
        command_for(crate::troll::id_cmd(verb, id), id),
{
    let c = crate::troll::id_cmd(verb, id);
    assert(c == verb_id_rest(verb, id, Seq::<char>::empty()));
}

proof fn lemma_fruit_cmd(verb: Seq<char>, id: i32, f: Fruit)
    ensures
        command_for(crate::troll::fruit_cmd(verb, id, f), id),
{
    let c = crate::troll::fruit_cmd(verb, id, f);
    assert(c =~= verb_id_rest(verb, id, seq![' '] + fruit_name(f)));
}

proof fn lemma_move_cmd(id: i32, x: i32, y: i32)
    ensures
        command_for(crate::troll::move_cmd(id, x, y), id),
{
    let c = crate::troll::move_cmd(id, x, y);
    let rest = seq![' '] + crate::text::dec(x as int) + seq![' '] + crate::text::dec(y as int);
    assert(c =~= verb_id_rest("MOVE"@, id, rest));
}

proof fn lemma_drop_target(t: Troll, grid: crate::board::Grid)
    ensures
        order_for(t.drop_target(grid), t.id),
{
    let ds = grid.drop_positions@;
    if let Some(i) = crate::util::first_min_at(ds, grid.open_drop(), crate::tactics::pos_dist_from(t.pos())) {
        lemma_move_cmd(t.id, ds[i].0, ds[i].1);
    }
}

proof fn lemma_move_to(id: i32, p: Option<(i32, i32)>)
    ensures
        order_for(crate::tactics::move_to(id, p), id),
{
    if let Some(q) = p {
        lemma_move_cmd(id, q.0, q.1);
    }
}

proof fn lemma_tree_move(id: i32, o: Option<(int, crate::fruit::Tree)>)
    ensures
        order_for(crate::behaviour::tree_move(id, o), id),
{
    if let Some((_, tr)) = o {
        lemma_move_cmd(id, tr.x, tr.y);
    }
}

proof fn lemma_harvester(t: Troll, g: crate::board::Grid, trees: Seq<crate::fruit::Tree>)
    ensures
        order_for(t.harvester_out(g, trees), t.id),
{
    lemma_id_cmd("DROP"@, t.id);
    lemma_id_cmd("HARVEST"@, t.id);
    lemma_drop_target(t, g);
    lemma_tree_move(t.id, t.harvest_target(trees));
}

proof fn lemma_griefer(t: Troll, g: crate::board::Grid, trees: Seq<crate::fruit::Tree>)
    ensures
        order_for(t.griefer_out(g, trees), t.id),
        order_for(t.thief_out(g, trees), t.id),
        order_for(t.thief_no_waste_out(g, trees), t.id),
{
    lemma_id_cmd("CHOP"@, t.id);
    lemma_id_cmd("DROP"@, t.id);
    lemma_drop_target(t, g);
    lemma_move_to(t.id, g.grief_walk_target(trees));
}

proof fn lemma_choper(t: Troll, g: crate::board::Grid, trees: Seq<crate::fruit::Tree>)
    ensures
        order_for(t.choper_out(g, trees), t.id),
        order_for(t.miner_out(g, trees), t.id),
{
    lemma_griefer(t, g, trees);
    lemma_id_cmd("CHOP"@, t.id);
    lemma_id_cmd("MINE"@, t.id);
    lemma_move_cmd(t.id, g.mine_position.0, g.mine_position.1);
    lemma_tree_move(t.id, t.cut_target(g, trees));
}

proof fn lemma_planter(t: Troll, g: crate::board::Grid, trees: Seq<crate::fruit::Tree>, inv: Inventory)
    ensures
        order_for(t.planter_out(g, trees, inv).0, t.id),
        same_but_task(t, t.planter_out(g, trees, inv).1),
{
    lemma_fruit_cmd("PICK"@, t.id, t.planted());
    lemma_fruit_cmd("PLANT"@, t.id, t.plant_fruit_of());
    lemma_id_cmd("HARVEST"@, t.id);
    lemma_drop_target(t, g);
    lemma_move_to(t.id, g.nearest_free(4));
    let a = targeted(t, crate::consts::ANY);
    lemma_harvester(a, g, trees);
    match t.shorter_fruit(trees, t.planted()) {
        Some((_, tr)) => lemma_move_cmd(t.id, tr.x, tr.y),
        None => {},
    }
    if let Some(p) = g.nearest_free(4) {
        lemma_move_cmd(t.id, p.0, p.1);
    }
    if t.planter_step(g, trees, inv) is None {
        assert(t.planter_out(g, trees, inv).1 == a);
    }
}

proof fn lemma_peasant(t: Troll, g: crate::board::Grid, trees: Seq<crate::fruit::Tree>, inv: Inventory)
    ensures
        order_for(t.peasant_out(g, trees, inv).0, t.id),
        same_but_task(t, t.peasant_out(g, trees, inv).1),
{
    lemma_harvester(t, g, trees);
    lemma_planter(t, g, trees, inv);
    lemma_choper(t, g, trees);
}

proof fn lemma_banana_tricks(t: Troll, g: crate::board::Grid, trees: Seq<crate::fruit::Tree>, inv: Inventory)
    ensures
        order_for(t.banana_tricks_out(g, trees, inv).0, t.id),
        same_but_task(t, t.banana_tricks_out(g, trees, inv).1),
{
    lemma_fruit_cmd("PLANT"@, t.id, Fruit::Banana);
    lemma_id_cmd("DROP"@, t.id);
    lemma_drop_target(t, g);
    let c = targeted(t, crate::consts::CUT_ALL);
    lemma_choper(c, g, trees);
}

/// Whatever a troll does, the command it gives names it, and acting changes nothing about it
/// but, at most, its objective.
pub proof fn law_orders_name_the_troll(t: Troll, g: crate::board::Grid, trees: Seq<crate::fruit::Tree>, inv: Inventory)
    ensures
        order_for(t.act_out(g, trees, inv).0, t.id),
        same_but_task(t, t.act_out(g, trees, inv).1),
{
    lemma_harvester(t, g, trees);
    lemma_griefer(t, g, trees);
    lemma_choper(t, g, trees);
    lemma_peasant(t, g, trees, inv);
    lemma_banana_tricks(t, g, trees, inv);
    lemma_id_cmd("DROP"@, t.id);
    lemma_drop_target(t, g);
}

} // verus!

verus! {

/// `b` holds the trolls of `a`, in order, each at most given an objective.
pub open spec fn reassigned(a: Seq<Troll>, b: Seq<Troll>) -> bool {
    a.len() == b.len() && forall|k: int| 0 <= k < a.len() ==> same_but_task(a[k], #[trigger] b[k])
}

proof fn lemma_same_trans(a: Troll, b: Troll, c: Troll)
    requires
        same_but_task(a, b),
        same_but_task(b, c),
    ensures
        same_but_task(a, c),
{
    if b != a {
        let o1 = choose|o: usize| b == targeted(a, o);
        if c != b {
            let o2 = choose|o: usize| c == targeted(b, o);
            assert(c == targeted(a, o2));
        }
    }
}

pub(crate) proof fn lemma_reassigned_trans(a: Seq<Troll>, b: Seq<Troll>, c: Seq<Troll>)
    requires
        reassigned(a, b),
        reassigned(b, c),
    ensures
        reassigned(a, c),
{
    assert forall|k: int| 0 <= k < a.len() implies same_but_task(a[k], #[trigger] c[k]) by {
        assert(same_but_task(a[k], b[k]));
        assert(same_but_task(b[k], c[k]));
        lemma_same_trans(a[k], b[k], c[k]);
    }
}

proof fn lemma_targeted_same(t: Troll, o: usize)
    ensures
        same_but_task(t, targeted(t, o)),
{
    assert(targeted(t, o) == targeted(t, o));
}

pub(crate) proof fn lemma_map_reassigned(ts: Seq<Troll>, sel: spec_fn(Troll) -> bool, o: usize)
    ensures
        reassigned(ts, crate::strategy::retarget(ts, sel, o)),
        reassigned(ts, crate::planning::mark_all(ts, sel, o)),
{
    assert forall|k: int| 0 <= k < ts.len() implies same_but_task(ts[k], #[trigger] crate::strategy::retarget(ts, sel, o)[k]) by {
        lemma_targeted_same(ts[k], o);
    }
    assert forall|k: int| 0 <= k < ts.len() implies same_but_task(ts[k], #[trigger] crate::planning::mark_all(ts, sel, o)[k]) by {
        lemma_targeted_same(ts[k], o);
    }
}

pub(crate) proof fn lemma_mark_carriers(ts: Seq<Troll>, i: int, o: usize)
    ensures
        reassigned(ts, crate::planning::mark_carriers(ts, i, o)),
{
    assert forall|k: int| 0 <= k < ts.len() implies same_but_task(ts[k], #[trigger] crate::planning::mark_carriers(ts, i, o)[k]) by {
        lemma_targeted_same(ts[k], o);
    }
}

proof fn lemma_cons_reassigned(a: Troll, b: Troll, s: Seq<Troll>, r: Seq<Troll>)
    requires
        same_but_task(a, b),
        reassigned(s, r),
    ensures
        reassigned(seq![a] + s, seq![b] + r),
{
    let x = seq![a] + s;
    let y = seq![b] + r;
    assert forall|k: int| 0 <= k < x.len() implies same_but_task(x[k], #[trigger] y[k]) by {
        if k > 0 {
            assert(x[k] == s[k - 1]);
            assert(y[k] == r[k - 1]);
        }
    }
}

proof fn lemma_distribute(ts: Seq<Troll>, needs: Seq<i32>, idx: int, nb: int)
    ensures
        reassigned(ts, crate::inventory::distribute(ts, needs, idx, nb)),
    decreases ts.len(),
{
    if ts.len() > 0 {
        assert(ts == seq![ts[0]] + ts.drop_first());
        if idx >= 3 || !crate::inventory::fetcher(ts[0]) {
            lemma_distribute(ts.drop_first(), needs, idx, nb);
            lemma_cons_reassigned(ts[0], ts[0], ts.drop_first(), crate::inventory::distribute(ts.drop_first(), needs, idx, nb));
        } else {
            let next = crate::inventory::settle(needs, idx, nb - ts[0].room());
            lemma_distribute(ts.drop_first(), needs, next.0, next.1);
            lemma_targeted_same(ts[0], idx as usize);
            lemma_cons_reassigned(ts[0], targeted(ts[0], idx as usize), ts.drop_first(),
                crate::inventory::distribute(ts.drop_first(), needs, next.0, next.1));
        }
    }
}

pub(crate) proof fn lemma_asked(ts: Seq<Troll>, needs: Seq<i32>)
    ensures
        reassigned(ts, crate::inventory::asked(ts, needs)),
{
    let ts1 = crate::inventory::send_to_mine(ts, needs);
    assert(reassigned(ts, ts1)) by {
        if needs[crate::consts::IRON as int] > 0 {
            assert forall|k: int| 0 <= k < ts.len() implies same_but_task(ts[k], #[trigger] ts1[k]) by {
                lemma_targeted_same(ts[k], crate::consts::IRON);
            }
        }
    }
    let start = crate::inventory::settle(needs, 0, needs[0] as int);
    lemma_distribute(ts1, needs, start.0, start.1);
    lemma_reassigned_trans(ts, ts1, crate::inventory::asked(ts, needs));
}

proof fn lemma_mark_empty(ts: Seq<Troll>, o: usize, n: int)
    ensures
        reassigned(ts, crate::planning::mark_empty(ts, o, n)),
    decreases ts.len(),
{
    if ts.len() > 0 {
        assert(ts == seq![ts[0]] + ts.drop_first());
        if n > 0 && ts[0].carried() == 0 {
            lemma_mark_empty(ts.drop_first(), o, n - 1);
            lemma_targeted_same(ts[0], o);
            lemma_cons_reassigned(ts[0], targeted(ts[0], o), ts.drop_first(), crate::planning::mark_empty(ts.drop_first(), o, n - 1));
        } else {
            lemma_mark_empty(ts.drop_first(), o, n);
            lemma_cons_reassigned(ts[0], ts[0], ts.drop_first(), crate::planning::mark_empty(ts.drop_first(), o, n));
        }
    }
}

pub(crate) proof fn lemma_plant_rounds(ts: Seq<Troll>, needs: Seq<int>, n: int)
    ensures
        reassigned(ts, crate::planning::plant_rounds(ts, needs, n)),
    decreases n,
{
    if n > 0 {
        lemma_plant_rounds(ts, needs, n - 1);
        let prev = crate::planning::plant_rounds(ts, needs, n - 1);
        let k = n - 1;
        let o = (k + 7) as usize;
        let m = crate::planning::mark_carriers(prev, k, o);
        lemma_mark_carriers(prev, k, o);
        lemma_mark_empty(m, o, needs[k] - crate::planning::carried_sum(prev, k));
        lemma_reassigned_trans(prev, m, crate::planning::plant_round(prev, k, needs[k]));
        lemma_reassigned_trans(ts, prev, crate::planning::plant_round(prev, k, needs[k]));
    }
}

pub(crate) proof fn lemma_after_plants(g: crate::board::Grid, req: Seq<i32>, ts: Seq<Troll>)
    ensures
        reassigned(ts, crate::strategy::after_plants(g, req, ts)),
{
    lemma_plant_rounds(ts, g.plant_needs(4, req), 4);
}

pub(crate) proof fn lemma_bananas(g: crate::board::Grid, area: i32, req: i32, ts: Seq<Troll>)
    ensures
        reassigned(ts, g.bananas_assigned(area, req, ts)),
{
    let ts1 = crate::planning::mark_carriers(ts, crate::consts::BANANA as int, crate::consts::PLANT_BANANA);
    lemma_mark_carriers(ts, crate::consts::BANANA as int, crate::consts::PLANT_BANANA);
    lemma_map_reassigned(ts1, |t: Troll| crate::planning::idle_planter(t), crate::consts::PLANT_BANANA);
    lemma_reassigned_trans(ts, ts1, crate::planning::mark_all(ts1, |t: Troll| crate::planning::idle_planter(t), crate::consts::PLANT_BANANA));
}

pub(crate) proof fn lemma_train_or_ask(inv: Inventory, charac: Seq<i32>, cost: Seq<i32>, ts: Seq<Troll>)
    ensures
        reassigned(ts, crate::strategy::train_or_ask(inv, charac, cost, ts).1),
{
    lemma_asked(ts, inv.needs_for(cost));
}

/// The strategies only hand out objectives: after a turn of either, the trolls are the same,
/// in the same order, each at most given an objective.
pub proof fn law_strategies_only_reassign(
    inv: Inventory,
    n: GameStateNear,
    d: GameStateDistant,
    round: i32,
    g: crate::board::Grid,
    ts: Seq<Troll>,
)
    ensures
        reassigned(ts, near_step(inv, n, ts).1),
        reassigned(ts, distant_step(inv, d, round, g, ts).1),
{
    // Close shacks.
    lemma_train_or_ask(inv, crate::strategy::near_charac(), crate::strategy::near_cost(), ts);
    lemma_map_reassigned(ts, |t: Troll| t.class == TrollType::Choper, crate::consts::THIEF_NO_WASTE);
    assert forall|k: int| 0 <= k < ts.len() implies same_but_task(ts[k], #[trigger] crate::strategy::near_end_trolls(ts)[k]) by {
        lemma_targeted_same(ts[k], crate::consts::THIEF_NO_WASTE);
        lemma_targeted_same(ts[k], crate::consts::BANANA_TRICKS);
    }
    // Distant shacks.
    let s = distant_phase(d, round);
    let cnt = ts.len() as i32;
    match s {
        GameStateDistant::Start(pt, _) => {
            if !pt {
                let c = crate::strategy::cost_seq(TrollType::Peasant, cnt);
                let r = crate::strategy::train_or_ask(inv, crate::troll::need_of(TrollType::Peasant), c, ts);
                lemma_train_or_ask(inv, crate::troll::need_of(TrollType::Peasant), c, ts);
                lemma_after_plants(g, seq![1i32, 1, 1, 0], r.1);
                lemma_reassigned_trans(ts, r.1, crate::strategy::after_plants(g, seq![1i32, 1, 1, 0], r.1));
            } else {
                lemma_after_plants(g, seq![2i32, 2, 2, 1], ts);
            }
        },
        GameStateDistant::Early(mt, _) => {
            let role = crate::strategy::early_role(mt);
            let c = crate::strategy::cost_seq(role, cnt);
            let r = crate::strategy::train_or_ask(inv, crate::troll::need_of(role), c, ts);
            lemma_train_or_ask(inv, crate::troll::need_of(role), c, ts);
            lemma_after_plants(g, seq![2i32, 2, 2, 1], r.1);
            lemma_reassigned_trans(ts, r.1, crate::strategy::after_plants(g, seq![2i32, 2, 2, 1], r.1));
        },
        GameStateDistant::Mid(_) => {
            let c = crate::strategy::cost_seq(TrollType::Choper, cnt);
            let ts1 = crate::strategy::miners_to_thieves(inv, c, ts);
            lemma_map_reassigned(ts, crate::strategy::of_classes(TrollType::Miner, TrollType::Miner), crate::consts::THIEF);
            let ts2 = crate::strategy::train_or_ask(inv, crate::troll::need_of(TrollType::Choper), c, ts1).1;
            lemma_train_or_ask(inv, crate::troll::need_of(TrollType::Choper), c, ts1);
            let ts3 = g.bananas_assigned(4, 3, ts2);
            lemma_bananas(g, 4, 3, ts2);
            lemma_after_plants(g, seq![2i32, 2, 2, 0], ts3);
            lemma_reassigned_trans(ts, ts1, ts2);
            lemma_reassigned_trans(ts, ts2, ts3);
            lemma_reassigned_trans(ts, ts3, crate::strategy::after_plants(g, seq![2i32, 2, 2, 0], ts3));
        },
        GameStateDistant::End => {
            lemma_map_reassigned(ts, crate::strategy::of_classes(TrollType::Poly, TrollType::Miner), crate::consts::THIEF);
        },
        GameStateDistant::CutAll => {
            lemma_map_reassigned(ts, |t: Troll| true, crate::consts::CUT_ALL);
        },
    }
}

} // verus!

verus! {

proof fn lemma_ring_upto_has(pos: (i32, i32), d: int, n: int, xd: int, p: (i32, i32))
    requires
        0 <= xd < n,
        crate::astar::ring_part(pos, d, xd).contains(p),
    ensures
        crate::astar::ring_upto(pos, d, n).contains(p),
    decreases n,
{
    let a = crate::astar::ring_upto(pos, d, n - 1);
    let b = crate::astar::ring_part(pos, d, n - 1);
    if xd == n - 1 {
        let j = choose|j: int| 0 <= j < b.len() && b[j] == p;
        assert((a + b)[a.len() + j] == p);
    } else {
        lemma_ring_upto_has(pos, d, n - 1, xd, p);
        let j = choose|j: int| 0 <= j < a.len() && a[j] == p;
        assert((a + b)[j] == p);
    }
}

proof fn lemma_neigh_has(pos: (i32, i32), k: int, d: int, p: (i32, i32))
    requires
        1 <= d <= k,
        crate::astar::ring(pos, d).contains(p),
    ensures
        crate::astar::neigh(pos, k).contains(p),
    decreases k,
{
    let a = crate::astar::neigh(pos, k - 1);
    let b = crate::astar::ring(pos, k);
    if d == k {
        let j = choose|j: int| 0 <= j < b.len() && b[j] == p;
        assert((a + b)[a.len() + j] == p);
    } else {
        lemma_neigh_has(pos, k - 1, d, p);
        let j = choose|j: int| 0 <= j < a.len() && a[j] == p;
        assert((a + b)[j] == p);
    }
}

/// The search's moves reach exactly the positions one to `speed` steps away: every position
/// that `get_neigh` lists is such a position, and every such position is listed.
pub proof fn law_neighbours_are_the_reach(pos: (i32, i32), speed: i32, p: (i32, i32))
    requires
        speed >= 1 ==> crate::astar::reach_ok(pos, speed as int),
    ensures
        crate::astar::neigh(pos, speed as int).contains(p) <==> 1 <= dist(p, pos) <= speed,
{
    crate::astar::lemma_neigh_steps(pos, speed as int);
    if 1 <= dist(p, pos) <= speed {
        let d = dist(p, pos);
        let dx = p.0 - pos.0;
        let dy = p.1 - pos.1;
        let xd = if dx < 0 { -dx } else { dx };
        let yd = d - xd;
        let part = crate::astar::ring_part(pos, d, xd);
        if dx <= 0 && dy <= 0 {
            assert(part[0] == p);
        } else if dx >= 0 && dy >= 0 {
            assert(part[1] == p);
        } else if dx < 0 {
            assert(part[2] == p);
        } else {
            assert(part[3] == p);
        }
        lemma_ring_upto_has(pos, d, d + 1, xd, p);
        lemma_neigh_has(pos, speed as int, d, p);
    }
}

} // verus!

verus! {

/// The first character of a command (a space for an empty one).
pub open spec fn initial(c: Seq<char>) -> char {
    if c.len() > 0 { c[0] } else { ' ' }
}

/// The second character of a command (a space for a shorter one).
pub open spec fn second(c: Seq<char>) -> char {
    if c.len() > 1 { c[1] } else { ' ' }
}

/// An optional command of troll `t` keeps the game's rules: a `DROP` is given on a drop tile,
/// carrying something; a `HARVEST` standing on grass where a tree bears fruit; a `CHOP` on
/// grass where a tree stands; a `MINE` on the mine tile; a `PICK` on a drop tile, not full.
pub open spec fn lawful(o: Option<Seq<char>>, t: Troll, g: crate::board::Grid) -> bool {
    o matches Some(c) ==> {
        &&& initial(c) == 'D' ==> g.drop_positions@.contains(t.pos()) && t.carried() > 0
        &&& initial(c) == 'H' ==> g.tile(t.pos()) is Grass && crate::tactics::bearing_tree_among(g.tile(t.pos()).ents())
        &&& initial(c) == 'C' ==> g.tile(t.pos()).spec_is_a_tree()
        &&& initial(c) == 'M' && second(c) == 'I' ==> t.pos() == g.mine_position
        &&& initial(c) == 'P' && second(c) == 'I' ==> g.drop_positions@.contains(t.pos()) && !t.full()
    }
}

proof fn lemma_initials()
    ensures
        forall|id: i32, x: i32, y: i32| #[trigger] initial(crate::troll::move_cmd(id, x, y)) == 'M'
            && second(crate::troll::move_cmd(id, x, y)) == 'O',
        forall|id: i32| #[trigger] second(crate::troll::id_cmd("MINE"@, id)) == 'I',
        forall|id: i32, f: Fruit| #[trigger] second(crate::troll::fruit_cmd("PICK"@, id, f)) == 'I',
        forall|id: i32, f: Fruit| #[trigger] second(crate::troll::fruit_cmd("PLANT"@, id, f)) == 'L',
        forall|id: i32| #[trigger] initial(crate::troll::id_cmd("DROP"@, id)) == 'D',
        forall|id: i32| #[trigger] initial(crate::troll::id_cmd("HARVEST"@, id)) == 'H',
        forall|id: i32| #[trigger] initial(crate::troll::id_cmd("CHOP"@, id)) == 'C',
        forall|id: i32| #[trigger] initial(crate::troll::id_cmd("MINE"@, id)) == 'M',
        forall|id: i32, f: Fruit| #[trigger] initial(crate::troll::fruit_cmd("PICK"@, id, f)) == 'P',
        forall|id: i32, f: Fruit| #[trigger] initial(crate::troll::fruit_cmd("PLANT"@, id, f)) == 'P',
{
    reveal_strlit("MOVE");
    reveal_strlit("DROP");
    reveal_strlit("HARVEST");
    reveal_strlit("CHOP");
    reveal_strlit("MINE");
    reveal_strlit("PICK");
    reveal_strlit("PLANT");
    assert forall|v: Seq<char>, n: int| v.len() > 1 implies (#[trigger] crate::text::with_arg(v, n))[0] == v[0]
        && crate::text::with_arg(v, n)[1] == v[1] && crate::text::with_arg(v, n).len() > 1 by {
        assert(crate::text::with_arg(v, n) == v + seq![' '] + crate::text::dec(n));
    }
    assert forall|id: i32, x: i32, y: i32| #[trigger] initial(crate::troll::move_cmd(id, x, y)) == 'M'
        && second(crate::troll::move_cmd(id, x, y)) == 'O' by {
        let a = crate::text::with_arg("MOVE"@, id as int);
        let b = crate::text::with_arg(a, x as int);
        assert(a[0] == 'M' && a[1] == 'O' && a.len() > 1);
        assert(b[0] == 'M' && b[1] == 'O' && b.len() > 1);
    }
    assert forall|id: i32, f: Fruit| #[trigger] initial(crate::troll::fruit_cmd("PICK"@, id, f)) == 'P'
        && second(crate::troll::fruit_cmd("PICK"@, id, f)) == 'I' by {
        assert(crate::text::with_arg("PICK"@, id as int)[0] == 'P');
        assert(crate::text::with_arg("PICK"@, id as int)[1] == 'I');
    }
    assert forall|id: i32, f: Fruit| #[trigger] initial(crate::troll::fruit_cmd("PLANT"@, id, f)) == 'P'
        && second(crate::troll::fruit_cmd("PLANT"@, id, f)) == 'L' by {
        assert(crate::text::with_arg("PLANT"@, id as int)[0] == 'P');
        assert(crate::text::with_arg("PLANT"@, id as int)[1] == 'L');
    }
}

proof fn lemma_lawful_moves(t: Troll, g: crate::board::Grid, trees: Seq<crate::fruit::Tree>)
    ensures
        lawful(t.drop_target(g), t, g),
        lawful(crate::tactics::move_to(t.id, g.grief_walk_target(trees)), t, g),
        lawful(crate::tactics::move_to(t.id, g.nearest_free(4)), t, g),
        lawful(crate::behaviour::tree_move(t.id, t.harvest_target(trees)), t, g),
        lawful(crate::behaviour::tree_move(t.id, t.cut_target(g, trees)), t, g),
{
    lemma_initials();
    let ds = g.drop_positions@;
    if let Some(i) = crate::util::first_min_at(ds, g.open_drop(), crate::tactics::pos_dist_from(t.pos())) {
        assert(initial(crate::troll::move_cmd(t.id, ds[i].0, ds[i].1)) == 'M');
    }
    if let Some(q) = g.grief_walk_target(trees) {
        assert(initial(crate::troll::move_cmd(t.id, q.0, q.1)) == 'M');
    }
    if let Some(q) = g.nearest_free(4) {
        assert(initial(crate::troll::move_cmd(t.id, q.0, q.1)) == 'M');
    }
    if let Some((_, tr)) = t.harvest_target(trees) {
        assert(initial(crate::troll::move_cmd(t.id, tr.x, tr.y)) == 'M');
    }
    if let Some((_, tr)) = t.cut_target(g, trees) {
        assert(initial(crate::troll::move_cmd(t.id, tr.x, tr.y)) == 'M');
    }
}

proof fn lemma_harvest_here_bears(t: Troll, g: crate::board::Grid, trees: Seq<crate::fruit::Tree>)
    requires
        t.harvest_here(g, trees),
    ensures
        g.tile(t.pos()) is Grass && crate::tactics::bearing_tree_among(g.tile(t.pos()).ents()),
{
    let es = g.tile(t.pos()).ents();
    let k = choose|k: int| 0 <= k < es.len() && (#[trigger] es[k] matches crate::grid::Entity::Tree(tr) && t.harvests(tr, trees));
    assert(es[k] matches crate::grid::Entity::Tree(tr) && tr.nb_fruit > 0);
}

proof fn lemma_chop_here_tree(t: Troll, g: crate::board::Grid)
    requires
        t.chop_here(g),
    ensures
        g.tile(t.pos()).spec_is_a_tree(),
{
    let es = g.tile(t.pos()).ents();
    let k = choose|k: int| 0 <= k < es.len() && (#[trigger] es[k] matches crate::grid::Entity::Tree(tr) && t.chops(tr));
    assert(es[k] is Tree);
}

proof fn lemma_lawful_roles(t: Troll, g: crate::board::Grid, trees: Seq<crate::fruit::Tree>)
    ensures
        lawful(t.harvester_out(g, trees), t, g),
        lawful(t.griefer_out(g, trees), t, g),
        lawful(t.thief_out(g, trees), t, g),
        lawful(t.thief_no_waste_out(g, trees), t, g),
        lawful(t.choper_out(g, trees), t, g),
        lawful(t.miner_out(g, trees), t, g),
{
    lemma_initials();
    lemma_lawful_moves(t, g, trees);
    if t.harvest_here(g, trees) {
        lemma_harvest_here_bears(t, g, trees);
    }
    if t.chop_here(g) {
        lemma_chop_here_tree(t, g);
    }
    assert(lawful(t.griefer_out(g, trees), t, g));
    assert(lawful(t.thief_no_waste_out(g, trees), t, g));
}

proof fn lemma_lawful_planter(t: Troll, g: crate::board::Grid, trees: Seq<crate::fruit::Tree>, inv: Inventory)
    ensures
        lawful(t.planter_out(g, trees, inv).0, t, g),
{
    lemma_initials();
    lemma_lawful_moves(t, g, trees);
    if t.harvest_here(g, trees) {
        lemma_harvest_here_bears(t, g, trees);
    }
    match t.shorter_fruit(trees, t.planted()) {
        Some((_, tr)) => {
            assert(initial(crate::troll::move_cmd(t.id, tr.x, tr.y)) == 'M');
        },
        None => {},
    }
    if let Some(p) = g.nearest_free(4) {
        assert(initial(crate::troll::move_cmd(t.id, p.0, p.1)) == 'M');
    }
    let a = targeted(t, crate::consts::ANY);
    lemma_lawful_roles(a, g, trees);
    assert(a.pos() == t.pos() && a.carried() == t.carried());
}

/// Whatever a troll does, its command keeps the game's rules: it drops only on a drop tile
/// with something in hand, harvests only on grass where a tree bears fruit, chops only on
/// grass where a tree stands, mines only on the mine tile, and picks only on a drop tile
/// with room left.
pub proof fn law_commands_keep_the_rules(t: Troll, g: crate::board::Grid, trees: Seq<crate::fruit::Tree>, inv: Inventory)
    ensures
        lawful(t.act_out(g, trees, inv).0, t, g),
        t.act_out(g, trees, inv).0 == Some(crate::troll::id_cmd("DROP"@, t.id))
            ==> g.drop_positions@.contains(t.pos()) && t.carried() > 0,
        t.act_out(g, trees, inv).0 == Some(crate::troll::id_cmd("HARVEST"@, t.id))
            ==> g.tile(t.pos()) is Grass && crate::tactics::bearing_tree_among(g.tile(t.pos()).ents()),
        t.act_out(g, trees, inv).0 == Some(crate::troll::id_cmd("CHOP"@, t.id)) ==> g.tile(t.pos()).spec_is_a_tree(),
        t.act_out(g, trees, inv).0 == Some(crate::troll::id_cmd("MINE"@, t.id)) ==> t.pos() == g.mine_position,
{
    lemma_initials();
    lemma_lawful_roles(t, g, trees);
    lemma_lawful_planter(t, g, trees, inv);
    let c = targeted(t, crate::consts::CUT_ALL);
    lemma_lawful_roles(c, g, trees);
    assert(c.pos() == t.pos() && c.carried() == t.carried());
    assert(lawful(t.banana_tricks_out(g, trees, inv).0, t, g));
    assert(lawful(t.peasant_out(g, trees, inv).0, t, g));
    assert(lawful(t.poly_out(g, trees, inv).0, t, g));
}

/// A troll is full exactly when no room is left in its hands: the room left is its capacity less
/// what it carries, what it carries is the sum of its six items, and it is empty exactly when
/// that sum is zero.
pub proof fn law_full_means_no_room(t: Troll)
    ensures
        t.room() == t.charac@[crate::consts::CAPA as int] - t.carried(),
        t.full() == (t.room() == 0),
        t.carried() == t.items@[0] + t.items@[1] + t.items@[2] + t.items@[3] + t.items@[4] + t.items@[5],
{
    reveal_with_fuel(crate::troll::prefix_sum, 7);
}

/// A turn of either strategy moves the game on by one phase at most (bar the jump to the final
/// cut at round 280), gives at most one command, a training one, and never takes an objective
/// back from a troll that was given one.
pub proof fn law_turn_moves_one_phase(
    inv: Inventory,
    n: GameStateNear,
    d: GameStateDistant,
    round: i32,
    grid: crate::board::Grid,
    ts: Seq<Troll>,
)
    ensures
        near_index(near_step(inv, n, ts).0) <= near_index(n) + 1,
        round != 280 ==> distant_index(distant_step(inv, d, round, grid, ts).0) <= distant_index(d) + 1,
        near_step(inv, n, ts).2 matches Some(c) ==> "TRAIN "@.is_prefix_of(c),
        distant_step(inv, d, round, grid, ts).2 matches Some(c) ==> "TRAIN "@.is_prefix_of(c),
        forall|k: int| 0 <= k < ts.len() && #[trigger] ts[k].assigned ==> near_step(inv, n, ts).1[k].assigned,
        forall|k: int| 0 <= k < ts.len() && #[trigger] ts[k].assigned ==> distant_step(inv, d, round, grid, ts).1[k].assigned,
{
    law_strategies_only_reassign(inv, n, d, round, grid, ts);
    if let Some(c) = near_step(inv, n, ts).2 {
        lemma_train_prefix(crate::strategy::near_charac());
    }
    if let Some(c) = distant_step(inv, d, round, grid, ts).2 {
        let s = distant_phase(d, round);
        let cnt = ts.len() as i32;
        match s {
            GameStateDistant::Start(_, _) => {
                lemma_train_prefix(crate::troll::need_of(TrollType::Peasant));
            },
            GameStateDistant::Early(mt, _) => {
                lemma_train_prefix(crate::troll::need_of(crate::strategy::early_role(mt)));
            },
            _ => {
                lemma_train_prefix(crate::troll::need_of(TrollType::Choper));
            },
        }
    }
    assert forall|k: int| 0 <= k < ts.len() && #[trigger] ts[k].assigned implies near_step(inv, n, ts).1[k].assigned
        && distant_step(inv, d, round, grid, ts).1[k].assigned by {
        assert(same_but_task(ts[k], near_step(inv, n, ts).1[k]));
        assert(same_but_task(ts[k], distant_step(inv, d, round, grid, ts).1[k]));
    }
}

/// A training command starts with `TRAIN `.
proof fn lemma_train_prefix(c: Seq<i32>)
    ensures
        "TRAIN "@.is_prefix_of(crate::inventory::train_cmd(c)),
{
    reveal_strlit("TRAIN ");
    reveal_strlit("TRAIN");
    let t1 = crate::text::with_arg("TRAIN"@, c[0] as int);
    let t2 = crate::text::with_arg(t1, c[1] as int);
    let t3 = crate::text::with_arg(t2, c[2] as int);
    let t4 = crate::text::with_arg(t3, c[3] as int);
    assert(t1.subrange(0, 6) =~= "TRAIN "@);
    assert(t2.subrange(0, 6) =~= t1.subrange(0, 6));
    assert(t3.subrange(0, 6) =~= t2.subrange(0, 6));
    assert(t4.subrange(0, 6) =~= t3.subrange(0, 6));
}

/// The neighbours a search lists around a position number `2 * speed * (speed + 1)`, none
/// twice, nearest first.
pub proof fn law_neighbours_listed_once_nearest_first(pos: (i32, i32), speed: i32)
    requires
        speed >= 1 ==> crate::astar::reach_ok(pos, speed as int),
    ensures
        crate::astar::neigh(pos, speed as int).len() == (if speed >= 1 { 2 * speed * (speed + 1) } else { 0 }),
        crate::astar::neigh(pos, speed as int).no_duplicates(),
        forall|i: int, j: int| 0 <= i <= j < crate::astar::neigh(pos, speed as int).len()
            ==> dist(#[trigger] crate::astar::neigh(pos, speed as int)[i], pos)
                <= dist(#[trigger] crate::astar::neigh(pos, speed as int)[j], pos),
{
    if speed >= 1 {
        crate::astar::lemma_neigh_facts(pos, speed as int);
    }
}

} // verus!

