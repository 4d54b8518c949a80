use vstd::prelude::*;
use crate::consts::{DISTANT, NEAR};
use crate::fruit::Tree;
use crate::troll::Troll;
use crate::board::Grid;
use crate::inventory::Inventory;
use crate::strategy::{GameStateNear, GameStateDistant, near_step, near_ok, distant_step, distant_ok,
    near_strategy, distant_strategy, texts, opt_seq};
use crate::util::{dist, manhattan_dist, lemma_dist_on_board};

verus! {

/// The kind of map: `DISTANT` where the shacks lie more than six steps apart, else `NEAR`.
pub open spec fn map_kind(shack: (i32, i32), enemy_shack: (i32, i32)) -> usize {
    if dist(shack, enemy_shack) > 6 { DISTANT } else { NEAR }
}

/// The kind of map the board is.
pub fn map_type(grid: &Grid) -> (t: usize)
    requires
        grid.well_formed(),
    ensures
        t == map_kind(grid.shack_position, grid.enemy_shack_position),
{
    proof {
        lemma_dist_on_board(grid.shack_position, grid.enemy_shack_position, grid.height, grid.width);
    }
    if manhattan_dist(grid.shack_position, grid.enemy_shack_position) > 6 {
        DISTANT
    } else {
        NEAR
    }
}

/// The actions joined by `;`.
pub open spec fn joined(acts: Seq<Seq<char>>) -> Seq<char>
    decreases acts.len(),
{
    if acts.len() == 0 {
        Seq::empty()
    } else if acts.len() == 1 {
        acts[0]
    } else {
        joined(acts.drop_last()) + ";"@ + acts.last()
    }
}

/// The line answered for a turn: the actions joined by `;`, or `WAIT` where there is none.
pub open spec fn answer(acts: Seq<Seq<char>>) -> Seq<char> {
    if acts.len() == 0 { "WAIT"@ } else { joined(acts) }
}

/// The line answered for a turn with these actions.
pub fn join_actions(actions: &Vec<String>) -> (s: String)
    ensures
        s@ == answer(texts(actions@)),
{
    proof {
        reveal_strlit("WAIT");
        reveal_strlit(";");
    }
    if actions.len() == 0 {
        return String::from_str("WAIT");
    }
    let mut s = String::new();
    let mut k: usize = 0;
    while k < actions.len()
        invariant
            0 < actions@.len(),
            k <= actions@.len(),
            k == 0 ==> s@ == Seq::<char>::empty(),
            k > 0 ==> s@ == joined(texts(actions@).take(k as int)),
        decreases actions@.len() - k,
    {
        let ghost t = texts(actions@).take(k + 1);
        assert(t.drop_last() == texts(actions@).take(k as int));
        if k > 0 {
            s.append(";");
        }
        s.append(actions[k].as_str());
        assert(t.last() == actions@[k as int]@);
        k = k + 1;
    }
    assert(texts(actions@).take(actions@.len() as int) == texts(actions@));
    s
}

/// What the trolls of `ts` command this turn, in order, each by its role.
pub open spec fn acts_out(ts: Seq<Troll>, grid: Grid, trees: Seq<Tree>, inventory: Inventory) -> Seq<Seq<char>>
    decreases ts.len(),
{
    if ts.len() == 0 {
        Seq::empty()
    } else {
        acts_out(ts.drop_last(), grid, trees, inventory) + opt_seq(ts.last().act_out(grid, trees, inventory).0)
    }
}

/// The phases after a turn, the trolls as the strategy of the map's kind left them, and the
/// command it gave, if any.
pub open spec fn strategy_out(
    kind: usize,
    near: GameStateNear,
    distant: GameStateDistant,
    round: i32,
    grid: Grid,
    inventory: Inventory,
    ts: Seq<Troll>,
) -> (GameStateNear, GameStateDistant, Seq<Troll>, Option<Seq<char>>) {
    if kind == DISTANT {
        let (s, ts1, cmd) = distant_step(inventory, distant, round, grid, ts);
        (near, s, ts1, cmd)
    } else {
        let (s, ts1, cmd) = near_step(inventory, near, ts);
        (s, distant, ts1, cmd)
    }
}

/// The strategy of the map's kind can run, and then every troll can act.
pub open spec fn round_ok(
    kind: usize,
    near: GameStateNear,
    distant: GameStateDistant,
    round: i32,
    grid: Grid,
    inventory: Inventory,
    ts: Seq<Troll>,
    trees: Seq<Tree>,
) -> bool {
    let ts1 = strategy_out(kind, near, distant, round, grid, inventory, ts).2;
    &&& kind == DISTANT || kind == NEAR
    &&& grid.well_formed()
    &&& kind == DISTANT ==> distant_ok(inventory, distant, round, grid, ts)
    &&& kind == NEAR ==> near_ok(inventory, near, ts)
    &&& forall|k: int| 0 <= k < ts1.len() ==> (#[trigger] ts1[k]).act_ok(grid, trees, inventory)
}

/// The line answered for a turn: the strategy's command, then each troll's.
pub open spec fn round_answer(
    kind: usize,
    near: GameStateNear,
    distant: GameStateDistant,
    round: i32,
    grid: Grid,
    inventory: Inventory,
    ts: Seq<Troll>,
    trees: Seq<Tree>,
) -> Seq<char> {
    let (_, _, ts1, cmd) = strategy_out(kind, near, distant, round, grid, inventory, ts);
    answer(opt_seq(cmd) + acts_out(ts1, grid, trees, inventory))
}

/// Plays a turn on a board whose tiles hold this turn's trolls and trees: the strategy of
/// the map's kind moves its phase on and may give a command, then every troll acts by its
/// role; the commands are joined into the line to answer.
pub fn play_round(
    kind: usize,
    near: &mut GameStateNear,
    distant: &mut GameStateDistant,
    round: i32,
    grid: &Grid,
    inventory: &Inventory,
    trolls: Vec<Troll>,
    trees: &Vec<Tree>,
) -> (line: String)
    requires
        round_ok(kind, *old(near), *old(distant), round, *grid, *inventory, trolls@, trees@),
    ensures
        ({
            let (n, d, _, _) = strategy_out(kind, *old(near), *old(distant), round, *grid, *inventory, trolls@);
            *final(near) == n && *final(distant) == d
        }),
        line@ == round_answer(kind, *old(near), *old(distant), round, *grid, *inventory, trolls@, trees@),
{
    let ghost ts0 = trolls@;
    let ghost out = strategy_out(kind, *near, *distant, round, *grid, *inventory, ts0);
    let mut trolls = trolls;
    let mut actions: Vec<String> = Vec::new();
    if kind == DISTANT {
        distant_strategy(inventory, distant, round, grid, &mut trolls, trees, &mut actions);
    } else {
        near_strategy(inventory, near, round, grid, &mut trolls, trees, &mut actions);
    }
    assert(trolls@ == out.2);
    assert(texts(actions@) == opt_seq(out.3));
    let mut k: usize = 0;
    while k < trolls.len()
        invariant
            grid.well_formed(),
            trolls@ == out.2,
            forall|j: int| 0 <= j < trolls@.len() ==> (#[trigger] trolls@[j]).act_ok(*grid, trees@, *inventory),
            k <= trolls@.len(),
            texts(actions@) == opt_seq(out.3) + acts_out(trolls@.take(k as int), *grid, trees@, *inventory),
        decreases trolls@.len() - k,
    {
        let mut t = trolls[k];
        assert(t.act_ok(*grid, trees@, *inventory));
        let ghost said = t.act_out(*grid, trees@, *inventory).0;
        let ghost before = texts(actions@);
        let r = t.act(grid, trees, inventory);
        let ghost done = trolls@.take(k + 1);
        assert(done.drop_last() == trolls@.take(k as int));
        assert(done.last() == trolls@[k as int]);
        assert(acts_out(done, *grid, trees@, *inventory)
            == acts_out(trolls@.take(k as int), *grid, trees@, *inventory) + opt_seq(said));
        match r {
            Some(a) => {
                actions.push(a);
                assert(texts(actions@) =~= before + opt_seq(said));
            },
            None => {
                assert(opt_seq(said) =~= Seq::<Seq<char>>::empty());
            },
        }
        assert(texts(actions@) == opt_seq(out.3) + acts_out(done, *grid, trees@, *inventory));
        k = k + 1;
    }
    assert(trolls@.take(trolls@.len() as int) == trolls@);
    join_actions(&actions)
}

/// The trolls of `ts` that we own (`ours`) or that the enemy owns (`!ours`), in order.
pub open spec fn owned(ts: Seq<Troll>, ours: bool) -> Seq<Troll>
    decreases ts.len(),
{
    if ts.len() == 0 {
        Seq::empty()
    } else if (ts.last().player == 0) == ours {
        owned(ts.drop_last(), ours).push(ts.last())
    } else {
        owned(ts.drop_last(), ours)
    }
}

/// The trolls of `s` come by increasing id.
pub open spec fn by_id(s: Seq<Troll>) -> bool {
    forall|i: int, j: int| #![trigger s[i], s[j]] 0 <= i < j < s.len() ==> s[i].id <= s[j].id
}

/// `out[i]` is `src[idx[i]]`, each entry of `src` taken once, and trolls of equal id keep
/// the order they had in `src`.
pub open spec fn arranges(src: Seq<Troll>, out: Seq<Troll>, idx: Seq<int>) -> bool {
    &&& out.len() == src.len() && idx.len() == src.len()
    &&& forall|i: int| 0 <= i < idx.len() ==> 0 <= #[trigger] idx[i] < src.len() && out[i] == src[idx[i]]
    &&& forall|i: int, j: int| #![trigger idx[i], idx[j]] 0 <= i < j < idx.len() ==> idx[i] != idx[j]
    &&& forall|i: int, j: int| #![trigger idx[i], idx[j]] 0 <= i < j < idx.len() && out[i].id == out[j].id ==> idx[i] < idx[j]
}

/// `out` is `src` sorted by increasing id, trolls of equal id in their order in `src`:
/// what a stable sort by id gives.
pub open spec fn stably_sorted(src: Seq<Troll>, out: Seq<Troll>) -> bool {
    &&& by_id(out)
    &&& exists|idx: Seq<int>| arranges(src, out, idx)
}

/// The trolls sorted by increasing id, trolls of equal id in the order given.
fn sort_by_id(src: &Vec<Troll>) -> (out: Vec<Troll>)
    ensures
        stably_sorted(src@, out@),
{
    let mut out: Vec<Troll> = Vec::new();
    let ghost mut idx: Seq<int> = Seq::empty();
    let mut k: usize = 0;
    while k < src.len()
        invariant
            k <= src@.len(),
            arranges(src@.take(k as int), out@, idx),
            by_id(out@),
        decreases src@.len() - k,
    {
        let t = src[k];
        let mut p: usize = 0;
        while p < out.len() && out[p].id <= t.id
            invariant
                p <= out@.len(),
                forall|q: int| 0 <= q < p ==> (#[trigger] out@[q]).id <= t.id,
            decreases out@.len() - p,
        {
            p = p + 1;
        }
        let ghost old_out = out@;
        let ghost old_idx = idx;
        assert(forall|q: int| p <= q < old_out.len() ==> (#[trigger] old_out[q]).id > t.id) by {
            assert forall|q: int| p <= q < old_out.len() implies (#[trigger] old_out[q]).id > t.id by {
                assert(old_out[p as int].id > t.id);
                if q > p {
                    assert(old_out[p as int].id <= old_out[q].id);
                }
            }
        }
        out.insert(p, t);
        proof {
            idx = idx.insert(p as int, k as int);
            let src1 = src@.take(k + 1);
            assert(src1[k as int] == t);
            assert forall|i: int| 0 <= i < src@.take(k as int).len() implies src@.take(k as int)[i] == #[trigger] src1[i] by {}
            assert forall|i: int| 0 <= i < idx.len() implies 0 <= #[trigger] idx[i] < src1.len() && out@[i] == src1[idx[i]] by {
                if i < p {
                    assert(idx[i] == old_idx[i] && out@[i] == old_out[i]);
                } else if i > p {
                    assert(idx[i] == old_idx[i - 1] && out@[i] == old_out[i - 1]);
                }
            }
            assert forall|i: int, j: int| 0 <= i < j < idx.len() implies #[trigger] idx[i] != #[trigger] idx[j]
                && (out@[i].id == out@[j].id ==> idx[i] < idx[j]) by {
                let oi = if i < p { i } else { i - 1 };
                let oj = if j < p { j } else { j - 1 };
                if i != p && j != p {
                    assert(idx[i] == old_idx[oi] && idx[j] == old_idx[oj]);
                    assert(out@[i] == old_out[oi] && out@[j] == old_out[oj]);
                    assert(oi < oj);
                } else if i == p {
                    assert(idx[j] == old_idx[oj] && out@[j] == old_out[oj]);
                    assert(old_idx[oj] < k);
                    assert(old_out[oj].id > t.id);
                } else {
                    assert(idx[i] == old_idx[oi] && out@[i] == old_out[oi]);
                    assert(old_idx[oi] < k);
                }
            }
            assert forall|i: int, j: int| 0 <= i < j < out@.len() implies (#[trigger] out@[i]).id <= (#[trigger] out@[j]).id by {
                let oi = if i < p { i } else { i - 1 };
                let oj = if j < p { j } else { j - 1 };
                if i != p && j != p {
                    assert(out@[i] == old_out[oi] && out@[j] == old_out[oj]);
                } else if i == p {
                    assert(out@[j] == old_out[oj]);
                } else {
                    assert(out@[i] == old_out[oi]);
                }
            }
        }
        k = k + 1;
    }
    assert(src@.take(src@.len() as int) == src@);
    out
}

/// The trolls read this turn parted into ours and the enemy's, each sorted by increasing
/// id, trolls of equal id in the order read.
pub fn sort_trolls(all: &Vec<Troll>) -> (r: (Vec<Troll>, Vec<Troll>))
    ensures
        stably_sorted(owned(all@, true), r.0@),
        stably_sorted(owned(all@, false), r.1@),
{
    let mut mine: Vec<Troll> = Vec::new();
    let mut theirs: Vec<Troll> = Vec::new();
    let mut k: usize = 0;
    while k < all.len()
        invariant
            k <= all@.len(),
            mine@ == owned(all@.take(k as int), true),
            theirs@ == owned(all@.take(k as int), false),
        decreases all@.len() - k,
    {
        let t = all[k];
        assert(all@.take(k + 1).drop_last() == all@.take(k as int));
        if t.player == 0 {
            mine.push(t);
        } else {
            theirs.push(t);
        }
        k = k + 1;
    }
    assert(all@.take(all@.len() as int) == all@);
    (sort_by_id(&mine), sort_by_id(&theirs))
}

} // verus!
