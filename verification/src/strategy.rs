use vstd::prelude::*;
use vstd::std_specs::convert::FromSpecImpl;
use crate::consts::{IRON, CUT_ALL, THIEF, THIEF_NO_WASTE, BANANA_TRICKS};
use crate::fruit::Tree;
use crate::troll::{Troll, TrollType, need_of, point_cost};
use crate::board::Grid;
use crate::inventory::{Inventory, targeted, asked, asked_ok, train_cmd};
use crate::planning::{plant_rounds_ok};
use crate::util::{dist, manhattan_dist, lemma_dist_on_board};

verus! {

/// The phases of a game on a map where the two shacks are close.
#[derive(Clone, Copy, PartialEq, Eq, Structural, Debug)]
pub enum GameStateNear {
    /// Training a choper; the flag tells whether it was trained.
    Start(bool),
    End,
}

/// The phase's number.
pub open spec fn near_index(s: GameStateNear) -> i32 {
    match s {
        GameStateNear::Start(..) => 0,
        GameStateNear::End => 1,
    }
}

/// The phase with a number, when it is just entered (meant for `0 <= n <= 1`).
pub open spec fn near_at(n: int) -> GameStateNear {
    if n == 0 { GameStateNear::Start(false) } else { GameStateNear::End }
}

/// The phase after the turn's check: the start ends once the choper was trained.
pub open spec fn near_updated(s: GameStateNear) -> GameStateNear {
    match s {
        GameStateNear::Start(true) => GameStateNear::End,
        _ => s,
    }
}

impl From<GameStateNear> for i32 {
    fn from(game_state: GameStateNear) -> (n: i32) {
        match game_state {
            GameStateNear::Start(..) => 0,
            GameStateNear::End => 1,
        }
    }
}

impl FromSpecImpl<GameStateNear> for i32 {
    open spec fn obeys_from_spec() -> bool {
        true
    }

    open spec fn from_spec(v: GameStateNear) -> i32 {
        near_index(v)
    }
}

impl GameStateNear {
    /// The phase with a number, just entered.
    pub fn from(n: i32) -> (s: GameStateNear)
        requires
            0 <= n <= 1,
        ensures
            s == near_at(n as int),
    {
        if n == 0 {
            GameStateNear::Start(false)
        } else {
            GameStateNear::End
        }
    }

    /// Moves on to the next phase.
    pub fn upgrade(&mut self)
        requires
            near_index(*old(self)) < 1,
        ensures
            *final(self) == near_at(near_index(*old(self)) + 1),
    {
        *self = GameStateNear::from(i32::from(*self) + 1)
    }

    /// Moves on to the next phase where the current one is done.
    pub fn update(&mut self)
        ensures
            *final(self) == near_updated(*old(self)),
    {
        match *self {
            GameStateNear::Start(trained_1) => {
                if trained_1 {
                    self.upgrade();
                }
            },
            _ => {},
        }
    }
}

/// The phases of a game on a map where the two shacks are far apart.
#[derive(Clone, Copy, PartialEq, Eq, Structural, Debug)]
pub enum GameStateDistant {
    /// Training a peasant, and planting the first trees.
    Start(bool, bool),
    /// Training a miner, then a griefer.
    Early(bool, bool),
    /// Training a choper.
    Mid(bool),
    End,
    CutAll,
}

/// The phase's number.
pub open spec fn distant_index(s: GameStateDistant) -> i32 {
    match s {
        GameStateDistant::Start(..) => 0,
        GameStateDistant::Early(..) => 1,
        GameStateDistant::Mid(..) => 2,
        GameStateDistant::End => 3,
        GameStateDistant::CutAll => 4,
    }
}

/// The phase with a number, when it is just entered (meant for `0 <= n <= 4`).
pub open spec fn distant_at(n: int) -> GameStateDistant {
    if n == 0 {
        GameStateDistant::Start(false, false)
    } else if n == 1 {
        GameStateDistant::Early(false, false)
    } else if n == 2 {
        GameStateDistant::Mid(false)
    } else if n == 3 {
        GameStateDistant::End
    } else {
        GameStateDistant::CutAll
    }
}

/// The phase after the turn's check: a phase ends once all it had to do is done.
pub open spec fn distant_updated(s: GameStateDistant) -> GameStateDistant {
    match s {
        GameStateDistant::Start(a, b) => if a && b { GameStateDistant::Early(false, false) } else { s },
        GameStateDistant::Early(a, b) => if a && b { GameStateDistant::Mid(false) } else { s },
        GameStateDistant::Mid(a) => if a { GameStateDistant::End } else { s },
        _ => s,
    }
}

impl From<GameStateDistant> for i32 {
    fn from(game_state: GameStateDistant) -> (n: i32) {
        match game_state {
            GameStateDistant::Start(..) => 0,
            GameStateDistant::Early(..) => 1,
            GameStateDistant::Mid(..) => 2,
            GameStateDistant::End => 3,
            GameStateDistant::CutAll => 4,
        }
    }
}

impl FromSpecImpl<GameStateDistant> for i32 {
    open spec fn obeys_from_spec() -> bool {
        true
    }

    open spec fn from_spec(v: GameStateDistant) -> i32 {
        distant_index(v)
    }
}

impl GameStateDistant {
    /// The phase with a number, just entered.
    pub fn from(n: i32) -> (s: GameStateDistant)
        requires
            0 <= n <= 4,
        ensures
            s == distant_at(n as int),
    {
        if n == 0 {
            GameStateDistant::Start(false, false)
        } else if n == 1 {
            GameStateDistant::Early(false, false)
        } else if n == 2 {
            GameStateDistant::Mid(false)
        } else if n == 3 {
            GameStateDistant::End
        } else {
            GameStateDistant::CutAll
        }
    }

    /// Moves on to the next phase.
    pub fn upgrade(&mut self)
        requires
            distant_index(*old(self)) < 4,
        ensures
            *final(self) == distant_at(distant_index(*old(self)) + 1),
    {
        *self = GameStateDistant::from(i32::from(*self) + 1)
    }

    /// Moves on to the next phase where the current one is done.
    pub fn update(&mut self)
        ensures
            *final(self) == distant_updated(*old(self)),
    {
        match *self {
            GameStateDistant::Start(trained, trees_planted) => {
                if trained && trees_planted {
                    self.upgrade();
                }
            },
            GameStateDistant::Early(trained_1, trained_2) => {
                if trained_1 && trained_2 {
                    self.upgrade();
                }
            },
            GameStateDistant::Mid(trained) => {
                if trained {
                    self.upgrade();
                }
            },
            _ => {},
        }
    }
}

/// The texts of a sequence of strings.
pub open spec fn texts(v: Seq<String>) -> Seq<Seq<char>> {
    v.map_values(|s: String| s@)
}

/// An optional command as a sequence of at most one.
pub open spec fn opt_seq(o: Option<Seq<char>>) -> Seq<Seq<char>> {
    match o {
        Some(x) => seq![x],
        None => Seq::empty(),
    }
}

/// The resources a troll of role `t` costs when `n` trolls exist.
pub open spec fn cost_seq(t: TrollType, n: i32) -> Seq<i32> {
    let c = need_of(t);
    seq![
        point_cost(n as int, c[0]) as i32,
        point_cost(n as int, c[1]) as i32,
        point_cost(n as int, c[2]) as i32,
        0i32,
        point_cost(n as int, c[3]) as i32,
        0i32,
    ]
}

/// The price of a troll of role `t` when `n` trolls exist can be computed.
pub open spec fn cost_ok(t: TrollType, n: i32) -> bool {
    forall|k: int| 0 <= k < 4 ==> point_cost(n as int, #[trigger] need_of(t)[k]) <= i32::MAX
}

/// The characteristics and price of the choper trained on a map where the shacks are close.
pub open spec fn near_charac() -> Seq<i32> {
    seq![2i32, 2, 0, 2]
}

pub open spec fn near_cost() -> Seq<i32> {
    seq![2i32, 5, 0, 0, 5, 0]
}

/// Every troll given objective `objective` where `sel` keeps it.
pub open spec fn retarget(ts: Seq<Troll>, sel: spec_fn(Troll) -> bool, objective: usize) -> Seq<Troll> {
    Seq::new(ts.len(), |j: int| if sel(ts[j]) { targeted(ts[j], objective) } else { ts[j] })
}

/// A troll gets trained where the stock covers the price, or the trolls are sent for what is missing.
pub open spec fn train_or_ask(inv: Inventory, charac: Seq<i32>, cost: Seq<i32>, ts: Seq<Troll>) -> (Option<Seq<char>>, Seq<Troll>) {
    if inv.covers(cost) {
        (Some(train_cmd(charac)), ts)
    } else {
        (None, asked(ts, inv.needs_for(cost)))
    }
}

/// `train_asked` can be called.
pub open spec fn train_ok(inv: Inventory, cost: Seq<i32>, ts: Seq<Troll>) -> bool {
    inv.gap_ok(cost) && (!inv.covers(cost) ==> asked_ok(ts, inv.needs_for(cost)))
}

/// In the end of a game on a map with close shacks, every choper steals without waste and
/// every other troll plays the banana tricks.
pub open spec fn near_end_trolls(ts: Seq<Troll>) -> Seq<Troll> {
    Seq::new(ts.len(), |j: int| if ts[j].class == TrollType::Choper {
        targeted(ts[j], THIEF_NO_WASTE)
    } else {
        targeted(ts[j], BANANA_TRICKS)
    })
}

/// What a map with close shacks does this turn: the new phase, the trolls and the command.
pub open spec fn near_step(inv: Inventory, s: GameStateNear, ts: Seq<Troll>) -> (GameStateNear, Seq<Troll>, Option<Seq<char>>) {
    match near_updated(s) {
        GameStateNear::Start(_) => {
            let (cmd, ts1) = train_or_ask(inv, near_charac(), near_cost(), ts);
            (if cmd is Some { GameStateNear::Start(true) } else { near_updated(s) }, ts1, cmd)
        },
        GameStateNear::End => (GameStateNear::End, near_end_trolls(ts), None),
    }
}

/// The strategy for a map with close shacks can run.
pub open spec fn near_ok(inv: Inventory, s: GameStateNear, ts: Seq<Troll>) -> bool {
    near_updated(s) is Start ==> train_ok(inv, near_cost(), ts)
}

/// Moves on to the next phase where the current one is done; then trains a choper until one
/// is trained, sending the trolls for what the stock lacks; in the end every choper steals
/// without waste and every other troll plays the banana tricks.
pub fn near_strategy(
    inventory: &Inventory,
    game_state: &mut GameStateNear,
    round: i32,
    grid: &Grid,
    trolls: &mut Vec<Troll>,
    trees: &Vec<Tree>,
    actions: &mut Vec<String>,
)
    requires
        near_ok(*inventory, *old(game_state), old(trolls)@),
    ensures
        (*final(game_state), final(trolls)@, texts(final(actions)@))
            == ({
                let (s, ts, cmd) = near_step(*inventory, *old(game_state), old(trolls)@);
                (s, ts, texts(old(actions)@) + opt_seq(cmd))
            }),
{
    game_state.update();
    let ghost a0 = actions@;
    match *game_state {
        GameStateNear::Start(_) => {
            let charac: [i32; 4] = [2, 2, 0, 2];
            let cost: [i32; 6] = [2, 5, 0, 0, 5, 0];
            assert(charac@ == near_charac());
            assert(cost@ == near_cost());
            match inventory.train_asked(charac, cost, trolls) {
                Some(cmd) => {
                    actions.push(cmd);
                    *game_state = GameStateNear::Start(true);
                    assert(texts(actions@) == texts(a0) + seq![cmd@]);
                },
                None => {
                    assert(texts(actions@) == texts(a0) + Seq::<Seq<char>>::empty());
                },
            }
        },
        GameStateNear::End => {
            let ghost ts0 = trolls@;
            let mut j: usize = 0;
            while j < trolls.len()
                invariant
                    j <= trolls@.len(),
                    trolls@.len() == ts0.len(),
                    forall|k: int| 0 <= k < j ==> #[trigger] trolls@[k] == (if ts0[k].class == TrollType::Choper {
                        targeted(ts0[k], THIEF_NO_WASTE)
                    } else {
                        targeted(ts0[k], BANANA_TRICKS)
                    }),
                    forall|k: int| j <= k < trolls@.len() ==> #[trigger] trolls@[k] == ts0[k],
                decreases trolls@.len() - j,
            {
                if trolls[j].class == TrollType::Choper {
                    trolls[j].target(THIEF_NO_WASTE);
                } else {
                    trolls[j].target(BANANA_TRICKS);
                }
                j = j + 1;
            }
            assert(trolls@ == near_end_trolls(ts0));
            assert(texts(actions@) == texts(a0) + Seq::<Seq<char>>::empty());
        },
    }
}

/// The trolls after `assign_plants` for the trees `required` in the area of four steps.
pub open spec fn after_plants(grid: Grid, required: Seq<i32>, ts: Seq<Troll>) -> Seq<Troll> {
    if grid.nothing_missing(4, required) { ts } else { grid.plants_assigned(4, required, ts) }
}

/// `assign_plants` for the trees `required` in the area of four steps can run.
pub open spec fn plants_ok(grid: Grid, required: Seq<i32>, ts: Seq<Troll>) -> bool {
    &&& grid.missing_ok(4, required)
    &&& !grid.nothing_missing(4, required) ==> plant_rounds_ok(ts, grid.plant_needs(4, required), 4)
}

/// The phase a map with distant shacks plays this turn.
pub open spec fn distant_phase(s: GameStateDistant, round: i32) -> GameStateDistant {
    distant_updated(if round == 280 { GameStateDistant::CutAll } else { s })
}

/// The role trained early in the game: a miner first, then a griefer.
pub open spec fn early_role(miner_trained: bool) -> TrollType {
    if !miner_trained { TrollType::Miner } else { TrollType::Griefer }
}

/// The miners sent to steal once the stock holds the iron a choper costs.
pub open spec fn miners_to_thieves(inv: Inventory, cost: Seq<i32>, ts: Seq<Troll>) -> Seq<Troll> {
    if inv.resources@[IRON as int] >= cost[IRON as int] {
        retarget(ts, of_classes(TrollType::Miner, TrollType::Miner), THIEF)
    } else {
        ts
    }
}

/// What a map with distant shacks does this turn: the new phase, the trolls and the command.
pub open spec fn distant_step(inv: Inventory, s0: GameStateDistant, round: i32, grid: Grid, ts: Seq<Troll>)
    -> (GameStateDistant, Seq<Troll>, Option<Seq<char>>)
{
    let s = distant_phase(s0, round);
    let n = ts.len() as i32;
    match s {
        GameStateDistant::Start(peasant_trained, planted) => {
            if !peasant_trained {
                let (cmd, ts1) = train_or_ask(inv, need_of(TrollType::Peasant), cost_seq(TrollType::Peasant, n), ts);
                if cmd is Some {
                    (GameStateDistant::Start(true, planted), ts1, cmd)
                } else {
                    (s, after_plants(grid, seq![1i32, 1, 1, 0], ts1), cmd)
                }
            } else {
                let missing = !grid.nothing_missing(4, seq![2i32, 2, 2, 1]);
                (
                    if missing { s } else { GameStateDistant::Start(peasant_trained, true) },
                    after_plants(grid, seq![2i32, 2, 2, 1], ts),
                    None,
                )
            }
        },
        GameStateDistant::Early(miner_trained, griefer_trained) => {
            let close = dist(grid.shack_position, grid.enemy_shack_position) < 7;
            let role = early_role(miner_trained);
            let (cmd, ts1) = train_or_ask(inv, need_of(role), cost_seq(role, n), ts);
            let s1 = if cmd is Some {
                GameStateDistant::Early(true, griefer_trained || close || role == TrollType::Griefer)
            } else {
                GameStateDistant::Early(miner_trained, griefer_trained || close)
            };
            (s1, after_plants(grid, seq![2i32, 2, 2, 1], ts1), cmd)
        },
        GameStateDistant::Mid(choper_trained) => {
            let cost = cost_seq(TrollType::Choper, n);
            let ts1 = miners_to_thieves(inv, cost, ts);
            let (cmd, ts2) = train_or_ask(inv, need_of(TrollType::Choper), cost, ts1);
            let ts3 = grid.bananas_assigned(4, 3, ts2);
            (GameStateDistant::Mid(choper_trained || cmd is Some), after_plants(grid, seq![2i32, 2, 2, 0], ts3), cmd)
        },
        GameStateDistant::End => (
            GameStateDistant::End,
            retarget(ts, of_classes(TrollType::Poly, TrollType::Miner), THIEF),
            None,
        ),
        GameStateDistant::CutAll => (GameStateDistant::CutAll, retarget(ts, |t: Troll| true, CUT_ALL), None),
    }
}

/// The strategy for a map with distant shacks can run: in the phases that read the board, it
/// is well formed and its area of four steps round the shack stays in `i32`.
pub open spec fn distant_ok(inv: Inventory, s0: GameStateDistant, round: i32, grid: Grid, ts: Seq<Troll>) -> bool {
    let s = distant_phase(s0, round);
    let n = ts.len() as i32;
    &&& (s is Start || s is Early || s is Mid) ==> grid.well_formed() && grid.area_ok(4)
    &&& match s {
        GameStateDistant::Start(peasant_trained, planted) => {
            if !peasant_trained {
                let cost = cost_seq(TrollType::Peasant, n);
                &&& cost_ok(TrollType::Peasant, n)
                &&& train_ok(inv, cost, ts)
                &&& !inv.covers(cost) ==> plants_ok(grid, seq![1i32, 1, 1, 0], asked(ts, inv.needs_for(cost)))
            } else {
                plants_ok(grid, seq![2i32, 2, 2, 1], ts)
            }
        },
        GameStateDistant::Early(miner_trained, griefer_trained) => {
            let role = early_role(miner_trained);
            let cost = cost_seq(role, n);
            &&& cost_ok(role, n)
            &&& train_ok(inv, cost, ts)
            &&& plants_ok(grid, seq![2i32, 2, 2, 1], train_or_ask(inv, need_of(role), cost, ts).1)
        },
        GameStateDistant::Mid(choper_trained) => {
            let cost = cost_seq(TrollType::Choper, n);
            let ts1 = miners_to_thieves(inv, cost, ts);
            let ts2 = train_or_ask(inv, need_of(TrollType::Choper), cost, ts1).1;
            &&& cost_ok(TrollType::Choper, n)
            &&& train_ok(inv, cost, ts1)
            &&& grid.bananas_assigned_ok(4, 3, ts2)
            &&& plants_ok(grid, seq![2i32, 2, 2, 0], grid.bananas_assigned(4, 3, ts2))
        },
        _ => true,
    }
}

/// The price of a troll of a role, with the number of trolls it is computed from.
fn role_cost(role: TrollType, game_state: i32, mine_dist: i32, n: i32) -> (c: [i32; 6])
    requires
        cost_ok(role, n),
    ensures
        c@ == cost_seq(role, n),
{
    let c = role.cost(game_state, mine_dist, n);
    assert(c@ =~= cost_seq(role, n));
    c
}

/// The trolls of either role.
pub open spec fn of_classes(first: TrollType, second: TrollType) -> spec_fn(Troll) -> bool {
    |t: Troll| t.class == first || t.class == second
}

/// Every troll of either role given objective `objective`.
fn retarget_class(trolls: &mut Vec<Troll>, first: TrollType, second: TrollType, objective: usize)
    ensures
        final(trolls)@ == retarget(old(trolls)@, of_classes(first, second), objective),
{
    let ghost ts0 = trolls@;
    let ghost sel = of_classes(first, second);
    let mut j: usize = 0;
    while j < trolls.len()
        invariant
            sel == of_classes(first, second),
            j <= trolls@.len(),
            trolls@.len() == ts0.len(),
            forall|k: int| 0 <= k < j ==> #[trigger] trolls@[k] == retarget(ts0, sel, objective)[k],
            forall|k: int| j <= k < trolls@.len() ==> #[trigger] trolls@[k] == ts0[k],
        decreases trolls@.len() - j,
    {
        if trolls[j].class == first || trolls[j].class == second {
            trolls[j].target(objective);
        }
        j = j + 1;
    }
    assert(trolls@ == retarget(ts0, sel, objective));
}

/// Moves on to the next phase where the current one is done (on round 280, to cutting
/// everything). At the start, trains a peasant, sending the trolls for what the stock lacks
/// and for the first trees, then has trees planted; early, trains a miner then a griefer
/// (none where the shacks are close) while trees get planted; in the middle, sends the miners
/// to steal once the stock holds the iron a choper costs, trains a choper and has bananas and
/// other trees planted; in the end the polyvalent trolls and miners steal; at last every troll
/// cuts everything.
pub fn distant_strategy(
    inventory: &Inventory,
    game_state: &mut GameStateDistant,
    round: i32,
    grid: &Grid,
    trolls: &mut Vec<Troll>,
    trees: &Vec<Tree>,
    actions: &mut Vec<String>,
)
    requires
        distant_ok(*inventory, *old(game_state), round, *grid, old(trolls)@),
    ensures
        (*final(game_state), final(trolls)@, texts(final(actions)@))
            == ({
                let (s, ts, cmd) = distant_step(*inventory, *old(game_state), round, *grid, old(trolls)@);
                (s, ts, texts(old(actions)@) + opt_seq(cmd))
            }),
{
    if round == 280 {
        *game_state = GameStateDistant::CutAll;
    }
    game_state.update();
    let game_state_i32: i32 = i32::from(*game_state);
    let ghost a0 = actions@;
    let n = #[verifier::truncate] (trolls.len() as i32);
    match *game_state {
        GameStateDistant::Start(peasant_trained, trees_to_plant) => {
            if !peasant_trained {
                let to_train = TrollType::Peasant;
                let cost = role_cost(to_train, game_state_i32, grid.mine_dist, n);
                match inventory.train_asked(to_train.charac_need(game_state_i32, grid.mine_dist), cost, trolls) {
                    Some(cmd) => {
                        actions.push(cmd);
                        *game_state = GameStateDistant::Start(true, trees_to_plant);
                        assert(texts(actions@) == texts(a0) + seq![cmd@]);
                    },
                    None => {
                        grid.assign_plants(4, [1, 1, 1, 0], trolls);
                        assert(texts(actions@) == texts(a0) + Seq::<Seq<char>>::empty());
                    },
                }
            } else {
                if !grid.assign_plants(4, [2, 2, 2, 1], trolls) {
                    *game_state = GameStateDistant::Start(peasant_trained, true);
                }
                assert(texts(actions@) == texts(a0) + Seq::<Seq<char>>::empty());
            }
        },
        GameStateDistant::Early(miner_trained, griefer_trained) => {
            let mut griefer_trained = griefer_trained;
            let mut miner_trained_now = miner_trained;
            proof {
                lemma_dist_on_board(grid.shack_position, grid.enemy_shack_position, grid.height, grid.width);
            }
            if manhattan_dist(grid.shack_position, grid.enemy_shack_position) < 7 {
                griefer_trained = true;
            }
            let to_train = if !miner_trained { TrollType::Miner } else { TrollType::Griefer };
            let cost = role_cost(to_train, game_state_i32, grid.mine_dist, n);
            match inventory.train_asked(to_train.charac_need(game_state_i32, grid.mine_dist), cost, trolls) {
                Some(cmd) => {
                    actions.push(cmd);
                    miner_trained_now = true;
                    if to_train == TrollType::Griefer {
                        griefer_trained = true;
                    }
                    assert(texts(actions@) == texts(a0) + seq![cmd@]);
                },
                None => {
                    assert(texts(actions@) == texts(a0) + Seq::<Seq<char>>::empty());
                },
            }
            *game_state = GameStateDistant::Early(miner_trained_now, griefer_trained);
            grid.assign_plants(4, [2, 2, 2, 1], trolls);
        },
        GameStateDistant::Mid(choper_trained) => {
            let to_train = TrollType::Choper;
            let cost = role_cost(to_train, game_state_i32, grid.mine_dist, n);
            let irons_need = cost[IRON];
            if inventory.resources[IRON] >= irons_need {
                retarget_class(trolls, TrollType::Miner, TrollType::Miner, THIEF);
            }
            match inventory.train_asked(to_train.charac_need(game_state_i32, grid.mine_dist), cost, trolls) {
                Some(cmd) => {
                    actions.push(cmd);
                    *game_state = GameStateDistant::Mid(true);
                    assert(texts(actions@) == texts(a0) + seq![cmd@]);
                },
                None => {
                    assert(texts(actions@) == texts(a0) + Seq::<Seq<char>>::empty());
                },
            }
            grid.assign_plant_bananas(4, 3, trolls);
            grid.assign_plants(4, [2, 2, 2, 0], trolls);
        },
        GameStateDistant::End => {
            retarget_class(trolls, TrollType::Poly, TrollType::Miner, THIEF);
            assert(texts(actions@) == texts(a0) + Seq::<Seq<char>>::empty());
        },
        GameStateDistant::CutAll => {
            let ghost ts0 = trolls@;
            let mut j: usize = 0;
            while j < trolls.len()
                invariant
                    j <= trolls@.len(),
                    trolls@.len() == ts0.len(),
                    forall|k: int| 0 <= k < j ==> #[trigger] trolls@[k] == targeted(ts0[k], CUT_ALL),
                    forall|k: int| j <= k < trolls@.len() ==> #[trigger] trolls@[k] == ts0[k],
                decreases trolls@.len() - j,
            {
                trolls[j].target(CUT_ALL);
                j = j + 1;
            }
            assert(trolls@ == retarget(ts0, |t: Troll| true, CUT_ALL));
            assert(texts(actions@) == texts(a0) + Seq::<Seq<char>>::empty());
        },
    }
}

} // verus!
