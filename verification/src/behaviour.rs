use vstd::prelude::*;
use crate::consts::{IRON, WOOD, ANY, BANANA, CHOP_PLUM, CHOP_ANY, CUT_ALL, THIEF, THIEF_NO_WASTE, BANANA_TRICKS, PLANT_PLUM, PLANT_ANY};
use crate::fruit::{Fruit, Tree, fruit_index, fruit_of, names_fruit};
use crate::troll::{Troll, TrollType, move_cmd, id_cmd, fruit_cmd};
use crate::board::{Grid, tree_dist_at, dist_from};
use crate::inventory::{Inventory, targeted};
use crate::tactics::{TreeFilter, closest, closest_ok, min_dist_to, text_of, move_to};
use crate::util::{dist, dist_ok, manhattan_dist, first_min_at};

verus! {

/// The command that moves troll `id` to an optional tree.
pub open spec fn tree_move(id: i32, o: Option<(int, Tree)>) -> Option<Seq<char>> {
    match o {
        Some((_, t)) => Some(move_cmd(id, t.x, t.y)),
        None => None,
    }
}

impl Troll {
    /// The troll stands on a drop tile and carries something.
    pub open spec fn drop_here(self, grid: Grid) -> bool {
        grid.drop_positions@.contains(self.pos()) && self.carried() > 0
    }

    // ---------------------------------------------------------------- harvester

    /// The tree a harvester heads for.
    pub open spec fn harvest_target(self, trees: Seq<Tree>) -> Option<(int, Tree)> {
        if self.objective == ANY {
            closest(trees, TreeFilter::Bearing, self.pos())
        } else {
            self.shorter_fruit(trees, fruit_of(self.objective))
        }
    }

    /// The harvester can look for its tree.
    pub open spec fn harvest_target_ok(self, trees: Seq<Tree>) -> bool {
        if self.objective == ANY {
            closest_ok(trees, TreeFilter::Bearing, self.pos())
        } else {
            &&& names_fruit(self.objective)
            &&& closest_ok(trees, TreeFilter::BearingOf(fruit_of(self.objective)), self.pos())
            &&& closest(trees, TreeFilter::BearingOf(fruit_of(self.objective)), self.pos()) is None
                ==> closest_ok(trees, TreeFilter::Bearing, self.pos())
        }
    }

    /// What a harvester does.
    pub open spec fn harvester_out(self, grid: Grid, trees: Seq<Tree>) -> Option<Seq<char>> {
        if self.drop_here(grid) {
            Some(id_cmd("DROP"@, self.id))
        } else if self.full() {
            self.drop_target(grid)
        } else if self.harvest_here(grid, trees) {
            Some(id_cmd("HARVEST"@, self.id))
        } else {
            tree_move(self.id, self.harvest_target(trees))
        }
    }

    /// A harvester can act.
    pub open spec fn harvester_ok(self, grid: Grid, trees: Seq<Tree>) -> bool {
        &&& self.carry_ok()
        &&& !self.drop_here(grid) && self.full() ==> self.drop_dist_ok(grid)
        &&& !self.drop_here(grid) && !self.full() ==> self.harvest_ok(grid, trees)
        &&& !self.drop_here(grid) && !self.full() && !self.harvest_here(grid, trees) ==> self.harvest_target_ok(trees)
    }

    /// Drops at the shack, heads back when full, harvests where it stands, or heads for the
    /// closest tree bearing the fruit of its objective (or any fruit).
    pub fn act_as_harvester(&self, grid: &Grid, trees: &Vec<Tree>) -> (r: Option<String>)
        requires
            grid.well_formed(),
            self.harvester_ok(*grid, trees@),
        ensures
            text_of(r) == self.harvester_out(*grid, trees@),
    {
        if self.can_drop(&grid.drop_positions) {
            return Some(self.drop());
        }
        if self.is_full() {
            return self.go_to_drop(grid);
        }
        if self.can_harvest(grid, trees) {
            return Some(self.harvest());
        }
        let best_tree = if self.objective == ANY {
            self.find_shorter_tree(trees)
        } else {
            self.find_shorter_fruit(trees, Fruit::from_usize(self.objective))
        };
        match best_tree {
            Some((_, tree)) => Some(self.go_to_tree(tree)),
            None => None,
        }
    }

    // ---------------------------------------------------------------- griefer

    /// What a griefer does.
    pub open spec fn griefer_out(self, grid: Grid, trees: Seq<Tree>) -> Option<Seq<char>> {
        if self.grief_here(grid, trees) {
            Some(id_cmd("CHOP"@, self.id))
        } else {
            move_to(self.id, grid.grief_walk_target(trees))
        }
    }

    /// A griefer can act.
    pub open spec fn griefer_ok(self, grid: Grid, trees: Seq<Tree>) -> bool {
        &&& self.grief_ok(grid, trees)
        &&& !self.grief_here(grid, trees) ==> forall|k: int| 0 <= k < trees.len() ==> grid.on_board(#[trigger] trees[k].pos())
    }

    /// Chops the enemy's tree it stands on, or heads for the tree worth destroying closest to
    /// the enemy shack.
    pub fn act_as_griefer(&self, grid: &Grid, trees: &Vec<Tree>) -> (r: Option<String>)
        requires
            grid.well_formed(),
            self.griefer_ok(*grid, trees@),
        ensures
            text_of(r) == self.griefer_out(*grid, trees@),
    {
        if self.can_grief(grid, trees) {
            return Some(self.chop());
        }
        self.go_to_grief(grid, trees)
    }

    // ---------------------------------------------------------------- thieves

    /// What a thief that wastes nothing does.
    pub open spec fn thief_no_waste_out(self, grid: Grid, trees: Seq<Tree>) -> Option<Seq<char>> {
        if self.drop_here(grid) {
            Some(id_cmd("DROP"@, self.id))
        } else if self.full() {
            self.drop_target(grid)
        } else {
            self.griefer_out(grid, trees)
        }
    }

    /// A thief that wastes nothing can act.
    pub open spec fn thief_no_waste_ok(self, grid: Grid, trees: Seq<Tree>) -> bool {
        &&& self.carry_ok()
        &&& !self.drop_here(grid) && self.full() ==> self.drop_dist_ok(grid)
        &&& !self.drop_here(grid) && !self.full() ==> self.griefer_ok(grid, trees)
    }

    /// Drops at the shack, heads back when full, and otherwise acts as a griefer.
    pub fn act_as_thief_no_waste(&self, grid: &Grid, trees: &Vec<Tree>) -> (r: Option<String>)
        requires
            grid.well_formed(),
            self.thief_no_waste_ok(*grid, trees@),
        ensures
            text_of(r) == self.thief_no_waste_out(*grid, trees@),
    {
        if self.can_drop(&grid.drop_positions) {
            return Some(self.drop());
        }
        if self.is_full() {
            return self.go_to_drop(grid);
        }
        return self.act_as_griefer(grid, trees);
    }

    /// The troll is full and closer to our shack than to the enemy's.
    pub open spec fn heads_home(self, grid: Grid) -> bool {
        self.full() && dist(self.pos(), grid.enemy_shack_position) > dist(self.pos(), grid.shack_position)
    }

    /// What a thief does.
    pub open spec fn thief_out(self, grid: Grid, trees: Seq<Tree>) -> Option<Seq<char>> {
        if self.drop_here(grid) {
            Some(id_cmd("DROP"@, self.id))
        } else if self.heads_home(grid) {
            self.drop_target(grid)
        } else {
            self.griefer_out(grid, trees)
        }
    }

    /// A thief can act.
    pub open spec fn thief_ok(self, grid: Grid, trees: Seq<Tree>) -> bool {
        &&& self.carry_ok()
        &&& !self.drop_here(grid) && self.full() ==> dist_ok(self.pos(), grid.enemy_shack_position) && dist_ok(self.pos(), grid.shack_position)
        &&& !self.drop_here(grid) && self.heads_home(grid) ==> self.drop_dist_ok(grid)
        &&& !self.drop_here(grid) && !self.heads_home(grid) ==> self.griefer_ok(grid, trees)
    }

    /// Drops at the shack, heads back when full and closer to our shack than to the enemy's,
    /// and otherwise acts as a griefer.
    pub fn act_as_thief(&self, grid: &Grid, trees: &Vec<Tree>) -> (r: Option<String>)
        requires
            grid.well_formed(),
            self.thief_ok(*grid, trees@),
        ensures
            text_of(r) == self.thief_out(*grid, trees@),
    {
        if self.can_drop(&grid.drop_positions) {
            return Some(self.drop());
        }
        if self.is_full() && manhattan_dist((self.x, self.y), grid.enemy_shack_position) > manhattan_dist((self.x, self.y), grid.shack_position) {
            return self.go_to_drop(grid);
        }
        self.act_as_griefer(grid, trees)
    }

    // ---------------------------------------------------------------- choper

    /// The tree a choper heads for.
    pub open spec fn cut_target(self, grid: Grid, trees: Seq<Tree>) -> Option<(int, Tree)> {
        let p = self.pos();
        if self.objective == CUT_ALL {
            tree_dist_at(trees, first_min_at(trees, grid.cuttable(1), dist_from(p)), p)
        } else if self.objective == CHOP_ANY {
            tree_dist_at(trees, first_min_at(trees, grid.cuttable(4), dist_from(p)), p)
        } else {
            tree_dist_at(trees, first_min_at(trees, grid.fruit_cuttable(fruit_of(self.objective), 4), dist_from(p)), p)
        }
    }

    /// The choper can look for any tree of at least `min_size`.
    pub open spec fn cut_any_ok(self, grid: Grid, trees: Seq<Tree>, min_size: i32) -> bool {
        &&& forall|k: int| 0 <= k < trees.len() && (#[trigger] trees[k]).size >= min_size ==> grid.on_board(trees[k].pos())
        &&& forall|k: int| 0 <= k < trees.len() && (#[trigger] grid.cuttable(min_size)(trees[k])) ==> dist_ok(trees[k].pos(), self.pos())
    }

    /// The choper can look for its tree.
    pub open spec fn cut_target_ok(self, grid: Grid, trees: Seq<Tree>) -> bool {
        let p = self.pos();
        if self.objective == CUT_ALL {
            self.cut_any_ok(grid, trees, 1)
        } else if self.objective == CHOP_ANY {
            self.cut_any_ok(grid, trees, 4)
        } else {
            let f = fruit_of(self.objective);
            &&& names_fruit(self.objective)
            &&& forall|k: int| 0 <= k < trees.len() && (#[trigger] trees[k]).fruit == f && trees[k].size >= 4
                ==> grid.on_board(trees[k].pos())
            &&& forall|k: int| 0 <= k < trees.len() && (#[trigger] grid.fruit_cuttable(f, 4)(trees[k]))
                ==> dist_ok(trees[k].pos(), p)
        }
    }

    /// What a choper does.
    pub open spec fn choper_out(self, grid: Grid, trees: Seq<Tree>) -> Option<Seq<char>> {
        if self.objective == THIEF_NO_WASTE {
            self.thief_no_waste_out(grid, trees)
        } else if self.drop_here(grid) {
            Some(id_cmd("DROP"@, self.id))
        } else if self.full() {
            self.drop_target(grid)
        } else if self.chop_here(grid) {
            Some(id_cmd("CHOP"@, self.id))
        } else {
            tree_move(self.id, self.cut_target(grid, trees))
        }
    }

    /// A choper can act.
    pub open spec fn choper_ok(self, grid: Grid, trees: Seq<Tree>) -> bool {
        if self.objective == THIEF_NO_WASTE {
            self.thief_no_waste_ok(grid, trees)
        } else {
            &&& self.carry_ok()
            &&& !self.drop_here(grid) && self.full() ==> self.drop_dist_ok(grid)
            &&& !self.drop_here(grid) && !self.full() ==> self.chop_ok(grid)
            &&& !self.drop_here(grid) && !self.full() && !self.chop_here(grid) ==> self.cut_target_ok(grid, trees)
        }
    }

    /// Acts as a thief that wastes nothing where that is its objective; otherwise drops at the
    /// shack, heads back when full, chops the tree it stands on, or heads for the closest tree
    /// its objective allows to cut.
    pub fn act_as_choper(&self, grid: &Grid, trees: &Vec<Tree>) -> (r: Option<String>)
        requires
            grid.well_formed(),
            self.choper_ok(*grid, trees@),
        ensures
            text_of(r) == self.choper_out(*grid, trees@),
    {
        if self.objective == THIEF_NO_WASTE {
            return self.act_as_thief_no_waste(grid, trees);
        }
        if self.can_drop(&grid.drop_positions) {
            return Some(self.drop());
        }
        if self.is_full() {
            return self.go_to_drop(grid);
        }
        if self.can_chop(grid) {
            return Some(self.chop());
        }
        let pos = (self.x, self.y);
        let best_tree = if self.objective == CUT_ALL {
            grid.find_shorter_available_tree_to_cut(pos, trees, 1)
        } else if self.objective == CHOP_ANY {
            grid.find_shorter_available_tree_to_cut(pos, trees, 4)
        } else {
            grid.find_shorter_available_fruit_to_cut(pos, trees, Fruit::from_usize(self.objective), 4)
        };
        match best_tree {
            Some((_, tree)) => Some(self.go_to_tree(tree)),
            None => None,
        }
    }

    // ---------------------------------------------------------------- miner

    /// The objective is one of chopping.
    pub open spec fn chopping_objective(self) -> bool {
        CHOP_PLUM <= self.objective <= CUT_ALL
    }

    /// What a miner does.
    pub open spec fn miner_out(self, grid: Grid, trees: Seq<Tree>) -> Option<Seq<char>> {
        if self.chopping_objective() {
            self.choper_out(grid, trees)
        } else if self.objective == THIEF {
            self.thief_out(grid, trees)
        } else if self.objective == THIEF_NO_WASTE {
            self.thief_no_waste_out(grid, trees)
        } else if self.drop_here(grid) {
            Some(id_cmd("DROP"@, self.id))
        } else if self.full() {
            self.drop_target(grid)
        } else if self.pos() == grid.mine_position {
            Some(id_cmd("MINE"@, self.id))
        } else {
            Some(move_cmd(self.id, grid.mine_position.0, grid.mine_position.1))
        }
    }

    /// A miner can act.
    pub open spec fn miner_ok(self, grid: Grid, trees: Seq<Tree>) -> bool {
        if self.chopping_objective() {
            self.choper_ok(grid, trees)
        } else if self.objective == THIEF {
            self.thief_ok(grid, trees)
        } else if self.objective == THIEF_NO_WASTE {
            self.thief_no_waste_ok(grid, trees)
        } else {
            &&& self.carry_ok()
            &&& !self.drop_here(grid) && self.full() ==> self.drop_dist_ok(grid)
        }
    }

    /// Chops, steals or mines according to its objective: a miner drops at the shack, heads
    /// back when full, mines where it stands on the mine tile, or heads for it.
    pub fn act_as_miner(&self, grid: &Grid, trees: &Vec<Tree>) -> (r: Option<String>)
        requires
            grid.well_formed(),
            self.miner_ok(*grid, trees@),
        ensures
            text_of(r) == self.miner_out(*grid, trees@),
    {
        if CHOP_PLUM <= self.objective && self.objective <= CUT_ALL {
            return self.act_as_choper(grid, trees);
        }
        if self.objective == THIEF {
            return self.act_as_thief(grid, trees);
        }
        if self.objective == THIEF_NO_WASTE {
            return self.act_as_thief_no_waste(grid, trees);
        }
        if self.can_drop(&grid.drop_positions) {
            return Some(self.drop());
        }
        if self.is_full() {
            return self.go_to_drop(grid);
        }
        if self.can_mine(grid.mine_position) {
            return Some(self.mine());
        }
        return Some(self.go_to(grid.mine_position.0, grid.mine_position.1));
    }
}

impl Troll {
    // ---------------------------------------------------------------- planter

    /// The fruit of the planting objective.
    pub open spec fn planted(self) -> Fruit {
        fruit_of(self.objective)
    }

    /// The stock holds the fruit of the planting objective.
    pub open spec fn stock_has(self, inventory: Inventory) -> bool {
        inventory.resources@[self.objective - 7] > 0
    }

    /// An empty planter can pick fruit from the stock where it stands.
    pub open spec fn pick_here(self, grid: Grid, inventory: Inventory) -> bool {
        self.stock_has(inventory) && grid.drop_positions@.contains(self.pos()) && !self.full()
    }

    /// Where an empty planter that cannot pick or harvest goes, if anywhere.
    pub open spec fn fetch_out(self, grid: Grid, trees: Seq<Tree>, inventory: Inventory) -> Option<Option<Seq<char>>> {
        match self.shorter_fruit(trees, self.planted()) {
            None => if self.stock_has(inventory) { Some(self.drop_target(grid)) } else { None },
            Some((d, t)) => if self.stock_has(inventory) && d > min_dist_to(grid.drop_positions@, self.pos()) {
                Some(self.drop_target(grid))
            } else {
                Some(Some(move_cmd(self.id, t.x, t.y)))
            },
        }
    }

    /// Where a planter carrying fruit goes, if anywhere.
    pub open spec fn sow_out(self, grid: Grid) -> Option<Option<Seq<char>>> {
        if self.items@[fruit_index(self.planted()) as int] > 0 {
            if self.plant_here(grid) {
                Some(Some(fruit_cmd("PLANT"@, self.id, self.plant_fruit_of())))
            } else {
                match grid.nearest_free(4) {
                    None => None,
                    Some(p) => Some(Some(move_cmd(self.id, p.0, p.1))),
                }
            }
        } else {
            None
        }
    }

    /// What a planter does, if its objective can be pursued at all.
    pub open spec fn planter_step(self, grid: Grid, trees: Seq<Tree>, inventory: Inventory) -> Option<Option<Seq<char>>> {
        if self.carried() == 0 {
            if self.pick_here(grid, inventory) {
                Some(Some(fruit_cmd("PICK"@, self.id, self.planted())))
            } else if self.harvest_here(grid, trees) {
                Some(Some(id_cmd("HARVEST"@, self.id)))
            } else {
                self.fetch_out(grid, trees, inventory)
            }
        } else {
            self.sow_out(grid)
        }
    }

    /// What a planter does, and the troll afterwards: where its objective cannot be pursued it
    /// takes any fruit as objective and acts as a harvester.
    pub open spec fn planter_out(self, grid: Grid, trees: Seq<Tree>, inventory: Inventory) -> (Option<Seq<char>>, Troll) {
        match self.planter_step(grid, trees, inventory) {
            Some(o) => (o, self),
            None => (targeted(self, ANY).harvester_out(grid, trees), targeted(self, ANY)),
        }
    }

    /// The drop tiles exist and are at a computable distance.
    pub open spec fn base_ok(self, grid: Grid) -> bool {
        grid.drop_positions@.len() > 0 && self.drop_dist_ok(grid)
    }

    /// An empty planter can act.
    pub open spec fn fetch_ok(self, grid: Grid, trees: Seq<Tree>, inventory: Inventory) -> bool {
        &&& closest_ok(trees, TreeFilter::BearingOf(self.planted()), self.pos())
        &&& closest(trees, TreeFilter::BearingOf(self.planted()), self.pos()) is None
            ==> closest_ok(trees, TreeFilter::Bearing, self.pos())
        &&& self.stock_has(inventory) ==> self.base_ok(grid)
    }

    /// A planter carrying fruit can act.
    pub open spec fn sow_ok(self, grid: Grid) -> bool {
        self.items@[fruit_index(self.planted()) as int] > 0 ==> {
            &&& self.plant_here_ok(grid)
            &&& self.plant_here(grid) ==> self.plant_ok()
            &&& !self.plant_here(grid) ==> grid.area_ok(4)
        }
    }

    /// A planter can act.
    pub open spec fn planter_ok(self, grid: Grid, trees: Seq<Tree>, inventory: Inventory) -> bool {
        &&& PLANT_PLUM <= self.objective <= 12
        &&& self.carry_ok()
        &&& self.carried() == 0 ==> {
            &&& !self.pick_here(grid, inventory) ==> self.harvest_ok(grid, trees)
            &&& !self.pick_here(grid, inventory) && !self.harvest_here(grid, trees) ==> self.fetch_ok(grid, trees, inventory)
        }
        &&& self.carried() != 0 ==> self.sow_ok(grid)
        &&& self.planter_step(grid, trees, inventory) is None ==> targeted(self, ANY).harvester_ok(grid, trees)
    }

    /// An empty planter picks the fruit from the stock, harvests, or heads for the closest
    /// tree of its fruit (or for the shack, where the stock has the fruit and it is nearer);
    /// a planter carrying its fruit plants it or heads for the nearest free spot. Where none of
    /// this applies, it takes any fruit as objective and acts as a harvester.
    pub fn act_as_planter(&mut self, grid: &Grid, trees: &Vec<Tree>, inventory: &Inventory) -> (r: Option<String>)
        requires
            grid.well_formed(),
            old(self).planter_ok(*grid, trees@, *inventory),
        ensures
            (text_of(r), *final(self)) == old(self).planter_out(*grid, trees@, *inventory),
    {
        if self.empty() {
            if self.can_pick(&grid.drop_positions, inventory) {
                return Some(self.pick());
            }
            if self.can_harvest(grid, trees) {
                return Some(self.harvest());
            }
            let best_tree = self.find_shorter_fruit(trees, Fruit::from_usize(self.objective));
            match best_tree {
                None => {
                    if inventory.resources[self.objective - 7] > 0 {
                        return self.go_to_drop(grid);
                    }
                },
                Some((dist, tree)) => {
                    if inventory.resources[self.objective - 7] > 0 && (dist > self.dist_from_base(grid)) {
                        return self.go_to_drop(grid);
                    }
                    return Some(self.go_to_tree(tree));
                },
            }
        } else {
            if self.have_fruit(Fruit::from_usize(self.objective)) > 0 {
                if self.can_plant(grid) {
                    return Some(self.plant());
                }
                match grid.nearest_empty_place_to_plant(4) {
                    None => {},
                    Some((x, y)) => {
                        return Some(self.go_to(x, y));
                    },
                }
            }
        }
        // If the target is impossible, do whatever.
        self.target(ANY);
        return self.act_as_harvester(grid, trees);
    }

    // ---------------------------------------------------------------- peasant

    /// What a peasant does, and the troll afterwards.
    pub open spec fn peasant_out(self, grid: Grid, trees: Seq<Tree>, inventory: Inventory) -> (Option<Seq<char>>, Troll) {
        if self.objective <= BANANA || self.objective == ANY {
            (self.harvester_out(grid, trees), self)
        } else if PLANT_PLUM <= self.objective <= PLANT_ANY {
            self.planter_out(grid, trees, inventory)
        } else {
            (self.choper_out(grid, trees), self)
        }
    }

    /// A peasant can act: its objective is a fruit, any fruit, planting or cutting everything.
    pub open spec fn peasant_ok(self, grid: Grid, trees: Seq<Tree>, inventory: Inventory) -> bool {
        if self.objective <= BANANA || self.objective == ANY {
            self.harvester_ok(grid, trees)
        } else if PLANT_PLUM <= self.objective <= PLANT_ANY {
            self.planter_ok(grid, trees, inventory)
        } else {
            self.objective == CUT_ALL && self.choper_ok(grid, trees)
        }
    }

    /// Harvests, plants or cuts according to its objective.
    pub fn act_as_peasant(&mut self, grid: &Grid, trees: &Vec<Tree>, inventory: &Inventory) -> (r: Option<String>)
        requires
            grid.well_formed(),
            old(self).peasant_ok(*grid, trees@, *inventory),
        ensures
            (text_of(r), *final(self)) == old(self).peasant_out(*grid, trees@, *inventory),
    {
        if self.objective <= BANANA || self.objective == ANY {
            self.act_as_harvester(grid, trees)
        } else if PLANT_PLUM <= self.objective && self.objective <= PLANT_ANY {
            self.act_as_planter(grid, trees, inventory)
        } else {
            self.act_as_choper(grid, trees)
        }
    }

    // ---------------------------------------------------------------- banana tricks

    /// What a troll playing the banana tricks does, and the troll afterwards.
    pub open spec fn banana_tricks_out(self, grid: Grid, trees: Seq<Tree>, inventory: Inventory) -> (Option<Seq<char>>, Troll) {
        if self.full() {
            if self.items@[BANANA as int] > 0 {
                (Some(fruit_cmd("PLANT"@, self.id, Fruit::Banana)), self)
            } else if self.drop_here(grid) {
                (Some(id_cmd("DROP"@, self.id)), self)
            } else {
                (self.drop_target(grid), self)
            }
        } else if inventory.resources@[BANANA as int] > 0 {
            (self.drop_target(grid), self)
        } else {
            (targeted(self, CUT_ALL).choper_out(grid, trees), targeted(self, CUT_ALL))
        }
    }

    /// A troll playing the banana tricks can act.
    pub open spec fn banana_tricks_ok(self, grid: Grid, trees: Seq<Tree>, inventory: Inventory) -> bool {
        &&& self.carry_ok()
        &&& self.full() && self.items@[BANANA as int] <= 0 && !self.drop_here(grid) ==> self.drop_dist_ok(grid)
        &&& !self.full() && inventory.resources@[BANANA as int] > 0 ==> {
            &&& self.drop_dist_ok(grid)
            &&& grid.drop_positions@.contains(self.pos()) ==> names_fruit(self.objective)
        }
        &&& !self.full() && inventory.resources@[BANANA as int] <= 0 ==> targeted(self, CUT_ALL).choper_ok(grid, trees)
    }

    /// A full troll plants its bananas or brings what it carries back; otherwise it heads for
    /// the shack while the stock has bananas, or cuts everything.
    pub fn act_as_banana_tricks(&mut self, grid: &Grid, trees: &Vec<Tree>, inventory: &Inventory) -> (r: Option<String>)
        requires
            grid.well_formed(),
            old(self).banana_tricks_ok(*grid, trees@, *inventory),
        ensures
            (text_of(r), *final(self)) == old(self).banana_tricks_out(*grid, trees@, *inventory),
    {
        if self.is_full() {
            if self.have_fruit(Fruit::Banana) > 0 {
                return Some(self.plant_fruit(Fruit::Banana));
            }
            if self.can_drop(&grid.drop_positions) {
                return Some(self.drop());
            }
            return self.go_to_drop(grid);
        }
        if inventory.resources[BANANA] > 0 {
            if self.can_pick_fruit(&grid.drop_positions, inventory, Fruit::Banana) {
                self.pick();
            }
            return self.go_to_drop(grid);
        }
        self.target(CUT_ALL);
        self.act_as_choper(grid, trees)
    }

    // ---------------------------------------------------------------- polyvalent

    /// The troll is full and carries iron or wood.
    pub open spec fn full_of_materials(self) -> bool {
        self.full() && (self.items@[IRON as int] > 0 || self.items@[WOOD as int] > 0)
    }

    /// What a polyvalent troll does, and the troll afterwards.
    pub open spec fn poly_out(self, grid: Grid, trees: Seq<Tree>, inventory: Inventory) -> (Option<Seq<char>>, Troll) {
        if self.full_of_materials() {
            if self.drop_here(grid) {
                (Some(id_cmd("DROP"@, self.id)), self)
            } else {
                (self.drop_target(grid), self)
            }
        } else if self.objective == THIEF {
            (self.thief_out(grid, trees), self)
        } else if self.objective == THIEF_NO_WASTE {
            (self.thief_no_waste_out(grid, trees), self)
        } else if self.objective == BANANA_TRICKS {
            self.banana_tricks_out(grid, trees, inventory)
        } else if self.objective == IRON {
            (self.miner_out(grid, trees), self)
        } else if self.objective == WOOD {
            (self.choper_out(grid, trees), self)
        } else {
            self.peasant_out(grid, trees, inventory)
        }
    }

    /// A polyvalent troll can act.
    pub open spec fn poly_ok(self, grid: Grid, trees: Seq<Tree>, inventory: Inventory) -> bool {
        &&& self.carry_ok()
        &&& self.full_of_materials() ==> (!self.drop_here(grid) ==> self.drop_dist_ok(grid))
        &&& !self.full_of_materials() ==> {
            if self.objective == THIEF {
                self.thief_ok(grid, trees)
            } else if self.objective == THIEF_NO_WASTE {
                self.thief_no_waste_ok(grid, trees)
            } else if self.objective == BANANA_TRICKS {
                self.banana_tricks_ok(grid, trees, inventory)
            } else if self.objective == IRON {
                self.miner_ok(grid, trees)
            } else if self.objective == WOOD {
                self.choper_ok(grid, trees)
            } else {
                self.peasant_ok(grid, trees, inventory)
            }
        }
    }

    /// A full troll carrying iron or wood brings it back; otherwise it steals, plays the banana
    /// tricks, mines, chops, harvests or plants according to its objective.
    pub fn act_as_poly(&mut self, grid: &Grid, trees: &Vec<Tree>, inventory: &Inventory) -> (r: Option<String>)
        requires
            grid.well_formed(),
            old(self).poly_ok(*grid, trees@, *inventory),
        ensures
            (text_of(r), *final(self)) == old(self).poly_out(*grid, trees@, *inventory),
    {
        if self.is_full() && (self.items[IRON] > 0 || self.items[WOOD] > 0) {
            if self.can_drop(&grid.drop_positions) {
                return Some(self.drop());
            }
            return self.go_to_drop(grid);
        }
        if self.objective == THIEF {
            self.act_as_thief(grid, trees)
        } else if self.objective == THIEF_NO_WASTE {
            self.act_as_thief_no_waste(grid, trees)
        } else if self.objective == BANANA_TRICKS {
            self.act_as_banana_tricks(grid, trees, inventory)
        } else if self.objective == IRON {
            self.act_as_miner(grid, trees)
        } else if self.objective == WOOD {
            self.act_as_choper(grid, trees)
        } else {
            self.act_as_peasant(grid, trees, inventory)
        }
    }

    // ---------------------------------------------------------------- any troll

    /// What a troll does this turn according to its role, and the troll afterwards.
    pub open spec fn act_out(self, grid: Grid, trees: Seq<Tree>, inventory: Inventory) -> (Option<Seq<char>>, Troll) {
        match self.class {
            TrollType::Poly => self.poly_out(grid, trees, inventory),
            TrollType::Choper => (self.choper_out(grid, trees), self),
            TrollType::Griefer => (self.griefer_out(grid, trees), self),
            TrollType::Miner => (self.miner_out(grid, trees), self),
            TrollType::Peasant => self.peasant_out(grid, trees, inventory),
        }
    }

    /// A troll can act this turn.
    pub open spec fn act_ok(self, grid: Grid, trees: Seq<Tree>, inventory: Inventory) -> bool {
        match self.class {
            TrollType::Poly => self.poly_ok(grid, trees, inventory),
            TrollType::Choper => self.choper_ok(grid, trees),
            TrollType::Griefer => self.griefer_ok(grid, trees),
            TrollType::Miner => self.miner_ok(grid, trees),
            TrollType::Peasant => self.peasant_ok(grid, trees, inventory),
        }
    }

    /// The command the troll gives this turn, according to its role, if any.
    pub fn act(&mut self, grid: &Grid, trees: &Vec<Tree>, inventory: &Inventory) -> (r: Option<String>)
        requires
            grid.well_formed(),
            old(self).act_ok(*grid, trees@, *inventory),
        ensures
            (text_of(r), *final(self)) == old(self).act_out(*grid, trees@, *inventory),
    {
        match self.class {
            TrollType::Poly => self.act_as_poly(grid, trees, inventory),
            TrollType::Choper => self.act_as_choper(grid, trees),
            TrollType::Griefer => self.act_as_griefer(grid, trees),
            TrollType::Miner => self.act_as_miner(grid, trees),
            TrollType::Peasant => self.act_as_peasant(grid, trees, inventory),
        }
    }
}

} // verus!
