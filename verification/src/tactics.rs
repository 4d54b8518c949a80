use vstd::prelude::*;
use crate::consts::{ANY, CHOP_ANY, CUT_ALL};
use crate::fruit::{Fruit, Tree, fruit_index, fruit_of, names_fruit};
use crate::troll::{Troll, move_cmd};
use crate::grid::{Entity, Tile};
use crate::board::{Grid, found, tree_dist_at, tree_pos_at, imin, dist_from};
use crate::inventory::Inventory;
use crate::util::{
    dist, dist_ok, manhattan_dist, is_first_min, none_kept, keys_agree, first_min_index,
    lemma_first_min_agree, lemma_none_agree, lemma_dist_on_board, first_min_at, lemma_first_min_at,
    lemma_first_min_at_none,
};

verus! {

/// The least distance from the positions of `ps` to `p` (zero for no position).
pub open spec fn min_dist_to(ps: Seq<(i32, i32)>, p: (i32, i32)) -> int
    decreases ps.len(),
{
    if ps.len() == 0 {
        0
    } else if ps.len() == 1 {
        dist(ps[0], p)
    } else {
        imin(min_dist_to(ps.drop_last(), p), dist(ps.last(), p))
    }
}

/// The least distance from the positions of `ps` to `p`.
pub fn min_distance(ps: &Vec<(i32, i32)>, p: (i32, i32)) -> (d: i32)
    requires
        ps@.len() > 0,
        forall|k: int| 0 <= k < ps@.len() ==> dist_ok(#[trigger] ps@[k], p),
    ensures
        d == min_dist_to(ps@, p),
{
    assert(dist_ok(ps@[0], p));
    let mut best = manhattan_dist(ps[0], p);
    let mut k: usize = 1;
    assert(ps@.take(1).drop_last() == Seq::<(i32, i32)>::empty());
    while k < ps.len()
        invariant
            1 <= k <= ps@.len(),
            forall|j: int| 0 <= j < ps@.len() ==> dist_ok(#[trigger] ps@[j], p),
            best == min_dist_to(ps@.take(k as int), p),
        decreases ps@.len() - k,
    {
        assert(ps@.take(k + 1).drop_last() == ps@.take(k as int));
        assert(dist_ok(ps@[k as int], p));
        let d = manhattan_dist(ps[k], p);
        if d < best {
            best = d;
        }
        k = k + 1;
    }
    assert(ps@.take(ps@.len() as int) == ps@);
    best
}

/// The trees a troll looks for.
#[derive(Clone, Copy, PartialEq, Eq, Structural, Debug)]
pub enum TreeFilter {
    /// Trees bearing fruit.
    Bearing,
    /// Full grown trees that are not apple trees.
    ChoppableNotApple,
    /// Trees of a fruit that bear fruit.
    BearingOf(Fruit),
    /// Full grown trees of a fruit.
    ChoppableOf(Fruit),
}

/// The filter keeps the tree.
pub open spec fn keeps(f: TreeFilter, t: Tree) -> bool {
    match f {
        TreeFilter::Bearing => t.nb_fruit > 0,
        TreeFilter::ChoppableNotApple => t.fruit != Fruit::Apple && t.size == 4,
        TreeFilter::BearingOf(fruit) => t.fruit == fruit && t.nb_fruit > 0,
        TreeFilter::ChoppableOf(fruit) => t.fruit == fruit && t.size == 4,
    }
}

/// The filter as a predicate.
pub open spec fn keeper(f: TreeFilter) -> spec_fn(Tree) -> bool {
    |t: Tree| keeps(f, t)
}

/// The first tree kept by `f` closest to `p`, with its distance.
pub open spec fn closest(trees: Seq<Tree>, f: TreeFilter, p: (i32, i32)) -> Option<(int, Tree)> {
    tree_dist_at(trees, first_min_at(trees, keeper(f), dist_from(p)), p)
}

/// Every tree kept by `f` is at a computable distance from `p`.
pub open spec fn closest_ok(trees: Seq<Tree>, f: TreeFilter, p: (i32, i32)) -> bool {
    forall|k: int| 0 <= k < trees.len() && keeps(f, #[trigger] trees[k]) ==> dist_ok(trees[k].pos(), p)
}

fn keeps_exec(f: TreeFilter, t: &Tree) -> (b: bool)
    ensures
        b == keeps(f, *t),
{
    match f {
        TreeFilter::Bearing => t.nb_fruit > 0,
        TreeFilter::ChoppableNotApple => t.fruit != Fruit::Apple && t.size == 4,
        TreeFilter::BearingOf(fruit) => t.fruit == fruit && t.nb_fruit > 0,
        TreeFilter::ChoppableOf(fruit) => t.fruit == fruit && t.size == 4,
    }
}

/// The first tree kept by `f` closest to `p`, with its distance.
fn closest_tree<'a>(trees: &'a Vec<Tree>, f: TreeFilter, p: (i32, i32)) -> (r: Option<(i32, &'a Tree)>)
    requires
        closest_ok(trees@, f, p),
    ensures
        found(r) == closest(trees@, f, p),
{
    let ghost sel = keeper(f);
    let ghost key = dist_from(p);
    let mut keys: Vec<Option<i32>> = Vec::new();
    let mut j: usize = 0;
    while j < trees.len()
        invariant
            closest_ok(trees@, f, p),
            sel == keeper(f),
            key == dist_from(p),
            j <= trees@.len(),
            keys_agree(trees@.take(j as int), sel, key, keys@),
        decreases trees@.len() - j,
    {
        let t = &trees[j];
        if keeps_exec(f, t) {
            assert(keeps(f, trees@[j as int]));
            keys.push(Some(manhattan_dist((t.x, t.y), p)));
        } else {
            keys.push(None);
        }
        assert(trees@.take(j + 1) == trees@.take(j as int).push(*t));
        j = j + 1;
    }
    assert(trees@.take(trees@.len() as int) == trees@);
    match first_min_index(&keys) {
        None => {
            proof {
                lemma_none_agree(trees@, sel, key, keys@);
                lemma_first_min_at_none(trees@, sel, key);
            }
            None
        },
        Some(i) => {
            proof {
                lemma_first_min_agree(trees@, sel, key, keys@, i as int);
                lemma_first_min_at(trees@, sel, key, i as int);
            }
            let d = keys[i].unwrap();
            Some((d, &trees[i]))
        },
    }
}

/// A tree of the wanted fruit bearing fruit exists.
pub open spec fn wanted_available(trees: Seq<Tree>, obj: usize) -> bool {
    exists|k: int| 0 <= k < trees.len() && (#[trigger] trees[k]).fruit == fruit_of(obj) && trees[k].nb_fruit > 0
}

/// A tree entity bearing fruit is among `es`.
pub open spec fn bearing_tree_among(es: Seq<Entity>) -> bool {
    exists|k: int| 0 <= k < es.len() && (#[trigger] es[k] matches Entity::Tree(t) && t.nb_fruit > 0)
}

/// A full grown tree entity is among `es`.
pub open spec fn grown_tree_among(es: Seq<Entity>) -> bool {
    exists|k: int| 0 <= k < es.len() && (#[trigger] es[k] matches Entity::Tree(t) && t.size == 4)
}

impl Troll {
    /// The troll may harvest tree `t`: it bears fruit, and where the objective names a fruit
    /// that some tree still bears, it is of that fruit.
    pub open spec fn harvests(self, t: Tree, trees: Seq<Tree>) -> bool {
        t.nb_fruit > 0 && (self.objective == ANY || (wanted_available(trees, self.objective) ==> t.fruit == fruit_of(self.objective)))
    }

    /// `can_harvest`'s answer.
    pub open spec fn harvest_here(self, grid: Grid, trees: Seq<Tree>) -> bool {
        let tile = grid.tile(self.pos());
        tile is Grass && exists|k: int| 0 <= k < tile.ents().len()
            && (#[trigger] tile.ents()[k] matches Entity::Tree(t) && self.harvests(t, trees))
    }

    /// `can_harvest` does not fail: the troll stands on the board, and where it might have to
    /// tell the fruit of its objective, the objective names one.
    pub open spec fn harvest_ok(self, grid: Grid, trees: Seq<Tree>) -> bool {
        &&& grid.on_board(self.pos())
        &&& self.objective == ANY || names_fruit(self.objective) || trees.len() == 0
            || !(grid.tile(self.pos()) is Grass && bearing_tree_among(grid.tile(self.pos()).ents()))
    }

    /// The troll stands on a tree it may harvest.
    pub fn can_harvest(&self, grid: &Grid, trees: &Vec<Tree>) -> (b: bool)
        requires
            grid.well_formed(),
            self.harvest_ok(*grid, trees@),
        ensures
            b == self.harvest_here(*grid, trees@),
    {
        let tile = grid.tile_at((self.x, self.y));
        match tile {
            Tile::Grass(entities) => {
                let mut k: usize = 0;
                while k < entities.len()
                    invariant
                        *tile == grid.tile(self.pos()),
                        *tile == Tile::Grass(*entities),
                        self.harvest_ok(*grid, trees@),
                        k <= entities@.len(),
                        forall|j: int| 0 <= j < k ==> !(#[trigger] entities@[j] matches Entity::Tree(t) && self.harvests(t, trees@)),
                    decreases entities@.len() - k,
                {
                    match &entities[k] {
                        Entity::Tree(t) => {
                            if t.nb_fruit > 0 {
                                assert(bearing_tree_among(entities@));
                                if self.objective == ANY {
                                    assert(entities@[k as int] matches Entity::Tree(t) && self.harvests(t, trees@));
                                    return true;
                                }
                                if trees.len() == 0 {
                                    assert(!wanted_available(trees@, self.objective));
                                    assert(entities@[k as int] matches Entity::Tree(t) && self.harvests(t, trees@));
                                    return true;
                                }
                                let wanted = Fruit::from_usize(self.objective);
                                let mut i: usize = 0;
                                let mut avail = false;
                                while i < trees.len()
                                    invariant
                                        wanted == fruit_of(self.objective),
                                        i <= trees@.len(),
                                        avail ==> wanted_available(trees@, self.objective),
                                        !avail ==> forall|j: int| 0 <= j < i ==> !((#[trigger] trees@[j]).fruit == wanted && trees@[j].nb_fruit > 0),
                                    decreases trees@.len() - i,
                                {
                                    if trees[i].fruit == wanted && trees[i].nb_fruit > 0 {
                                        avail = true;
                                    }
                                    i = i + 1;
                                }
                                if !avail || t.fruit == wanted {
                                    assert(entities@[k as int] matches Entity::Tree(t) && self.harvests(t, trees@));
                                    return true;
                                }
                            }
                        },
                        _ => {},
                    }
                    k = k + 1;
                }
                false
            },
            _ => false,
        }
    }

    /// The troll may chop tree `t`: its objective is to cut everything, or the tree is full
    /// grown and of the fruit the objective names, if it names one.
    pub open spec fn chops(self, t: Tree) -> bool {
        self.objective == CUT_ALL || (t.size == 4 && (self.objective == CHOP_ANY || t.fruit == fruit_of(self.objective)))
    }

    /// `can_chop`'s answer.
    pub open spec fn chop_here(self, grid: Grid) -> bool {
        let tile = grid.tile(self.pos());
        tile is Grass && exists|k: int| 0 <= k < tile.ents().len()
            && (#[trigger] tile.ents()[k] matches Entity::Tree(t) && self.chops(t))
    }

    /// `can_chop` does not fail: the troll stands on the board, and where it might have to
    /// tell the fruit of its objective, the objective names one.
    pub open spec fn chop_ok(self, grid: Grid) -> bool {
        &&& grid.on_board(self.pos())
        &&& self.objective == CUT_ALL || self.objective == CHOP_ANY || names_fruit(self.objective)
            || !(grid.tile(self.pos()) is Grass && grown_tree_among(grid.tile(self.pos()).ents()))
    }

    /// The troll stands on a tree it may chop.
    pub fn can_chop(&self, grid: &Grid) -> (b: bool)
        requires
            grid.well_formed(),
            self.chop_ok(*grid),
        ensures
            b == self.chop_here(*grid),
    {
        let tile = grid.tile_at((self.x, self.y));
        match tile {
            Tile::Grass(entities) => {
                let mut k: usize = 0;
                while k < entities.len()
                    invariant
                        *tile == grid.tile(self.pos()),
                        *tile == Tile::Grass(*entities),
                        self.chop_ok(*grid),
                        k <= entities@.len(),
                        forall|j: int| 0 <= j < k ==> !(#[trigger] entities@[j] matches Entity::Tree(t) && self.chops(t)),
                    decreases entities@.len() - k,
                {
                    match &entities[k] {
                        Entity::Tree(t) => {
                            if self.objective == CUT_ALL {
                                assert(entities@[k as int] matches Entity::Tree(t) && self.chops(t));
                                return true;
                            }
                            if t.size == 4 {
                                assert(grown_tree_among(entities@));
                                if self.objective == CHOP_ANY || t.fruit == Fruit::from_usize(self.objective) {
                                    assert(entities@[k as int] matches Entity::Tree(t) && self.chops(t));
                                    return true;
                                }
                            }
                        },
                        _ => {},
                    }
                    k = k + 1;
                }
                false
            },
            _ => false,
        }
    }

    /// The troll stands on a drop tile and carries something.
    pub fn can_drop(&self, drop_positions: &Vec<(i32, i32)>) -> (b: bool)
        requires
            drop_positions@.contains(self.pos()) ==> self.carry_ok(),
        ensures
            b == (drop_positions@.contains(self.pos()) && self.carried() > 0),
    {
        self.at_drop(drop_positions) && self.total_carry() > 0
    }

    /// The troll stands on the mine tile.
    pub fn can_mine(&self, mine_position: (i32, i32)) -> (b: bool)
        ensures
            b == (self.pos() == mine_position),
    {
        self.x == mine_position.0 && self.y == mine_position.1
    }

    /// The troll stands on a drop tile.
    fn at_drop(&self, drop_positions: &Vec<(i32, i32)>) -> (b: bool)
        ensures
            b == drop_positions@.contains(self.pos()),
    {
        let mut k: usize = 0;
        while k < drop_positions.len()
            invariant
                k <= drop_positions@.len(),
                forall|j: int| 0 <= j < k ==> #[trigger] drop_positions@[j] != self.pos(),
            decreases drop_positions@.len() - k,
        {
            let p = drop_positions[k];
            if p.0 == self.x && p.1 == self.y {
                assert(drop_positions@[k as int] == self.pos());
                return true;
            }
            k = k + 1;
        }
        false
    }

    /// The troll stands on a drop tile, has room, and the stock holds the fruit its planting
    /// objective names.
    pub fn can_pick(&self, drop_positions: &Vec<(i32, i32)>, inventory: &Inventory) -> (b: bool)
        requires
            7 <= self.objective < 13,
            inventory.resources@[self.objective - 7] > 0 && drop_positions@.contains(self.pos()) ==> self.carry_ok(),
        ensures
            b == (inventory.resources@[self.objective - 7] > 0 && drop_positions@.contains(self.pos()) && !self.full()),
    {
        inventory.resources[self.objective - 7] > 0 && self.at_drop(drop_positions) && !self.is_full()
    }

    /// The troll stands on a drop tile, has room, and the stock holds the fruit.
    pub fn can_pick_fruit(&self, drop_positions: &Vec<(i32, i32)>, inventory: &Inventory, fruit: Fruit) -> (b: bool)
        requires
            inventory.resources@[fruit_index(fruit) as int] > 0 && drop_positions@.contains(self.pos()) ==> self.carry_ok(),
        ensures
            b == (inventory.resources@[fruit_index(fruit) as int] > 0 && drop_positions@.contains(self.pos()) && !self.full()),
    {
        inventory.resources[fruit.to_usize()] > 0 && self.at_drop(drop_positions) && !self.is_full()
    }

    /// The least distance from the troll to a drop tile.
    pub fn dist_from_base(&self, grid: &Grid) -> (d: i32)
        requires
            grid.drop_positions@.len() > 0,
            forall|k: int| 0 <= k < grid.drop_positions@.len() ==> dist_ok(#[trigger] grid.drop_positions@[k], self.pos()),
        ensures
            d == min_dist_to(grid.drop_positions@, self.pos()),
    {
        min_distance(&grid.drop_positions, (self.x, self.y))
    }

    /// The first tree bearing fruit closest to the troll, with its distance.
    pub fn find_shorter_tree<'a>(&self, trees: &'a Vec<Tree>) -> (r: Option<(i32, &'a Tree)>)
        requires
            closest_ok(trees@, TreeFilter::Bearing, self.pos()),
        ensures
            found(r) == closest(trees@, TreeFilter::Bearing, self.pos()),
    {
        closest_tree(trees, TreeFilter::Bearing, (self.x, self.y))
    }

    /// The first full grown tree, apple trees aside, closest to the troll, with its distance.
    pub fn find_shorter_tree_to_chop<'a>(&self, trees: &'a Vec<Tree>) -> (r: Option<(i32, &'a Tree)>)
        requires
            closest_ok(trees@, TreeFilter::ChoppableNotApple, self.pos()),
        ensures
            found(r) == closest(trees@, TreeFilter::ChoppableNotApple, self.pos()),
    {
        closest_tree(trees, TreeFilter::ChoppableNotApple, (self.x, self.y))
    }

    /// The first tree of `fruit` bearing fruit closest to the troll, with its distance; where
    /// there is none, the first tree bearing fruit closest to the troll.
    pub fn find_shorter_fruit<'a>(&self, trees: &'a Vec<Tree>, fruit: Fruit) -> (r: Option<(i32, &'a Tree)>)
        requires
            closest_ok(trees@, TreeFilter::BearingOf(fruit), self.pos()),
            closest(trees@, TreeFilter::BearingOf(fruit), self.pos()) is None ==> closest_ok(trees@, TreeFilter::Bearing, self.pos()),
        ensures
            found(r) == self.shorter_fruit(trees@, fruit),
    {
        match closest_tree(trees, TreeFilter::BearingOf(fruit), (self.x, self.y)) {
            None => self.find_shorter_tree(trees),
            Some(a) => Some(a),
        }
    }

    /// `find_shorter_fruit`'s answer.
    pub open spec fn shorter_fruit(self, trees: Seq<Tree>, fruit: Fruit) -> Option<(int, Tree)> {
        match closest(trees, TreeFilter::BearingOf(fruit), self.pos()) {
            None => closest(trees, TreeFilter::Bearing, self.pos()),
            Some(a) => Some(a),
        }
    }

    /// The first full grown tree of `fruit` closest to the troll, with its distance.
    pub fn find_shorter_fruit_to_chop<'a>(&self, trees: &'a Vec<Tree>, fruit: Fruit) -> (r: Option<(i32, &'a Tree)>)
        requires
            closest_ok(trees@, TreeFilter::ChoppableOf(fruit), self.pos()),
        ensures
            found(r) == closest(trees@, TreeFilter::ChoppableOf(fruit), self.pos()),
    {
        closest_tree(trees, TreeFilter::ChoppableOf(fruit), (self.x, self.y))
    }
}

/// An optional command as plain text.
pub open spec fn text_of(r: Option<String>) -> Option<Seq<char>> {
    match r {
        Some(s) => Some(s@),
        None => None,
    }
}

/// The command that moves troll `id` to an optional position.
pub open spec fn move_to(id: i32, p: Option<(i32, i32)>) -> Option<Seq<char>> {
    match p {
        Some(p) => Some(move_cmd(id, p.0, p.1)),
        None => None,
    }
}

impl Grid {
    /// The position of the first tree closest to the enemy shack, wherever it stands.
    pub open spec fn grief_target(self, trees: Seq<Tree>) -> Option<(i32, i32)> {
        tree_pos_at(trees, first_min_at(trees, |t: Tree| true, self.enemy_dist()))
    }

    /// The position of the first tree closest to the enemy shack among those worth destroying.
    pub open spec fn grief_walk_target(self, trees: Seq<Tree>) -> Option<(i32, i32)> {
        tree_pos_at(trees, first_min_at(trees, self.griefable(), self.enemy_dist()))
    }

    /// The drop tiles our trolls can walk on.
    pub open spec fn open_drop(self) -> spec_fn((i32, i32)) -> bool {
        |d: (i32, i32)| self.tile(d).walkable()
    }
}

/// The distance of a position to `p`.
pub open spec fn pos_dist_from(p: (i32, i32)) -> spec_fn((i32, i32)) -> int {
    |d: (i32, i32)| dist(d, p)
}

impl Troll {
    /// `can_plant`'s answer.
    pub open spec fn plant_here(self, grid: Grid) -> bool {
        &&& self.has_fruit()
        &&& grid.tile(self.pos()).plantable()
        &&& match grid.nearest_free(3) {
            None => false,
            Some(p) => dist(self.pos(), grid.shack_position) <= 1 + dist(p, grid.shack_position),
        }
    }

    /// `can_plant` does not fail: a troll carrying fruit stands on the board, and the area
    /// of three steps around the shack can be computed.
    pub open spec fn plant_here_ok(self, grid: Grid) -> bool {
        self.has_fruit() ==> grid.on_board(self.pos()) && (grid.tile(self.pos()).plantable() ==> grid.area_ok(3))
    }

    /// The troll carries fruit and stands on a free spot at most one step farther from the
    /// shack than the nearest free spot of the area of three steps around it.
    pub fn can_plant(&self, grid: &Grid) -> (b: bool)
        requires
            grid.well_formed(),
            self.plant_here_ok(*grid),
        ensures
            b == self.plant_here(*grid),
    {
        if !self.have_any_fruit() {
            return false;
        }
        if !grid.tile_at((self.x, self.y)).can_be_planted() {
            return false;
        }
        match grid.nearest_empty_place_to_plant(3) {
            None => false,
            Some(p) => {
                proof {
                    grid.lemma_shack_area(3);
                    let i = first_min_at(grid.shack_area(3), grid.free_spot(), grid.shack_dist())->0;
                    assert(grid.on_board(grid.shack_area(3)[i]));
                    lemma_dist_on_board(p, grid.shack_position, grid.height, grid.width);
                    lemma_dist_on_board(self.pos(), grid.shack_position, grid.height, grid.width);
                }
                manhattan_dist((self.x, self.y), grid.shack_position) <= 1 + manhattan_dist(p, grid.shack_position)
            },
        }
    }

    /// `can_grief`'s answer.
    pub open spec fn grief_here(self, grid: Grid, trees: Seq<Tree>) -> bool {
        match grid.grief_target(trees) {
            None => false,
            Some(p) => dist(self.pos(), grid.enemy_shack_position) == dist(p, grid.enemy_shack_position)
                && grid.tile(self.pos()).spec_is_a_tree(),
        }
    }

    /// `can_grief` does not fail: distances to the enemy shack can be computed, and a troll
    /// as far from it as the target stands on the board.
    pub open spec fn grief_ok(self, grid: Grid, trees: Seq<Tree>) -> bool {
        &&& forall|k: int| 0 <= k < trees.len() ==> dist_ok(#[trigger] trees[k].pos(), grid.enemy_shack_position)
        &&& trees.len() > 0 ==> dist_ok(self.pos(), grid.enemy_shack_position)
        &&& match grid.grief_target(trees) {
            None => true,
            Some(p) => dist(self.pos(), grid.enemy_shack_position) == dist(p, grid.enemy_shack_position)
                ==> grid.on_board(self.pos()),
        }
    }

    /// The troll is as far from the enemy shack as the tree closest to it, and on a tree.
    pub fn can_grief(&self, grid: &Grid, trees: &Vec<Tree>) -> (b: bool)
        requires
            grid.well_formed(),
            self.grief_ok(*grid, trees@),
        ensures
            b == self.grief_here(*grid, trees@),
    {
        match grid.tree_to_grief_ignore_walk_through(trees) {
            None => false,
            Some((x, y)) => {
                proof {
                    let i = first_min_at(trees@, |t: Tree| true, grid.enemy_dist())->0;
                    assert(dist_ok(trees@[i].pos(), grid.enemy_shack_position));
                }
                manhattan_dist((self.x, self.y), grid.enemy_shack_position) == manhattan_dist((x, y), grid.enemy_shack_position)
                    && grid.is_on_tree(self)
            },
        }
    }

    /// `go_to_drop`'s answer.
    pub open spec fn drop_target(self, grid: Grid) -> Option<Seq<char>> {
        let ds = grid.drop_positions@;
        match first_min_at(ds, grid.open_drop(), pos_dist_from(self.pos())) {
            Some(i) => Some(move_cmd(self.id, ds[i].0, ds[i].1)),
            None => None,
        }
    }

    /// Every drop tile is at a computable distance from the troll.
    pub open spec fn drop_dist_ok(self, grid: Grid) -> bool {
        forall|k: int| 0 <= k < grid.drop_positions@.len() ==> dist_ok(#[trigger] grid.drop_positions@[k], self.pos())
    }

    /// The command that moves the troll to the first walkable drop tile closest to it.
    pub fn go_to_drop(&self, grid: &Grid) -> (r: Option<String>)
        requires
            grid.well_formed(),
            self.drop_dist_ok(*grid),
        ensures
            text_of(r) == self.drop_target(*grid),
    {
        let ds = &grid.drop_positions;
        let ghost sel = grid.open_drop();
        let ghost key = pos_dist_from(self.pos());
        let mut keys: Vec<Option<i32>> = Vec::new();
        let mut j: usize = 0;
        while j < ds.len()
            invariant
                grid.well_formed(),
                self.drop_dist_ok(*grid),
                *ds == grid.drop_positions,
                sel == grid.open_drop(),
                key == pos_dist_from(self.pos()),
                j <= ds@.len(),
                keys_agree(ds@.take(j as int), sel, key, keys@),
            decreases ds@.len() - j,
        {
            let d = ds[j];
            assert(grid.on_board(ds@[j as int]));
            assert(dist_ok(ds@[j as int], self.pos()));
            if grid.tile_at(d).can_walk_through() {
                keys.push(Some(manhattan_dist(d, (self.x, self.y))));
            } else {
                keys.push(None);
            }
            assert(ds@.take(j + 1) == ds@.take(j as int).push(d));
            j = j + 1;
        }
        assert(ds@.take(ds@.len() as int) == ds@);
        match first_min_index(&keys) {
            None => {
                proof {
                    lemma_none_agree(ds@, sel, key, keys@);
                    lemma_first_min_at_none(ds@, sel, key);
                }
                None
            },
            Some(i) => {
                proof {
                    lemma_first_min_agree(ds@, sel, key, keys@, i as int);
                    lemma_first_min_at(ds@, sel, key, i as int);
                }
                let d = ds[i];
                Some(self.go_to(d.0, d.1))
            },
        }
    }

    /// The command that moves the troll to the tree worth destroying closest to the enemy shack.
    pub fn go_to_grief(&self, grid: &Grid, trees: &Vec<Tree>) -> (r: Option<String>)
        requires
            grid.well_formed(),
            forall|k: int| 0 <= k < trees@.len() ==> grid.on_board(#[trigger] trees@[k].pos()),
        ensures
            text_of(r) == move_to(self.id, grid.grief_walk_target(trees@)),
    {
        match grid.tree_to_grief(trees) {
            Some(pos) => Some(self.go_to(pos.0, pos.1)),
            None => None,
        }
    }
}

} // verus!
