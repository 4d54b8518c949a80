use vstd::prelude::*;
use crate::fruit::{Fruit, Tree};
use crate::troll::Troll;
use crate::grid::{Entity, Tile, troll_entity};
use crate::util::{
    dist, dist_ok, inside, manhattan_dist, is_first_min, none_kept, keys_agree, kept, first_min_at, lemma_first_min_at, lemma_first_min_at_none,
    first_min_index, lemma_first_min_agree, lemma_none_agree, lemma_dist_on_board,
    lemma_kept_len, lemma_kept_member, grid_pairs, cartesian_pairs,
};

verus! {

/// The board: the map as read at the start, the map with this turn's entities on it,
/// the two shacks, the tiles next to our shack where trolls drop what they carry,
/// the tile next to the iron mine closest to a drop tile and that distance.
pub struct Grid {
    pub initial_grid: Vec<Vec<Tile>>,
    pub grid: Vec<Vec<Tile>>,
    pub shack_position: (i32, i32),
    pub enemy_shack_position: (i32, i32),
    pub drop_positions: Vec<(i32, i32)>,
    pub mine_position: (i32, i32),
    pub mine_dist: i32,
    pub width: i32,
    pub height: i32,
}

/// The position of the tree at an index, if any.
pub open spec fn tree_pos_at(trees: Seq<Tree>, i: Option<int>) -> Option<(i32, i32)> {
    match i {
        Some(i) => Some(trees[i].pos()),
        None => None,
    }
}

/// The distance to `pos` of the tree at an index, and the tree, if any.
pub open spec fn tree_dist_at(trees: Seq<Tree>, i: Option<int>, pos: (i32, i32)) -> Option<(int, Tree)> {
    match i {
        Some(i) => Some((dist(trees[i].pos(), pos), trees[i])),
        None => None,
    }
}

/// The distance of a tree to `p`.
pub open spec fn dist_from(p: (i32, i32)) -> spec_fn(Tree) -> int {
    |t: Tree| dist(t.pos(), p)
}

/// A found tree with its distance, as plain values.
pub open spec fn found(r: Option<(i32, &Tree)>) -> Option<(int, Tree)> {
    match r {
        Some((d, t)) => Some((d as int, *t)),
        None => None,
    }
}

/// `rows` holds `h` rows of `w` tiles.
pub open spec fn shaped(rows: Seq<Vec<Tile>>, w: i32, h: i32) -> bool {
    &&& rows.len() == h
    &&& forall|y: int| 0 <= y < h ==> (#[trigger] rows[y])@.len() == w
}

impl Grid {
    /// `p` lies on the board.
    pub open spec fn on_board(self, p: (i32, i32)) -> bool {
        inside(p, self.height, self.width)
    }

    /// The tile at `p` this turn.
    pub open spec fn tile(self, p: (i32, i32)) -> Tile {
        self.grid@[p.1 as int]@[p.0 as int]
    }

    /// The tile at `p` as the map was read.
    pub open spec fn initial_tile(self, p: (i32, i32)) -> Tile {
        self.initial_grid@[p.1 as int]@[p.0 as int]
    }

    /// Both maps have the board's size, which is positive and at most `i32::MAX` tiles,
    /// and the shacks, the mine tile and the drop tiles lie on the board.
    pub open spec fn well_formed(self) -> bool {
        &&& 0 < self.width
        &&& 0 < self.height
        &&& self.width * self.height <= i32::MAX
        &&& shaped(self.grid@, self.width, self.height)
        &&& shaped(self.initial_grid@, self.width, self.height)
        &&& self.on_board(self.shack_position)
        &&& self.on_board(self.enemy_shack_position)
        &&& self.on_board(self.mine_position)
        &&& forall|k: int| 0 <= k < self.drop_positions@.len() ==> self.on_board(#[trigger] self.drop_positions@[k])
    }

    /// The tile at an on-board position.
    pub fn tile_at(&self, p: (i32, i32)) -> (t: &Tile)
        requires
            self.well_formed(),
            self.on_board(p),
        ensures
            *t == self.tile(p),
    {
        &self.grid[p.1 as usize][p.0 as usize]
    }

    /// A troll stands on a tree.
    pub fn is_on_tree(&self, troll: &Troll) -> (b: bool)
        requires
            self.well_formed(),
            self.on_board(troll.pos()),
        ensures
            b == self.tile(troll.pos()).spec_is_a_tree(),
    {
        self.tile_at((troll.x, troll.y)).is_a_tree()
    }

    /// The trees worth destroying: on walkable tiles, more than three steps from our shack.
    pub open spec fn griefable(self) -> spec_fn(Tree) -> bool {
        |t: Tree| self.tile(t.pos()).walkable() && dist(t.pos(), self.shack_position) > 3
    }

    /// The distance of a tree to the enemy shack.
    pub open spec fn enemy_dist(self) -> spec_fn(Tree) -> int {
        |t: Tree| dist(t.pos(), self.enemy_shack_position)
    }

    /// Among the trees on walkable tiles more than three steps from our shack, the position of
    /// the first one closest to the enemy shack.
    pub fn tree_to_grief(&self, trees: &Vec<Tree>) -> (r: Option<(i32, i32)>)
        requires
            self.well_formed(),
            forall|k: int| 0 <= k < trees@.len() ==> self.on_board(#[trigger] trees@[k].pos()),
        ensures
            r == tree_pos_at(trees@, first_min_at(trees@, self.griefable(), self.enemy_dist())),
    {
        let mut keys: Vec<Option<i32>> = Vec::new();
        let mut j: usize = 0;
        while j < trees.len()
            invariant
                self.well_formed(),
                forall|k: int| 0 <= k < trees@.len() ==> self.on_board(#[trigger] trees@[k].pos()),
                j <= trees@.len(),
                keys_agree(trees@.take(j as int), self.griefable(), self.enemy_dist(), keys@),
            decreases trees@.len() - j,
        {
            let t = trees[j];
            proof {
                lemma_dist_on_board(t.pos(), self.shack_position, self.height, self.width);
                lemma_dist_on_board(t.pos(), self.enemy_shack_position, self.height, self.width);
            }
            if self.tile_at((t.x, t.y)).can_walk_through() && manhattan_dist((t.x, t.y), self.shack_position) > 3 {
                keys.push(Some(manhattan_dist((t.x, t.y), self.enemy_shack_position)));
            } else {
                keys.push(None);
            }
            assert(trees@.take(j + 1) == trees@.take(j as int).push(t));
            j = j + 1;
        }
        assert(trees@.take(trees@.len() as int) == trees@);
        match first_min_index(&keys) {
            None => {
                proof { lemma_none_agree(trees@, self.griefable(), self.enemy_dist(), keys@); lemma_first_min_at_none(trees@, self.griefable(), self.enemy_dist()); }
                None
            },
            Some(i) => {
                proof { lemma_first_min_agree(trees@, self.griefable(), self.enemy_dist(), keys@, i as int); lemma_first_min_at(trees@, self.griefable(), self.enemy_dist(), i as int); }
                Some((trees[i].x, trees[i].y))
            },
        }
    }

    /// The position of the first tree closest to the enemy shack, wherever it stands.
    pub fn tree_to_grief_ignore_walk_through(&self, trees: &Vec<Tree>) -> (r: Option<(i32, i32)>)
        requires
            forall|k: int| 0 <= k < trees@.len() ==> dist_ok(#[trigger] trees@[k].pos(), self.enemy_shack_position),
        ensures
            r is None <==> trees@.len() == 0,
            r == tree_pos_at(trees@, first_min_at(trees@, |t: Tree| true, self.enemy_dist())),
    {
        let ghost all = |t: Tree| true;
        let mut keys: Vec<Option<i32>> = Vec::new();
        let mut j: usize = 0;
        while j < trees.len()
            invariant
                forall|k: int| 0 <= k < trees@.len() ==> dist_ok(#[trigger] trees@[k].pos(), self.enemy_shack_position),
                j <= trees@.len(),
                all == (|t: Tree| true),
                keys_agree(trees@.take(j as int), all, self.enemy_dist(), keys@),
            decreases trees@.len() - j,
        {
            let t = trees[j];
            assert(dist_ok(trees@[j as int].pos(), self.enemy_shack_position));
            keys.push(Some(manhattan_dist((t.x, t.y), self.enemy_shack_position)));
            assert(trees@.take(j + 1) == trees@.take(j as int).push(t));
            j = j + 1;
        }
        assert(trees@.take(trees@.len() as int) == trees@);
        match first_min_index(&keys) {
            None => {
                proof {
                    if trees@.len() > 0 {
                        assert(keys@[0] is Some);
                    }
                    lemma_first_min_at_none(trees@, all, self.enemy_dist());
                }
                None
            },
            Some(i) => {
                proof { lemma_first_min_agree(trees@, all, self.enemy_dist(), keys@, i as int); lemma_first_min_at(trees@, all, self.enemy_dist(), i as int); }
                Some((trees[i].x, trees[i].y))
            },
        }
    }

    /// The trees of at least `min_size` on walkable tiles.
    pub open spec fn cuttable(self, min_size: i32) -> spec_fn(Tree) -> bool {
        |t: Tree| t.size >= min_size && self.tile(t.pos()).walkable()
    }

    /// The trees of a given fruit and of at least `min_size` on walkable tiles.
    pub open spec fn fruit_cuttable(self, fruit: Fruit, min_size: i32) -> spec_fn(Tree) -> bool {
        |t: Tree| t.fruit == fruit && t.size >= min_size && self.tile(t.pos()).walkable()
    }

    /// Among the trees of at least `min_size` on walkable tiles, the first one closest to `pos`,
    /// with its distance.
    pub fn find_shorter_available_tree_to_cut<'a>(&self, pos: (i32, i32), trees: &'a Vec<Tree>, min_size: i32) -> (r: Option<(i32, &'a Tree)>)
        requires
            self.well_formed(),
            forall|k: int| 0 <= k < trees@.len() && (#[trigger] trees@[k]).size >= min_size ==> self.on_board(trees@[k].pos()),
            forall|k: int| 0 <= k < trees@.len() && (#[trigger] self.cuttable(min_size)(trees@[k])) ==> dist_ok(trees@[k].pos(), pos),
        ensures
            found(r) == tree_dist_at(trees@, first_min_at(trees@, self.cuttable(min_size), dist_from(pos)), pos),
    {
        let ghost sel = self.cuttable(min_size);
        let ghost key = dist_from(pos);
        let mut keys: Vec<Option<i32>> = Vec::new();
        let mut j: usize = 0;
        while j < trees.len()
            invariant
                self.well_formed(),
                forall|k: int| 0 <= k < trees@.len() && (#[trigger] trees@[k]).size >= min_size ==> self.on_board(trees@[k].pos()),
                forall|k: int| 0 <= k < trees@.len() && (#[trigger] sel(trees@[k])) ==> dist_ok(trees@[k].pos(), pos),
                sel == self.cuttable(min_size),
                key == (dist_from(pos)),
                j <= trees@.len(),
                keys_agree(trees@.take(j as int), sel, key, keys@),
            decreases trees@.len() - j,
        {
            let t = trees[j];
            assert(t == trees@[j as int]);
            if t.size >= min_size && self.tile_at((t.x, t.y)).can_walk_through() {
                assert(sel(trees@[j as int]));
                keys.push(Some(manhattan_dist((t.x, t.y), pos)));
            } else {
                keys.push(None);
            }
            assert(trees@.take(j + 1) == trees@.take(j as int).push(t));
            j = j + 1;
        }
        assert(trees@.take(trees@.len() as int) == trees@);
        match first_min_index(&keys) {
            None => {
                proof { lemma_none_agree(trees@, sel, key, keys@); lemma_first_min_at_none(trees@, sel, key); }
                None
            },
            Some(i) => {
                proof { lemma_first_min_agree(trees@, sel, key, keys@, i as int); lemma_first_min_at(trees@, sel, key, i as int); }
                let d = keys[i].unwrap();
                Some((d, &trees[i]))
            },
        }
    }

    /// Among the trees of a fruit and of at least `min_size` on walkable tiles, the first one
    /// closest to `pos`, with its distance.
    pub fn find_shorter_available_fruit_to_cut<'a>(&self, pos: (i32, i32), trees: &'a Vec<Tree>, fruit: Fruit, min_size: i32) -> (r: Option<(i32, &'a Tree)>)
        requires
            self.well_formed(),
            forall|k: int| 0 <= k < trees@.len() && (#[trigger] trees@[k]).fruit == fruit && trees@[k].size >= min_size
                ==> self.on_board(trees@[k].pos()),
            forall|k: int| 0 <= k < trees@.len() && (#[trigger] self.fruit_cuttable(fruit, min_size)(trees@[k]))
                ==> dist_ok(trees@[k].pos(), pos),
        ensures
            found(r) == tree_dist_at(trees@, first_min_at(trees@, self.fruit_cuttable(fruit, min_size), dist_from(pos)), pos),
    {
        let ghost sel = self.fruit_cuttable(fruit, min_size);
        let ghost key = dist_from(pos);
        let mut keys: Vec<Option<i32>> = Vec::new();
        let mut j: usize = 0;
        while j < trees.len()
            invariant
                self.well_formed(),
                forall|k: int| 0 <= k < trees@.len() && (#[trigger] trees@[k]).fruit == fruit && trees@[k].size >= min_size
                    ==> self.on_board(trees@[k].pos()),
                forall|k: int| 0 <= k < trees@.len() && (#[trigger] sel(trees@[k])) ==> dist_ok(trees@[k].pos(), pos),
                sel == self.fruit_cuttable(fruit, min_size),
                key == (dist_from(pos)),
                j <= trees@.len(),
                keys_agree(trees@.take(j as int), sel, key, keys@),
            decreases trees@.len() - j,
        {
            let t = trees[j];
            assert(t == trees@[j as int]);
            if t.fruit == fruit && t.size >= min_size && self.tile_at((t.x, t.y)).can_walk_through() {
                assert(sel(trees@[j as int]));
                keys.push(Some(manhattan_dist((t.x, t.y), pos)));
            } else {
                keys.push(None);
            }
            assert(trees@.take(j + 1) == trees@.take(j as int).push(t));
            j = j + 1;
        }
        assert(trees@.take(trees@.len() as int) == trees@);
        match first_min_index(&keys) {
            None => {
                proof { lemma_none_agree(trees@, sel, key, keys@); lemma_first_min_at_none(trees@, sel, key); }
                None
            },
            Some(i) => {
                proof { lemma_first_min_agree(trees@, sel, key, keys@, i as int); lemma_first_min_at(trees@, sel, key, i as int); }
                let d = keys[i].unwrap();
                Some((d, &trees[i]))
            },
        }
    }
}


/// The larger of two integers.
pub open spec fn imax(a: int, b: int) -> int {
    if a >= b { a } else { b }
}

/// The smaller of two integers.
pub open spec fn imin(a: int, b: int) -> int {
    if a <= b { a } else { b }
}

/// Every pair of `grid_pairs` lies in its two ranges.
pub proof fn lemma_grid_pairs_inside(x_lo: i32, x_hi: i32, y_lo: i32, y_hi: i32, k: int)
    requires
        0 <= k < grid_pairs(x_lo, x_hi, y_lo, y_hi).len(),
    ensures
        x_lo <= grid_pairs(x_lo, x_hi, y_lo, y_hi)[k].0 < x_hi,
        y_lo <= grid_pairs(x_lo, x_hi, y_lo, y_hi)[k].1 < y_hi,
{
    let nx: int = if x_hi > x_lo { x_hi - x_lo } else { 0 };
    let ny: int = if y_hi > y_lo { y_hi - y_lo } else { 0 };
    assert(nx * ny > 0);
    assert(nx > 0 && ny > 0) by (nonlinear_arith)
        requires
            nx >= 0,
            ny >= 0,
            nx * ny > 0,
    ;
    assert(0 <= k / ny < nx && 0 <= k % ny < ny) by (nonlinear_arith)
        requires
            0 <= k < nx * ny,
            ny > 0,
    ;
}

impl Grid {
    /// The shack's coordinates plus or minus `area` stay in `i32`.
    pub open spec fn area_ok(self, area: i32) -> bool {
        &&& i32::MIN <= self.shack_position.0 - area && self.shack_position.0 + area + 1 <= i32::MAX
        &&& i32::MIN <= self.shack_position.1 - area && self.shack_position.1 + area + 1 <= i32::MAX
        &&& i32::MIN <= self.shack_position.0 + area + 1 && self.shack_position.0 - area <= i32::MAX
        &&& i32::MIN <= self.shack_position.1 + area + 1 && self.shack_position.1 - area <= i32::MAX
    }

    /// The on-board square around the shack that reaches `area` steps away, column by column.
    pub open spec fn area_square(self, area: i32) -> Seq<(i32, i32)> {
        grid_pairs(
            imax(0, self.shack_position.0 - area) as i32,
            imin(self.width as int, self.shack_position.0 + area + 1) as i32,
            imax(0, self.shack_position.1 - area) as i32,
            imin(self.height as int, self.shack_position.1 + area + 1) as i32,
        )
    }

    /// The on-board positions at most `area` steps from the shack, column by column.
    pub open spec fn shack_area(self, area: i32) -> Seq<(i32, i32)> {
        kept(self.area_square(area), |p: (i32, i32)| dist(p, self.shack_position) <= area)
    }

    /// The shack area lies on the board and has at most `i32::MAX` positions.
    pub proof fn lemma_shack_area(self, area: i32)
        requires
            self.well_formed(),
            self.area_ok(area),
        ensures
            self.shack_area(area).len() <= i32::MAX,
            forall|k: int| 0 <= k < self.shack_area(area).len() ==> self.on_board(#[trigger] self.shack_area(area)[k]),
    {
        let sq = self.area_square(area);
        let f = |p: (i32, i32)| dist(p, self.shack_position) <= area;
        let x_lo = imax(0, self.shack_position.0 - area) as i32;
        let x_hi = imin(self.width as int, self.shack_position.0 + area + 1) as i32;
        let y_lo = imax(0, self.shack_position.1 - area) as i32;
        let y_hi = imin(self.height as int, self.shack_position.1 + area + 1) as i32;
        let nx: int = if x_hi > x_lo { x_hi - x_lo } else { 0 };
        let ny: int = if y_hi > y_lo { y_hi - y_lo } else { 0 };
        assert(nx * ny <= self.width * self.height) by (nonlinear_arith)
            requires
                0 <= nx <= self.width,
                0 <= ny <= self.height,
        ;
        lemma_kept_len(sq, f);
        assert forall|k: int| 0 <= k < self.shack_area(area).len() implies self.on_board(#[trigger] self.shack_area(area)[k]) by {
            lemma_kept_member(sq, f, k);
            let j = choose|j: int| 0 <= j < sq.len() && sq[j] == self.shack_area(area)[k];
            lemma_grid_pairs_inside(x_lo, x_hi, y_lo, y_hi, j);
        }
    }

    /// The on-board positions at most `area` steps from the shack, column by column.
    pub fn get_shack_area_iter(&self, area: i32) -> (r: Vec<(i32, i32)>)
        requires
            self.well_formed(),
            self.area_ok(area),
        ensures
            r@ == self.shack_area(area),
    {
        let x_lo = if self.shack_position.0 - area >= 0 { self.shack_position.0 - area } else { 0 };
        let x_hi = if self.width <= self.shack_position.0 + area + 1 { self.width } else { self.shack_position.0 + area + 1 };
        let y_lo = if self.shack_position.1 - area >= 0 { self.shack_position.1 - area } else { 0 };
        let y_hi = if self.height <= self.shack_position.1 + area + 1 { self.height } else { self.shack_position.1 + area + 1 };
        let square = cartesian_pairs(x_lo, x_hi, y_lo, y_hi);
        let ghost f = |p: (i32, i32)| dist(p, self.shack_position) <= area;
        let mut r: Vec<(i32, i32)> = Vec::new();
        let mut i: usize = 0;
        while i < square.len()
            invariant
                self.well_formed(),
                square@ == grid_pairs(x_lo, x_hi, y_lo, y_hi),
                square@ == self.area_square(area),
                f == (|p: (i32, i32)| dist(p, self.shack_position) <= area),
                0 <= x_lo && x_hi <= self.width && 0 <= y_lo && y_hi <= self.height,
                i <= square@.len(),
                r@ == kept(square@.take(i as int), f),
            decreases square@.len() - i,
        {
            let p = square[i];
            proof {
                lemma_grid_pairs_inside(x_lo, x_hi, y_lo, y_hi, i as int);
                lemma_dist_on_board(p, self.shack_position, self.height, self.width);
            }
            assert(square@.take(i + 1).drop_last() == square@.take(i as int));
            if manhattan_dist(p, self.shack_position) <= area {
                r.push(p);
            }
            i = i + 1;
        }
        assert(square@.take(square@.len() as int) == square@);
        r
    }
}

/// The entities of the trolls of `ts` that stand at `p`, in order.
pub open spec fn trolls_at(ts: Seq<Troll>, p: (i32, i32)) -> Seq<Entity>
    decreases ts.len(),
{
    if ts.len() == 0 {
        Seq::empty()
    } else {
        trolls_at(ts.drop_last(), p) + if ts.last().pos() == p { seq![troll_entity(ts.last())] } else { Seq::empty() }
    }
}

/// The entities of the trees of `ts` that stand at `p`, in order.
pub open spec fn trees_at(ts: Seq<Tree>, p: (i32, i32)) -> Seq<Entity>
    decreases ts.len(),
{
    if ts.len() == 0 {
        Seq::empty()
    } else {
        trees_at(ts.drop_last(), p) + if ts.last().pos() == p { seq![Entity::Tree(ts.last())] } else { Seq::empty() }
    }
}

impl Grid {
    /// An entity can be put at `p`: it lies on the board on a tile that holds entities.
    pub open spec fn can_hold(self, p: (i32, i32)) -> bool {
        self.on_board(p) && self.initial_tile(p).holds_entities()
    }

    /// The board's maps have its size, and every tile of this turn's map is the tile read
    /// at the start with `extra(p)` standing on it.
    pub open spec fn map_is(self, extra: spec_fn((i32, i32)) -> Seq<Entity>) -> bool {
        &&& shaped(self.grid@, self.width, self.height)
        &&& forall|p: (i32, i32)| #![trigger self.tile(p)] self.on_board(p) ==> {
            &&& self.tile(p).kind() == self.initial_tile(p).kind()
            &&& self.tile(p).ents() == self.initial_tile(p).ents() + extra(p)
        }
    }

    /// A copy of the map as read at the start.
    fn copy_initial(&self) -> (g: Vec<Vec<Tile>>)
        requires
            self.well_formed(),
        ensures
            shaped(g@, self.width, self.height),
            forall|p: (i32, i32)| self.on_board(p) ==> (#[trigger] g@[p.1 as int]@[p.0 as int]).kind() == self.initial_tile(p).kind()
                && g@[p.1 as int]@[p.0 as int].ents() == self.initial_tile(p).ents(),
    {
        let mut g: Vec<Vec<Tile>> = Vec::new();
        let mut y: usize = 0;
        while y < self.initial_grid.len()
            invariant
                self.well_formed(),
                y <= self.height,
                g@.len() == y,
                forall|yy: int| 0 <= yy < y ==> (#[trigger] g@[yy])@.len() == self.width,
                forall|p: (i32, i32)| self.on_board(p) && p.1 < y ==> (#[trigger] g@[p.1 as int]@[p.0 as int]).kind() == self.initial_tile(p).kind()
                    && g@[p.1 as int]@[p.0 as int].ents() == self.initial_tile(p).ents(),
            decreases self.height - y,
        {
            let row = &self.initial_grid[y];
            let mut new_row: Vec<Tile> = Vec::new();
            let mut x: usize = 0;
            while x < row.len()
                invariant
                    self.well_formed(),
                    y < self.height,
                    *row == self.initial_grid@[y as int],
                    row@.len() == self.width,
                    x <= row@.len(),
                    new_row@.len() == x,
                    forall|xx: int| 0 <= xx < x ==> (#[trigger] new_row@[xx]).kind() == row@[xx].kind() && new_row@[xx].ents() == row@[xx].ents(),
                decreases row@.len() - x,
            {
                new_row.push(row[x].duplicate());
                x = x + 1;
            }
            g.push(new_row);
            proof {
                assert forall|p: (i32, i32)| self.on_board(p) && p.1 < y + 1 implies (#[trigger] g@[p.1 as int]@[p.0 as int]).kind() == self.initial_tile(p).kind()
                    && g@[p.1 as int]@[p.0 as int].ents() == self.initial_tile(p).ents() by {
                    if p.1 == y {
                        assert(g@[y as int] == new_row);
                    } else {
                        assert(g@[p.1 as int] == g@.drop_last()[p.1 as int]);
                    }
                }
            }
            y = y + 1;
        }
        g
    }

    /// Puts an entity on the tile at `p` of this turn's map.
    fn put(&mut self, p: (i32, i32), e: Entity)
        requires
            old(self).well_formed(),
            old(self).can_hold(p),
            forall|q: (i32, i32)| old(self).on_board(q) ==> (#[trigger] old(self).tile(q)).kind() == old(self).initial_tile(q).kind(),
        ensures
            final(self).well_formed(),
            final(self).initial_grid == old(self).initial_grid,
            final(self).width == old(self).width && final(self).height == old(self).height,
            final(self).shack_position == old(self).shack_position,
            final(self).enemy_shack_position == old(self).enemy_shack_position,
            final(self).drop_positions == old(self).drop_positions,
            final(self).mine_position == old(self).mine_position,
            final(self).mine_dist == old(self).mine_dist,
            forall|q: (i32, i32)| old(self).on_board(q) ==> (#[trigger] final(self).tile(q)).kind() == old(self).tile(q).kind()
                && final(self).tile(q).ents() == if q == p { old(self).tile(q).ents().push(e) } else { old(self).tile(q).ents() },
    {
        let ghost g0 = self.grid@;
        assert(old(self).tile(p).kind() == old(self).initial_tile(p).kind());
        assert(old(self).tile(p).holds_entities());
        self.grid[p.1 as usize][p.0 as usize].push(e);
        proof {
            assert forall|q: (i32, i32)| old(self).on_board(q) implies (#[trigger] self.tile(q)).kind() == old(self).tile(q).kind()
                && self.tile(q).ents() == if q == p { old(self).tile(q).ents().push(e) } else { old(self).tile(q).ents() } by {
                if q.1 != p.1 {
                    assert(self.grid@[q.1 as int] == g0[q.1 as int]);
                } else if q.0 != p.0 {
                    assert(self.grid@[q.1 as int]@[q.0 as int] == g0[q.1 as int]@[q.0 as int]);
                }
            }
        }
    }

    /// The board is well formed (see `well_formed`).
    pub fn is_well_formed(&self) -> (b: bool)
        ensures
            b == self.well_formed(),
    {
        let w = self.width;
        let h = self.height;
        if w <= 0 || h <= 0 {
            return false;
        }
        assert(0 < w * h <= 0x4000_0000_0000_0000) by (nonlinear_arith)
            requires
                0 < w < 0x8000_0000,
                0 < h < 0x8000_0000;
        let size: i64 = (w as i64) * (h as i64);
        if size > 0x7fff_ffff {
            return false;
        }
        if self.grid.len() != h as usize || self.initial_grid.len() != h as usize {
            return false;
        }
        let mut y: usize = 0;
        while y < self.grid.len()
            invariant
                0 < w && 0 < h && w == self.width && h == self.height,
                self.grid@.len() == h && self.initial_grid@.len() == h,
                y <= h,
                forall|k: int| 0 <= k < y ==> (#[trigger] self.grid@[k])@.len() == w,
                forall|k: int| 0 <= k < y ==> (#[trigger] self.initial_grid@[k])@.len() == w,
            decreases h - y,
        {
            if self.grid[y].len() != w as usize {
                assert(self.grid@[y as int]@.len() != w);
                return false;
            }
            if self.initial_grid[y].len() != w as usize {
                assert(self.initial_grid@[y as int]@.len() != w);
                return false;
            }
            y = y + 1;
        }
        let on = |p: (i32, i32)| -> (b: bool)
            ensures
                b == self.on_board(p),
        { 0 <= p.0 && p.0 < w && 0 <= p.1 && p.1 < h };
        if !on(self.shack_position) || !on(self.enemy_shack_position) || !on(self.mine_position) {
            return false;
        }
        let mut k: usize = 0;
        while k < self.drop_positions.len()
            invariant
                k <= self.drop_positions@.len(),
                w == self.width && h == self.height,
                forall|j: int| 0 <= j < k ==> self.on_board(#[trigger] self.drop_positions@[j]),
            decreases self.drop_positions@.len() - k,
        {
            let p = self.drop_positions[k];
            if !(0 <= p.0 && p.0 < w && 0 <= p.1 && p.1 < h) {
                assert(!self.on_board(self.drop_positions@[k as int]));
                return false;
            }
            k = k + 1;
        }
        true
    }

    /// A tile at `p` can hold trolls and trees.
    fn holds_at(&self, p: (i32, i32)) -> (b: bool)
        requires
            self.well_formed(),
        ensures
            b == self.can_hold(p),
    {
        if p.0 < 0 || p.1 < 0 || p.0 >= self.width || p.1 >= self.height {
            return false;
        }
        match &self.initial_grid[p.1 as usize][p.0 as usize] {
            Tile::Grass(_) | Tile::Shack(_) | Tile::EnemyShack(_) => true,
            _ => false,
        }
    }

    /// Every troll, ours and the enemy's, and every tree stands on a tile of the board that
    /// can hold it.
    pub fn holds_all(&self, trolls: &Vec<Troll>, e_trolls: &Vec<Troll>, trees: &Vec<Tree>) -> (b: bool)
        requires
            self.well_formed(),
        ensures
            b == ((forall|k: int| 0 <= k < trolls@.len() ==> self.can_hold(#[trigger] trolls@[k].pos()))
                && (forall|k: int| 0 <= k < e_trolls@.len() ==> self.can_hold(#[trigger] e_trolls@[k].pos()))
                && (forall|k: int| 0 <= k < trees@.len() ==> self.can_hold(#[trigger] trees@[k].pos()))),
    {
        let mut k: usize = 0;
        while k < trolls.len()
            invariant
                self.well_formed(),
                k <= trolls@.len(),
                forall|j: int| 0 <= j < k ==> self.can_hold(#[trigger] trolls@[j].pos()),
            decreases trolls@.len() - k,
        {
            if !self.holds_at((trolls[k].x, trolls[k].y)) {
                assert(!self.can_hold(trolls@[k as int].pos()));
                return false;
            }
            k = k + 1;
        }
        let mut k: usize = 0;
        while k < e_trolls.len()
            invariant
                self.well_formed(),
                k <= e_trolls@.len(),
                forall|j: int| 0 <= j < k ==> self.can_hold(#[trigger] e_trolls@[j].pos()),
            decreases e_trolls@.len() - k,
        {
            if !self.holds_at((e_trolls[k].x, e_trolls[k].y)) {
                assert(!self.can_hold(e_trolls@[k as int].pos()));
                return false;
            }
            k = k + 1;
        }
        let mut k: usize = 0;
        while k < trees.len()
            invariant
                self.well_formed(),
                k <= trees@.len(),
                forall|j: int| 0 <= j < k ==> self.can_hold(#[trigger] trees@[j].pos()),
            decreases trees@.len() - k,
        {
            if !self.holds_at((trees[k].x, trees[k].y)) {
                assert(!self.can_hold(trees@[k as int].pos()));
                return false;
            }
            k = k + 1;
        }
        true
    }

    /// This turn's map: the map read at the start with our trolls, then the enemy's, then the
    /// trees put on their tiles, in order.
    pub fn update_tiles(&mut self, trolls: &Vec<Troll>, e_trolls: &Vec<Troll>, trees: &Vec<Tree>)
        requires
            old(self).well_formed(),
            forall|k: int| 0 <= k < trolls@.len() ==> old(self).can_hold(#[trigger] trolls@[k].pos()),
            forall|k: int| 0 <= k < e_trolls@.len() ==> old(self).can_hold(#[trigger] e_trolls@[k].pos()),
            forall|k: int| 0 <= k < trees@.len() ==> old(self).can_hold(#[trigger] trees@[k].pos()),
        ensures
            final(self).well_formed(),
            final(self).initial_grid == old(self).initial_grid,
            final(self).width == old(self).width && final(self).height == old(self).height,
            final(self).shack_position == old(self).shack_position,
            final(self).enemy_shack_position == old(self).enemy_shack_position,
            final(self).drop_positions == old(self).drop_positions,
            final(self).mine_position == old(self).mine_position,
            final(self).mine_dist == old(self).mine_dist,
            final(self).map_is(|p: (i32, i32)| trolls_at(trolls@, p) + trolls_at(e_trolls@, p) + trees_at(trees@, p)),
    {
        self.grid = self.copy_initial();
        let ghost s0 = *self;
        assert forall|p: (i32, i32)| self.on_board(p) implies (#[trigger] self.tile(p)).ents()
            == self.initial_tile(p).ents() + trolls_at(trolls@.take(0), p) by {
            assert(trolls@.take(0) == Seq::<Troll>::empty());
        }
        let mut i: usize = 0;
        while i < trolls.len()
            invariant
                self.well_formed(),
                self.initial_grid == s0.initial_grid,
                self.width == s0.width && self.height == s0.height,
                self.shack_position == s0.shack_position,
                self.enemy_shack_position == s0.enemy_shack_position,
                self.drop_positions == s0.drop_positions,
                self.mine_position == s0.mine_position,
                self.mine_dist == s0.mine_dist,
                forall|k: int| 0 <= k < trolls@.len() ==> self.can_hold(#[trigger] trolls@[k].pos()),
                i <= trolls@.len(),
                forall|p: (i32, i32)| self.on_board(p) ==> (#[trigger] self.tile(p)).kind() == self.initial_tile(p).kind()
                    && self.tile(p).ents() == self.initial_tile(p).ents() + trolls_at(trolls@.take(i as int), p),
            decreases trolls@.len() - i,
        {
            let t = trolls[i];
            assert(self.can_hold(trolls@[i as int].pos()));
            assert(trolls@.take(i + 1).drop_last() == trolls@.take(i as int));
            self.put((t.x, t.y), Entity::from_troll(t));
            i = i + 1;
        }
        assert(trolls@.take(trolls@.len() as int) == trolls@);
        assert forall|p: (i32, i32)| self.on_board(p) implies (#[trigger] self.tile(p)).ents()
            == self.initial_tile(p).ents() + trolls_at(trolls@, p) + trolls_at(e_trolls@.take(0), p) by {
            assert(e_trolls@.take(0) == Seq::<Troll>::empty());
        }
        let mut i: usize = 0;
        while i < e_trolls.len()
            invariant
                self.well_formed(),
                self.initial_grid == s0.initial_grid,
                self.width == s0.width && self.height == s0.height,
                self.shack_position == s0.shack_position,
                self.enemy_shack_position == s0.enemy_shack_position,
                self.drop_positions == s0.drop_positions,
                self.mine_position == s0.mine_position,
                self.mine_dist == s0.mine_dist,
                forall|k: int| 0 <= k < e_trolls@.len() ==> self.can_hold(#[trigger] e_trolls@[k].pos()),
                i <= e_trolls@.len(),
                forall|p: (i32, i32)| self.on_board(p) ==> (#[trigger] self.tile(p)).kind() == self.initial_tile(p).kind()
                    && self.tile(p).ents() == self.initial_tile(p).ents() + trolls_at(trolls@, p) + trolls_at(e_trolls@.take(i as int), p),
            decreases e_trolls@.len() - i,
        {
            let t = e_trolls[i];
            assert(self.can_hold(e_trolls@[i as int].pos()));
            assert(e_trolls@.take(i + 1).drop_last() == e_trolls@.take(i as int));
            self.put((t.x, t.y), Entity::from_troll(t));
            i = i + 1;
        }
        assert(e_trolls@.take(e_trolls@.len() as int) == e_trolls@);
        assert forall|p: (i32, i32)| self.on_board(p) implies (#[trigger] self.tile(p)).ents()
            == self.initial_tile(p).ents() + trolls_at(trolls@, p) + trolls_at(e_trolls@, p) + trees_at(trees@.take(0), p) by {
            assert(trees@.take(0) == Seq::<Tree>::empty());
        }
        let mut i: usize = 0;
        while i < trees.len()
            invariant
                self.well_formed(),
                self.initial_grid == s0.initial_grid,
                self.width == s0.width && self.height == s0.height,
                self.shack_position == s0.shack_position,
                self.enemy_shack_position == s0.enemy_shack_position,
                self.drop_positions == s0.drop_positions,
                self.mine_position == s0.mine_position,
                self.mine_dist == s0.mine_dist,
                forall|k: int| 0 <= k < trees@.len() ==> self.can_hold(#[trigger] trees@[k].pos()),
                i <= trees@.len(),
                forall|p: (i32, i32)| self.on_board(p) ==> (#[trigger] self.tile(p)).kind() == self.initial_tile(p).kind()
                    && self.tile(p).ents() == self.initial_tile(p).ents() + trolls_at(trolls@, p) + trolls_at(e_trolls@, p)
                        + trees_at(trees@.take(i as int), p),
            decreases trees@.len() - i,
        {
            let t = trees[i];
            assert(self.can_hold(trees@[i as int].pos()));
            assert(trees@.take(i + 1).drop_last() == trees@.take(i as int));
            self.put((t.x, t.y), Entity::from_tree(t));
            i = i + 1;
        }
        assert(trees@.take(trees@.len() as int) == trees@);
        let ghost extra = |p: (i32, i32)| trolls_at(trolls@, p) + trolls_at(e_trolls@, p) + trees_at(trees@, p);
        assert forall|p: (i32, i32)| self.on_board(p) implies {
            &&& (#[trigger] self.tile(p)).kind() == self.initial_tile(p).kind()
            &&& self.tile(p).ents() == self.initial_tile(p).ents() + extra(p)
        } by {
            assert(self.initial_tile(p).ents() + trolls_at(trolls@, p) + trolls_at(e_trolls@, p) + trees_at(trees@, p)
                == self.initial_tile(p).ents() + extra(p));
        }
    }
}

} // verus!
