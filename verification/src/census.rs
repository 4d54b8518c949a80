use vstd::prelude::*;
use crate::fruit::{Fruit, Tree, fruit_index, fruit_of};
use crate::board::Grid;
use crate::util::{first_min_at, lemma_first_min_at, lemma_first_min_at_none, dist, manhattan_dist, is_first_min, is_last_max, none_kept, keys_agree, first_min_index,
    lemma_first_min_agree, lemma_none_agree, lemma_dist_on_board};

verus! {

impl Grid {
    /// How many of `cells` hold, as their first tree, a tree of fruit `f`.
    pub open spec fn census(self, cells: Seq<(i32, i32)>, f: Fruit) -> int
        decreases cells.len(),
    {
        if cells.len() == 0 {
            0
        } else {
            self.census(cells.drop_last(), f) + if self.tile(cells.last()).tree_on() matches Some(t) && t.fruit == f { 1int } else { 0 }
        }
    }

    pub proof fn lemma_census_bounds(self, cells: Seq<(i32, i32)>, f: Fruit)
        ensures
            0 <= self.census(cells, f) <= cells.len(),
        decreases cells.len(),
    {
        if cells.len() > 0 {
            self.lemma_census_bounds(cells.drop_last(), f);
        }
    }

    /// How many trees of each fruit stand at most `area` steps from the shack.
    pub fn tree_census(&self, area: i32) -> (r: [i32; 4])
        requires
            self.well_formed(),
            self.area_ok(area),
        ensures
            forall|f: Fruit| r@[fruit_index(f) as int] == #[trigger] self.census(self.shack_area(area), f),
    {
        let cells = self.get_shack_area_iter(area);
        proof {
            self.lemma_shack_area(area);
        }
        let mut acc: [i32; 4] = [0, 0, 0, 0];
        let mut i: usize = 0;
        while i < cells.len()
            invariant
                self.well_formed(),
                cells@ == self.shack_area(area),
                cells@.len() <= i32::MAX,
                forall|k: int| 0 <= k < cells@.len() ==> self.on_board(#[trigger] cells@[k]),
                i <= cells@.len(),
                forall|f: Fruit| acc@[fruit_index(f) as int] == #[trigger] self.census(cells@.take(i as int), f),
            decreases cells@.len() - i,
        {
            let p = cells[i];
            assert(cells@.take(i + 1).drop_last() == cells@.take(i as int));
            proof {
                self.lemma_census_bounds(cells@.take(i as int), Fruit::Plum);
                self.lemma_census_bounds(cells@.take(i as int), Fruit::Lemon);
                self.lemma_census_bounds(cells@.take(i as int), Fruit::Apple);
                self.lemma_census_bounds(cells@.take(i as int), Fruit::Banana);
                assert(self.census(cells@.take(i as int), Fruit::Plum) == acc@[0]);
                assert(self.census(cells@.take(i as int), Fruit::Lemon) == acc@[1]);
                assert(self.census(cells@.take(i as int), Fruit::Apple) == acc@[2]);
                assert(self.census(cells@.take(i as int), Fruit::Banana) == acc@[3]);
            }
            let ghost old_acc = acc@;
            let tile = self.tile_at(p);
            match tile.get_tree() {
                Some(tree) => {
                    let k = tree.fruit.to_usize();
                    let v = acc[k] + 1;
                    acc[k] = v;
                },
                None => {},
            }
            proof {
                assert forall|f: Fruit| acc@[fruit_index(f) as int] == #[trigger] self.census(cells@.take(i + 1), f) by {
                    assert(self.census(cells@.take(i as int), f) == old_acc[fruit_index(f) as int]);
                }
            }
            i = i + 1;
        }
        assert(cells@.take(cells@.len() as int) == cells@);
        acc
    }
}

impl Grid {
    /// How many more trees of the fruit with index `k` than stand in the area are required.
    pub open spec fn missing(self, area: i32, required: Seq<i32>, k: int) -> int {
        required[k] - self.census(self.shack_area(area), fruit_of(k as usize))
    }

    /// The shortfalls of trees of each fruit can be computed in `i32`.
    pub open spec fn missing_ok(self, area: i32, required: Seq<i32>) -> bool {
        forall|k: int| 0 <= k < 4 ==> i32::MIN <= #[trigger] self.missing(area, required, k)
    }

    /// The census as `i32` entries, fruit by fruit.
    fn census_by_index(&self, area: i32) -> (c: [i32; 4])
        requires
            self.well_formed(),
            self.area_ok(area),
        ensures
            forall|k: int| 0 <= k < 4 ==> c@[k] == #[trigger] self.census(self.shack_area(area), fruit_of(k as usize)),
            forall|k: int| 0 <= k < 4 ==> 0 <= #[trigger] c@[k],
    {
        let c = self.tree_census(area);
        proof {
            assert(c@[0] == self.census(self.shack_area(area), Fruit::Plum));
            assert(c@[1] == self.census(self.shack_area(area), Fruit::Lemon));
            assert(c@[2] == self.census(self.shack_area(area), Fruit::Apple));
            assert(c@[3] == self.census(self.shack_area(area), Fruit::Banana));
            self.lemma_census_bounds(self.shack_area(area), Fruit::Plum);
            self.lemma_census_bounds(self.shack_area(area), Fruit::Lemon);
            self.lemma_census_bounds(self.shack_area(area), Fruit::Apple);
            self.lemma_census_bounds(self.shack_area(area), Fruit::Banana);
        }
        c
    }

    /// How many trees of each fruit are still missing in the area, never below zero.
    pub fn plants_need(&self, area: i32, required: [i32; 4]) -> (r: [i32; 4])
        requires
            self.well_formed(),
            self.area_ok(area),
            self.missing_ok(area, required@),
        ensures
            forall|k: int| 0 <= k < 4 ==> #[trigger] r@[k] == imax0(self.missing(area, required@, k)),
    {
        let census = self.census_by_index(area);
        let mut acc: [i32; 4] = [0, 0, 0, 0];
        let mut idx: usize = 0;
        while idx < 4
            invariant
                forall|k: int| 0 <= k < 4 ==> census@[k] == #[trigger] self.census(self.shack_area(area), fruit_of(k as usize)),
                forall|k: int| 0 <= k < 4 ==> 0 <= #[trigger] census@[k],
                self.missing_ok(area, required@),
                idx <= 4,
                forall|k: int| 0 <= k < idx ==> #[trigger] acc@[k] == imax0(self.missing(area, required@, k)),
            decreases 4 - idx,
        {
            assert(i32::MIN <= self.missing(area, required@, idx as int));
            let n = required[idx] - census[idx];
            let v = if n > 0 { n } else { 0 };
            acc[idx] = v;
            idx = idx + 1;
        }
        acc
    }

    /// The highest index below `n` of a fruit still missing in the area.
    pub open spec fn top_missing(self, area: i32, required: Seq<i32>, n: int) -> Option<usize>
        decreases n,
    {
        if n <= 0 {
            None
        } else if self.missing(area, required, n - 1) > 0 {
            Some((n - 1) as usize)
        } else {
            self.top_missing(area, required, n - 1)
        }
    }

    /// The fruit with the highest index among those still missing in the area.
    pub fn plant_need(&self, area: i32, required: [i32; 4]) -> (r: Option<usize>)
        requires
            self.well_formed(),
            self.area_ok(area),
            self.missing_ok(area, required@),
        ensures
            r is None <==> forall|k: int| 0 <= k < 4 ==> #[trigger] self.missing(area, required@, k) <= 0,
            r matches Some(f) ==> f < 4 && self.missing(area, required@, f as int) > 0
                && forall|k: int| f < k < 4 ==> #[trigger] self.missing(area, required@, k) <= 0,
            r == self.top_missing(area, required@, 4),
    {
        let census = self.census_by_index(area);
        let mut best: Option<usize> = None;
        let mut idx: usize = 0;
        while idx < 4
            invariant
                forall|k: int| 0 <= k < 4 ==> census@[k] == #[trigger] self.census(self.shack_area(area), fruit_of(k as usize)),
                forall|k: int| 0 <= k < 4 ==> 0 <= #[trigger] census@[k],
                self.missing_ok(area, required@),
                idx <= 4,
                best is None <==> forall|k: int| 0 <= k < idx ==> #[trigger] self.missing(area, required@, k) <= 0,
                best matches Some(f) ==> f < idx && self.missing(area, required@, f as int) > 0
                    && forall|k: int| f < k < idx ==> #[trigger] self.missing(area, required@, k) <= 0,
                best == self.top_missing(area, required@, idx as int),
            decreases 4 - idx,
        {
            assert(i32::MIN <= self.missing(area, required@, idx as int));
            let n = required[idx] - census[idx];
            if n > 0 {
                best = Some(idx);
            }
            idx = idx + 1;
        }
        best
    }

    /// The spots of the area where a tree can be planted and our trolls can walk.
    pub open spec fn free_spot(self) -> spec_fn((i32, i32)) -> bool {
        |p: (i32, i32)| self.tile(p).plantable() && self.tile(p).walkable()
    }

    /// The distance of a spot to our shack.
    pub open spec fn shack_dist(self) -> spec_fn((i32, i32)) -> int {
        |p: (i32, i32)| dist(p, self.shack_position)
    }

    /// The first spot of the area, closest to the shack, where a tree can be planted.
    pub open spec fn nearest_free(self, area: i32) -> Option<(i32, i32)> {
        match first_min_at(self.shack_area(area), self.free_spot(), self.shack_dist()) {
            Some(i) => Some(self.shack_area(area)[i]),
            None => None,
        }
    }

    /// The first spot of the area, closest to the shack, where a tree can be planted.
    pub fn nearest_empty_place_to_plant(&self, area: i32) -> (r: Option<(i32, i32)>)
        requires
            self.well_formed(),
            self.area_ok(area),
        ensures
            r == self.nearest_free(area),
    {
        let cells = self.get_shack_area_iter(area);
        proof {
            self.lemma_shack_area(area);
        }
        let mut keys: Vec<Option<i32>> = Vec::new();
        let mut j: usize = 0;
        while j < cells.len()
            invariant
                self.well_formed(),
                forall|k: int| 0 <= k < cells@.len() ==> self.on_board(#[trigger] cells@[k]),
                j <= cells@.len(),
                keys_agree(cells@.take(j as int), self.free_spot(), self.shack_dist(), keys@),
            decreases cells@.len() - j,
        {
            let p = cells[j];
            proof {
                lemma_dist_on_board(p, self.shack_position, self.height, self.width);
            }
            let tile = self.tile_at(p);
            if tile.can_be_planted() && tile.can_walk_through() {
                keys.push(Some(manhattan_dist(p, self.shack_position)));
            } else {
                keys.push(None);
            }
            assert(cells@.take(j + 1) == cells@.take(j as int).push(p));
            j = j + 1;
        }
        assert(cells@.take(cells@.len() as int) == cells@);
        match first_min_index(&keys) {
            None => {
                proof { lemma_none_agree(cells@, self.free_spot(), self.shack_dist(), keys@); lemma_first_min_at_none(cells@, self.free_spot(), self.shack_dist()); }
                None
            },
            Some(i) => {
                proof { lemma_first_min_agree(cells@, self.free_spot(), self.shack_dist(), keys@, i as int); lemma_first_min_at(cells@, self.free_spot(), self.shack_dist(), i as int); }
                Some(cells[i])
            },
        }
    }
}

/// An integer, or zero where it is negative.
pub open spec fn imax0(n: int) -> int {
    if n > 0 { n } else { 0 }
}

} // verus!
