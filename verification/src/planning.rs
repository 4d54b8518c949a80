use vstd::prelude::*;
use crate::consts::{BANANA, PLANT_BANANA};
use crate::fruit::{Fruit, fruit_index, fruit_of};
use crate::troll::{Troll, TrollType};
use crate::board::Grid;
use crate::inventory::{targeted, fetcher};
use crate::util::{is_last_max, keys_agree, last_max_index, lemma_last_max_agree, lemma_none_agree,
    last_max_at, lemma_last_max_at, lemma_last_max_at_none};

verus! {

/// The sum, over the trolls carrying some of item `k`, of what they carry of it.
pub open spec fn carried_sum(ts: Seq<Troll>, k: int) -> int
    decreases ts.len(),
{
    if ts.len() == 0 {
        0
    } else {
        carried_sum(ts.drop_last(), k) + if ts.last().items@[k] > 0 { ts.last().items@[k] as int } else { 0 }
    }
}

/// Every partial `carried_sum` fits in an `i32`.
pub open spec fn carried_sum_ok(ts: Seq<Troll>, k: int) -> bool {
    forall|n: int| 0 <= n <= ts.len() ==> #[trigger] carried_sum(ts.take(n), k) <= i32::MAX
}

proof fn lemma_carried_sum_nonneg(ts: Seq<Troll>, k: int)
    ensures
        carried_sum(ts, k) >= 0,
    decreases ts.len(),
{
    if ts.len() > 0 {
        lemma_carried_sum_nonneg(ts.drop_last(), k);
    }
}

/// The trolls with each one carrying some of item `k` given objective `objective`.
pub open spec fn mark_carriers(ts: Seq<Troll>, k: int, objective: usize) -> Seq<Troll> {
    Seq::new(ts.len(), |j: int| if ts[j].items@[k] > 0 { targeted(ts[j], objective) } else { ts[j] })
}

/// The trolls with the `n` first empty ones given objective `objective`.
pub open spec fn mark_empty(ts: Seq<Troll>, objective: usize, n: int) -> Seq<Troll>
    decreases ts.len(),
{
    if ts.len() == 0 {
        ts
    } else if n > 0 && ts[0].carried() == 0 {
        seq![targeted(ts[0], objective)] + mark_empty(ts.drop_first(), objective, n - 1)
    } else {
        seq![ts[0]] + mark_empty(ts.drop_first(), objective, n)
    }
}

/// What the trolls carry can be summed wherever `mark_empty` asks.
pub open spec fn mark_empty_ok(ts: Seq<Troll>, n: int) -> bool
    decreases ts.len(),
{
    if ts.len() == 0 {
        true
    } else {
        &&& n > 0 ==> ts[0].carry_ok()
        &&& mark_empty_ok(ts.drop_first(), if n > 0 && ts[0].carried() == 0 { n - 1 } else { n })
    }
}

/// One fruit's round of `assign_plants`: the trolls carrying fruit `k` are sent to plant it,
/// then as many empty trolls as trees are still missing once those are counted.
pub open spec fn plant_round(ts: Seq<Troll>, k: int, need: int) -> Seq<Troll> {
    mark_empty(mark_carriers(ts, k, (k + 7) as usize), (k + 7) as usize, need - carried_sum(ts, k))
}

/// One round stays in `i32`.
pub open spec fn plant_round_ok(ts: Seq<Troll>, k: int, need: int) -> bool {
    &&& carried_sum_ok(ts, k)
    &&& mark_empty_ok(mark_carriers(ts, k, (k + 7) as usize), need - carried_sum(ts, k))
}

/// The trolls after the rounds of the `n` first fruits.
pub open spec fn plant_rounds(ts: Seq<Troll>, needs: Seq<int>, n: int) -> Seq<Troll>
    decreases n,
{
    if n <= 0 {
        ts
    } else {
        plant_round(plant_rounds(ts, needs, n - 1), n - 1, needs[n - 1])
    }
}

/// The rounds of the `n` first fruits stay in `i32`.
pub open spec fn plant_rounds_ok(ts: Seq<Troll>, needs: Seq<int>, n: int) -> bool
    decreases n,
{
    if n <= 0 {
        true
    } else {
        plant_rounds_ok(ts, needs, n - 1) && plant_round_ok(plant_rounds(ts, needs, n - 1), n - 1, needs[n - 1])
    }
}

/// A troll may plant bananas: a polyvalent troll or a peasant that carries nothing.
pub open spec fn idle_planter(t: Troll) -> bool {
    (t.class == TrollType::Poly || t.class == TrollType::Peasant) && t.carried() == 0
}

/// The trolls with every troll that `sel` keeps given objective `objective`.
pub open spec fn mark_all(ts: Seq<Troll>, sel: spec_fn(Troll) -> bool, objective: usize) -> Seq<Troll> {
    Seq::new(ts.len(), |j: int| if sel(ts[j]) { targeted(ts[j], objective) } else { ts[j] })
}

/// The number of items a troll carries can be summed where it is a polyvalent troll or a peasant.
pub open spec fn planters_carry_ok(ts: Seq<Troll>) -> bool {
    forall|j: int| 0 <= j < ts.len() && ((#[trigger] ts[j]).class == TrollType::Poly || ts[j].class == TrollType::Peasant)
        ==> ts[j].carry_ok()
}

impl Grid {
    /// The trolls after `ask_for_plant`.
    pub open spec fn plant_asked(self, area: i32, required: Seq<i32>, ts: Seq<Troll>) -> Seq<Troll> {
        match self.top_missing(area, required, 4) {
            None => ts,
            Some(f) => match last_max_at(ts, |t: Troll| fetcher(t), |t: Troll| t.items@[f as int] as int) {
                None => ts,
                Some(i) => ts.update(i, targeted(ts[i], (f + 7) as usize)),
            },
        }
    }

    /// Sends the peasant or idle polyvalent troll carrying the most of the missing fruit with
    /// the highest index (the last such troll on a tie) to plant it.
    pub fn ask_for_plant(&self, area: i32, required: [i32; 4], trolls: &mut Vec<Troll>)
        requires
            self.well_formed(),
            self.area_ok(area),
            self.missing_ok(area, required@),
        ensures
            final(trolls)@ == self.plant_asked(area, required@, old(trolls)@),
    {
        match self.plant_need(area, required) {
            None => {},
            Some(fruit) => {
                let ghost sel = |t: Troll| fetcher(t);
                let ghost key = |t: Troll| t.items@[fruit as int] as int;
                let mut keys: Vec<Option<i32>> = Vec::new();
                let mut j: usize = 0;
                while j < trolls.len()
                    invariant
                        fruit < 4,
                        sel == (|t: Troll| fetcher(t)),
                        key == (|t: Troll| t.items@[fruit as int] as int),
                        j <= trolls@.len(),
                        keys_agree(trolls@.take(j as int), sel, key, keys@),
                    decreases trolls@.len() - j,
                {
                    let t = trolls[j];
                    if t.class == TrollType::Peasant || (t.class == TrollType::Poly && !t.assigned) {
                        keys.push(Some(t.items[fruit]));
                    } else {
                        keys.push(None);
                    }
                    assert(trolls@.take(j + 1) == trolls@.take(j as int).push(t));
                    j = j + 1;
                }
                assert(trolls@.take(trolls@.len() as int) == trolls@);
                match last_max_index(&keys) {
                    None => {
                        proof {
                            lemma_none_agree(trolls@, sel, key, keys@);
                            lemma_last_max_at_none(trolls@, sel, key);
                        }
                    },
                    Some(i) => {
                        proof {
                            lemma_last_max_agree(trolls@, sel, key, keys@, i as int);
                            lemma_last_max_at(trolls@, sel, key, i as int);
                        }
                        trolls[i].target(fruit + 7);
                    },
                }
            },
        }
    }

    /// How many bananas are still missing in the area.
    pub open spec fn bananas_missing(self, area: i32, required: i32) -> int {
        required - self.census(self.shack_area(area), Fruit::Banana)
    }

    /// The trolls after `assign_plant_bananas`.
    pub open spec fn bananas_assigned(self, area: i32, required: i32, ts: Seq<Troll>) -> Seq<Troll> {
        let needs = self.bananas_missing(area, required);
        if needs > 0 {
            let ts1 = mark_carriers(ts, BANANA as int, PLANT_BANANA);
            if needs - carried_sum(ts1, BANANA as int) > 0 {
                mark_all(ts1, |t: Troll| idle_planter(t), PLANT_BANANA)
            } else {
                ts1
            }
        } else {
            ts
        }
    }

    /// `assign_plant_bananas` stays in `i32`.
    pub open spec fn bananas_assigned_ok(self, area: i32, required: i32, ts: Seq<Troll>) -> bool {
        let needs = self.bananas_missing(area, required);
        &&& i32::MIN <= needs
        &&& needs > 0 ==> {
            let ts1 = mark_carriers(ts, BANANA as int, PLANT_BANANA);
            &&& carried_sum_ok(ts1, BANANA as int)
            &&& needs - carried_sum(ts1, BANANA as int) > 0 ==> planters_carry_ok(ts1)
        }
    }

    /// Where bananas are missing in the area, sends every troll carrying bananas to plant them,
    /// and where those do not carry enough, every idle polyvalent troll or peasant too.
    pub fn assign_plant_bananas(&self, area: i32, required: i32, trolls: &mut Vec<Troll>)
        requires
            self.well_formed(),
            self.area_ok(area),
            self.bananas_assigned_ok(area, required, old(trolls)@),
        ensures
            final(trolls)@ == self.bananas_assigned(area, required, old(trolls)@),
    {
        let census = self.tree_census(area);
        let banana_count = census[3];
        assert(banana_count == self.census(self.shack_area(area), Fruit::Banana));
        proof {
            self.lemma_census_bounds(self.shack_area(area), Fruit::Banana);
        }
        let needs = required - banana_count;
        if needs > 0 {
            let ghost ts0 = trolls@;
            let ghost ts1 = mark_carriers(ts0, BANANA as int, PLANT_BANANA);
            let mut j: usize = 0;
            while j < trolls.len()
                invariant
                    ts1 == mark_carriers(ts0, BANANA as int, PLANT_BANANA),
                    trolls@.len() == ts0.len(),
                    j <= trolls@.len(),
                    forall|k: int| 0 <= k < j ==> #[trigger] trolls@[k] == ts1[k],
                    forall|k: int| j <= k < trolls@.len() ==> #[trigger] trolls@[k] == ts0[k],
                decreases trolls@.len() - j,
            {
                if trolls[j].have_fruit(Fruit::Banana) > 0 {
                    trolls[j].target(PLANT_BANANA);
                }
                j = j + 1;
            }
            assert(trolls@ == ts1);
            let mut carried: i32 = 0;
            let mut j: usize = 0;
            while j < trolls.len()
                invariant
                    trolls@ == ts1,
                    carried_sum_ok(ts1, BANANA as int),
                    j <= trolls@.len(),
                    carried == carried_sum(ts1.take(j as int), BANANA as int),
                decreases trolls@.len() - j,
            {
                assert(ts1.take(j + 1).drop_last() == ts1.take(j as int));
                assert(carried_sum(ts1.take(j + 1), BANANA as int) <= i32::MAX);
                proof { lemma_carried_sum_nonneg(ts1.take(j as int), BANANA as int); }
                let b = trolls[j].have_fruit(Fruit::Banana);
                if b > 0 {
                    carried = carried + b;
                }
                j = j + 1;
            }
            assert(ts1.take(ts1.len() as int) == ts1);
            proof { lemma_carried_sum_nonneg(ts1, BANANA as int); }
            let bananas_to_plant = needs - carried;
            if bananas_to_plant > 0 {
                let ghost sel = |t: Troll| idle_planter(t);
                let mut j: usize = 0;
                while j < trolls.len()
                    invariant
                        sel == (|t: Troll| idle_planter(t)),
                        planters_carry_ok(ts1),
                        trolls@.len() == ts1.len(),
                        j <= trolls@.len(),
                        forall|k: int| 0 <= k < j ==> #[trigger] trolls@[k] == mark_all(ts1, sel, PLANT_BANANA)[k],
                        forall|k: int| j <= k < trolls@.len() ==> #[trigger] trolls@[k] == ts1[k],
                    decreases trolls@.len() - j,
                {
                    let t = trolls[j];
                    if (t.class == TrollType::Poly || t.class == TrollType::Peasant) && t.empty() {
                        trolls[j].target(PLANT_BANANA);
                    }
                    j = j + 1;
                }
                assert(trolls@ == mark_all(ts1, sel, PLANT_BANANA));
            }
        }
    }

    /// The trolls after `assign_plants`, where trees are missing.
    pub open spec fn plants_assigned(self, area: i32, required: Seq<i32>, ts: Seq<Troll>) -> Seq<Troll> {
        plant_rounds(ts, self.plant_needs(area, required), 4)
    }

    /// The trees of each fruit still missing in the area, never below zero.
    pub open spec fn plant_needs(self, area: i32, required: Seq<i32>) -> Seq<int> {
        Seq::new(4, |k: int| crate::census::imax0(self.missing(area, required, k)))
    }

    /// No tree is missing in the area.
    pub open spec fn nothing_missing(self, area: i32, required: Seq<i32>) -> bool {
        forall|k: int| 0 <= k < 4 ==> #[trigger] self.missing(area, required, k) <= 0
    }

    /// Where trees are missing in the area, sends, fruit after fruit, the trolls carrying that
    /// fruit to plant it, then as many empty trolls as trees are still missing once what those
    /// carry is counted. Tells whether any tree was missing.
    pub fn assign_plants(&self, area: i32, required: [i32; 4], trolls: &mut Vec<Troll>) -> (b: bool)
        requires
            self.well_formed(),
            self.area_ok(area),
            self.missing_ok(area, required@),
            !self.nothing_missing(area, required@) ==> plant_rounds_ok(old(trolls)@, self.plant_needs(area, required@), 4),
        ensures
            b == !self.nothing_missing(area, required@),
            b ==> final(trolls)@ == self.plants_assigned(area, required@, old(trolls)@),
            !b ==> final(trolls)@ == old(trolls)@,
    {
        let needs = self.plants_need(area, required);
        let ghost gneeds = self.plant_needs(area, required@);
        if needs[0] == 0 && needs[1] == 0 && needs[2] == 0 && needs[3] == 0 {
            proof {
                assert forall|k: int| 0 <= k < 4 implies #[trigger] self.missing(area, required@, k) <= 0 by {
                    assert(needs@[k] == 0);
                }
            }
            return false;
        }
        let ghost ts0 = trolls@;
        assert forall|k: int| 0 <= k < 4 implies 0 <= #[trigger] gneeds[k] <= i32::MAX by {
            assert(needs@[k] == gneeds[k]);
        }
        let mut fruit_idx: usize = 0;
        while fruit_idx < 4
            invariant
                forall|k: int| 0 <= k < 4 ==> #[trigger] needs@[k] == gneeds[k],
                gneeds == self.plant_needs(area, required@),
                forall|k: int| 0 <= k < 4 ==> 0 <= #[trigger] gneeds[k] <= i32::MAX,
                plant_rounds_ok(ts0, gneeds, 4),
                fruit_idx <= 4,
                trolls@ == plant_rounds(ts0, gneeds, fruit_idx as int),
            decreases 4 - fruit_idx,
        {
            proof {
                lemma_rounds_ok_prefix(ts0, gneeds, 4, fruit_idx as int + 1);
            }
            plant_one_round(trolls, fruit_idx, needs[fruit_idx]);
            fruit_idx = fruit_idx + 1;
        }
        true
    }
}

proof fn lemma_rounds_ok_prefix(ts: Seq<Troll>, needs: Seq<int>, n: int, m: int)
    requires
        plant_rounds_ok(ts, needs, n),
        0 <= m <= n,
    ensures
        plant_rounds_ok(ts, needs, m),
    decreases n,
{
    if m < n {
        lemma_rounds_ok_prefix(ts, needs, n - 1, m);
    }
}

/// One round of `assign_plants` for fruit `k`.
fn plant_one_round(trolls: &mut Vec<Troll>, k: usize, need: i32)
    requires
        k < 4,
        need >= 0,
        plant_round_ok(old(trolls)@, k as int, need as int),
    ensures
        final(trolls)@ == plant_round(old(trolls)@, k as int, need as int),
{
    let ghost ts0 = trolls@;
    let objective = k + 7;
    let ghost ts1 = mark_carriers(ts0, k as int, objective);
    let mut carried: i32 = 0;
    let mut j: usize = 0;
    let fruit = Fruit::from_usize(k);
    assert(fruit_index(fruit) == k);
    while j < trolls.len()
        invariant
            k < 4,
            fruit_index(fruit) == k,
            objective == k + 7,
            ts1 == mark_carriers(ts0, k as int, objective),
            carried_sum_ok(ts0, k as int),
            trolls@.len() == ts0.len(),
            j <= trolls@.len(),
            carried == carried_sum(ts0.take(j as int), k as int),
            forall|i: int| 0 <= i < j ==> #[trigger] trolls@[i] == ts1[i],
            forall|i: int| j <= i < trolls@.len() ==> #[trigger] trolls@[i] == ts0[i],
        decreases trolls@.len() - j,
    {
        assert(ts0.take(j + 1).drop_last() == ts0.take(j as int));
        assert(carried_sum(ts0.take(j + 1), k as int) <= i32::MAX);
        proof { lemma_carried_sum_nonneg(ts0.take(j as int), k as int); }
        let n = trolls[j].have_fruit(fruit);
        if n > 0 {
            trolls[j].target(objective);
            carried = carried + n;
        }
        j = j + 1;
    }
    assert(trolls@ == ts1);
    assert(ts0.take(ts0.len() as int) == ts0);
    proof { lemma_carried_sum_nonneg(ts0, k as int); }
    let mut fruit_to_pick: i32 = need - carried;
    let mut j: usize = 0;
    assert(ts1.skip(0) == ts1);
    assert(trolls@.take(0) == Seq::<Troll>::empty());
    while j < trolls.len() && fruit_to_pick > 0
        invariant
            j <= trolls@.len(),
            trolls@.len() == ts1.len(),
            mark_empty(ts1, objective, need - carried_sum(ts0, k as int))
                == trolls@.take(j as int) + mark_empty(ts1.skip(j as int), objective, fruit_to_pick as int),
            mark_empty_ok(ts1.skip(j as int), fruit_to_pick as int),
            trolls@.skip(j as int) == ts1.skip(j as int),
        decreases trolls@.len() - j,
    {
        let ghost rest = ts1.skip(j as int);
        assert(rest[0] == trolls@[j as int]);
        assert(rest.drop_first() == ts1.skip(j + 1));
        if trolls[j].empty() {
            trolls[j].target(objective);
            fruit_to_pick = fruit_to_pick - 1;
        }
        assert(trolls@.take(j + 1) == trolls@.take(j as int).push(trolls@[j as int]));
        assert(trolls@.skip(j + 1) == ts1.skip(j + 1));
        j = j + 1;
    }
    proof {
        lemma_mark_empty_idle(ts1.skip(j as int), objective, fruit_to_pick as int);
        assert(trolls@ == trolls@.take(j as int) + trolls@.skip(j as int));
    }
}

/// Marking no troll changes nothing.
proof fn lemma_mark_empty_idle(ts: Seq<Troll>, objective: usize, n: int)
    requires
        n <= 0 || ts.len() == 0,
    ensures
        mark_empty(ts, objective, n) == ts,
    decreases ts.len(),
{
    if ts.len() > 0 {
        lemma_mark_empty_idle(ts.drop_first(), objective, n);
        assert(ts == seq![ts[0]] + ts.drop_first());
    }
}

} // verus!
