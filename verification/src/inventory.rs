use vstd::prelude::*;
use crate::consts::{MS, CAPA, HARV, CHOP, IRON};
use crate::troll::{Troll, TrollType};
use crate::text::{with_arg, append_arg};

verus! {

/// A player's stock: four fruits, iron and wood.
#[derive(Clone, Copy, Debug)]
pub struct Inventory {
    pub resources: [i32; 6],
}

/// A troll after it was given an objective.
pub open spec fn targeted(t: Troll, objective: usize) -> Troll {
    Troll { objective, assigned: true, ..t }
}

/// The troll can be sent to fetch a resource: a peasant, or a polyvalent troll without a task.
pub open spec fn fetcher(t: Troll) -> bool {
    t.class == TrollType::Peasant || (t.class == TrollType::Poly && !t.assigned)
}

/// Every polyvalent troll sent to the mine where iron is needed.
pub open spec fn send_to_mine(ts: Seq<Troll>, needs: Seq<i32>) -> Seq<Troll> {
    if needs[IRON as int] > 0 {
        Seq::new(ts.len(), |j: int| if ts[j].class == TrollType::Poly { targeted(ts[j], IRON) } else { ts[j] })
    } else {
        ts
    }
}

/// Moves on from resource `idx`, of which `nb` are still wanted, to the first resource
/// (of the three fruits before bananas) still wanted; 3 where none is.
pub open spec fn settle(needs: Seq<i32>, idx: int, nb: int) -> (int, int)
    decreases 3 - idx,
{
    if idx >= 3 {
        (3, nb)
    } else if nb > 0 {
        (idx, nb)
    } else if idx + 1 < 3 {
        settle(needs, idx + 1, needs[idx + 1] as int)
    } else {
        (3, nb)
    }
}

/// The trolls after the fetchers among them, in order, were sent for the resources still
/// wanted, from resource `idx` of which `nb` are wanted: each takes the resource at hand,
/// and counts for the room it has left.
pub open spec fn distribute(ts: Seq<Troll>, needs: Seq<i32>, idx: int, nb: int) -> Seq<Troll>
    decreases ts.len(),
{
    if ts.len() == 0 {
        ts
    } else if idx >= 3 || !fetcher(ts[0]) {
        seq![ts[0]] + distribute(ts.drop_first(), needs, idx, nb)
    } else {
        let next = settle(needs, idx, nb - ts[0].room());
        seq![targeted(ts[0], idx as usize)] + distribute(ts.drop_first(), needs, next.0, next.1)
    }
}

/// `distribute` stays in `i32`: the room of each troll sent, and what remains wanted.
pub open spec fn distribute_ok(ts: Seq<Troll>, needs: Seq<i32>, idx: int, nb: int) -> bool
    decreases ts.len(),
{
    if ts.len() == 0 {
        true
    } else if idx >= 3 || !fetcher(ts[0]) {
        distribute_ok(ts.drop_first(), needs, idx, nb)
    } else {
        &&& ts[0].room_ok()
        &&& i32::MIN <= nb - ts[0].room() <= i32::MAX
        &&& {
            let next = settle(needs, idx, nb - ts[0].room());
            distribute_ok(ts.drop_first(), needs, next.0, next.1)
        }
    }
}

/// The trolls after `ask_for_resources`.
pub open spec fn asked(ts: Seq<Troll>, needs: Seq<i32>) -> Seq<Troll> {
    let start = settle(needs, 0, needs[0] as int);
    distribute(send_to_mine(ts, needs), needs, start.0, start.1)
}

/// `ask_for_resources` stays in `i32`.
pub open spec fn asked_ok(ts: Seq<Troll>, needs: Seq<i32>) -> bool {
    let start = settle(needs, 0, needs[0] as int);
    distribute_ok(send_to_mine(ts, needs), needs, start.0, start.1)
}

proof fn lemma_settle_range(needs: Seq<i32>, idx: int, nb: int)
    requires
        needs.len() == 6,
        0 <= idx,
        i32::MIN <= nb <= i32::MAX,
    ensures
        settle(needs, idx, nb).0 >= idx || settle(needs, idx, nb).0 == 3,
        settle(needs, idx, nb).0 <= 3,
        i32::MIN <= settle(needs, idx, nb).1 <= i32::MAX,
        settle(needs, idx, nb).0 < 3 ==> settle(needs, idx, nb).1 > 0,
    decreases 3 - idx,
{
    if idx < 3 && nb <= 0 && idx + 1 < 3 {
        lemma_settle_range(needs, idx + 1, needs[idx + 1] as int);
    }
}

/// Sends polyvalent trolls to the mine where iron is needed, then peasants and idle
/// polyvalent trolls, in order, for the plums, lemons and apples still needed, each troll
/// counting for the room it has left.
pub fn ask_for_resources(trolls: &mut Vec<Troll>, needs: [i32; 6])
    requires
        asked_ok(old(trolls)@, needs@),
    ensures
        final(trolls)@ == asked(old(trolls)@, needs@),
{
    let ghost ts0 = trolls@;
    if needs[IRON] > 0 {
        let mut j: usize = 0;
        while j < trolls.len()
            invariant
                j <= trolls@.len(),
                trolls@.len() == ts0.len(),
                needs@[IRON as int] > 0,
                forall|k: int| 0 <= k < j ==> #[trigger] trolls@[k] == send_to_mine(ts0, needs@)[k],
                forall|k: int| j <= k < trolls@.len() ==> #[trigger] trolls@[k] == ts0[k],
            decreases trolls@.len() - j,
        {
            if trolls[j].class == TrollType::Poly {
                trolls[j].target(IRON);
            }
            j = j + 1;
        }
    }
    assert(trolls@ == send_to_mine(ts0, needs@));
    let ghost ts1 = trolls@;
    let mut idx: usize = 0;
    let mut nb: i32 = needs[0];
    proof {
        lemma_settle_range(needs@, 0, needs@[0] as int);
    }
    // Skip the resources that are not wanted at all.
    let ghost start = settle(needs@, 0, needs@[0] as int);
    while idx < 3 && nb <= 0
        invariant
            idx <= 3,
            i32::MIN <= nb <= i32::MAX,
            settle(needs@, idx as int, nb as int) == start,
        decreases 3 - idx,
    {
        idx = idx + 1;
        if idx < 3 {
            nb = needs[idx];
        }
    }
    proof {
        lemma_settle_range(needs@, idx as int, nb as int);
        assert(start == (idx as int, nb as int));
        assert(ts1.skip(0) == ts1);
        assert(trolls@.take(0) == Seq::<Troll>::empty());
        assert(trolls@.skip(0) == trolls@);
    }
    let mut j: usize = 0;
    while j < trolls.len()
        invariant
            j <= trolls@.len(),
            trolls@.len() == ts1.len(),
            idx <= 3,
            idx < 3 ==> nb > 0,
            distribute(ts1, needs@, start.0, start.1) == trolls@.take(j as int) + distribute(ts1.skip(j as int), needs@, idx as int, nb as int),
            distribute_ok(ts1.skip(j as int), needs@, idx as int, nb as int),
            trolls@.skip(j as int) == ts1.skip(j as int),
        decreases trolls@.len() - j,
    {
        let ghost rest = ts1.skip(j as int);
        assert(rest[0] == trolls@[j as int]);
        assert(rest.drop_first() == ts1.skip(j + 1));
        let t = trolls[j];
        if idx < 3 && (t.class == TrollType::Peasant || (t.class == TrollType::Poly && !t.assigned)) {
            let room = t.place_left();
            nb = nb - room;
            trolls[j].target(idx);
            proof {
                lemma_settle_range(needs@, idx as int, nb as int);
            }
            let ghost next = settle(needs@, idx as int, nb as int);
            while idx < 3 && nb <= 0
                invariant
                    idx <= 3,
                    i32::MIN <= nb <= i32::MAX,
                    settle(needs@, idx as int, nb as int) == next,
                decreases 3 - idx,
            {
                idx = idx + 1;
                if idx < 3 {
                    nb = needs[idx];
                }
            }
            proof {
                lemma_settle_range(needs@, idx as int, nb as int);
                assert(next == (idx as int, nb as int));
            }
        }
        assert(trolls@.take(j + 1) == trolls@.take(j as int).push(trolls@[j as int]));
        assert(trolls@.skip(j + 1) == ts1.skip(j + 1));
        j = j + 1;
    }
    assert(trolls@.take(trolls@.len() as int) == trolls@);
    assert(ts1.skip(ts1.len() as int) == Seq::<Troll>::empty());
}

/// What each of `target` is still missing from `res`, never below zero.
pub open spec fn shortfall(res: Seq<i32>, target: Seq<i32>, k: int) -> int {
    if target[k] - res[k] > 0 { target[k] - res[k] } else { 0 }
}

/// The command that trains a troll with the given characteristics.
pub open spec fn train_cmd(c: Seq<i32>) -> Seq<char> {
    with_arg(with_arg(with_arg(with_arg("TRAIN"@, c[0] as int), c[1] as int), c[2] as int), c[3] as int)
}

impl Inventory {
    pub fn new(plum: i32, lemon: i32, apple: i32, banana: i32, iron: i32, wood: i32) -> (inv: Inventory)
        ensures
            inv.resources@ == seq![plum, lemon, apple, banana, iron, wood],
    {
        let resources = [plum, lemon, apple, banana, iron, wood];
        assert(resources@ =~= seq![plum, lemon, apple, banana, iron, wood]);
        Inventory { resources }
    }

    /// Each difference between `target` and the stock fits in an `i32`.
    pub open spec fn gap_ok(self, target: Seq<i32>) -> bool {
        forall|k: int| 0 <= k < 6 ==> i32::MIN <= #[trigger] target[k] - self.resources@[k] <= i32::MAX
    }

    /// What the stock lacks to reach `target`, `None` where it lacks nothing.
    pub fn what_is_needed(&self, target: [i32; 6]) -> (r: Option<[i32; 6]>)
        requires
            self.gap_ok(target@),
        ensures
            r is None <==> forall|k: int| 0 <= k < 6 ==> #[trigger] shortfall(self.resources@, target@, k) == 0,
            r matches Some(n) ==> forall|k: int| 0 <= k < 6 ==> #[trigger] n@[k] == shortfall(self.resources@, target@, k),
    {
        let mut needs: [i32; 6] = [0, 0, 0, 0, 0, 0];
        let mut idx: usize = 0;
        while idx < 6
            invariant
                self.gap_ok(target@),
                idx <= 6,
                forall|k: int| 0 <= k < idx ==> #[trigger] needs@[k] == shortfall(self.resources@, target@, k),
            decreases 6 - idx,
        {
            assert(i32::MIN <= target@[idx as int] - self.resources@[idx as int] <= i32::MAX);
            let d = target[idx] - self.resources[idx];
            let v = if d > 0 { d } else { 0 };
            needs[idx] = v;
            idx = idx + 1;
        }
        let mut k: usize = 0;
        while k < 6
            invariant
                k <= 6,
                forall|i: int| 0 <= i < 6 ==> #[trigger] needs@[i] == shortfall(self.resources@, target@, i),
                forall|i: int| 0 <= i < k ==> #[trigger] needs@[i] == 0,
            decreases 6 - k,
        {
            if needs[k] != 0 {
                return Some(needs);
            }
            k = k + 1;
        }
        assert forall|i: int| 0 <= i < 6 implies #[trigger] shortfall(self.resources@, target@, i) == 0 by {
            assert(needs@[i] == 0);
        }
        None
    }

    /// The stock's shortfalls for `cost`, as plain values.
    pub open spec fn needs_for(self, cost: Seq<i32>) -> Seq<i32> {
        Seq::new(6, |k: int| shortfall(self.resources@, cost, k) as i32)
    }

    /// The stock covers `cost`.
    pub open spec fn covers(self, cost: Seq<i32>) -> bool {
        forall|k: int| 0 <= k < 6 ==> #[trigger] shortfall(self.resources@, cost, k) == 0
    }

    /// The command that trains a troll with characteristics `charac` where the stock covers
    /// its `cost`; otherwise none, and the trolls are sent for what is missing.
    pub fn train_asked(&self, charac: [i32; 4], cost: [i32; 6], trolls: &mut Vec<Troll>) -> (r: Option<String>)
        requires
            self.gap_ok(cost@),
            !self.covers(cost@) ==> asked_ok(old(trolls)@, self.needs_for(cost@)),
        ensures
            self.covers(cost@) ==> (r matches Some(s) && s@ == train_cmd(charac@)) && final(trolls)@ == old(trolls)@,
            !self.covers(cost@) ==> r is None && final(trolls)@ == asked(old(trolls)@, self.needs_for(cost@)),
    {
        match self.what_is_needed(cost) {
            None => {
                let mut s = String::from_str("TRAIN");
                append_arg(&mut s, charac[MS]);
                append_arg(&mut s, charac[CAPA]);
                append_arg(&mut s, charac[HARV]);
                append_arg(&mut s, charac[CHOP]);
                Some(s)
            },
            Some(needs) => {
                assert(needs@ =~= self.needs_for(cost@));
                ask_for_resources(trolls, needs);
                None
            },
        }
    }
}

} // verus!
