use vstd::prelude::*;
use crate::consts::{MS, CAPA, HARV, CHOP, IRON, ANY, CHOP_ANY};
use crate::fruit::{Fruit, Tree, fruit_name, fruit_index, fruit_of, names_fruit};
use crate::text::{with_arg, append_arg};

verus! {

/// The roles a troll can have, told apart by its characteristics.
#[derive(Clone, Copy, PartialEq, Eq, Structural, Debug)]
pub enum TrollType {
    /// Every characteristic at one, like the first troll.
    Poly,
    /// No carry capacity, but chop power and speed to destroy enemy trees.
    Griefer,
    /// Chop power and carry capacity.
    Choper,
    /// Harvest power and carry capacity.
    Peasant,
    /// Carry capacity and speed to bring iron from the mine.
    Miner,
}

/// The role of a troll with characteristics `c` (speed, capacity, harvest, chop).
pub open spec fn type_of(c: Seq<i32>) -> TrollType {
    if c == seq![1i32, 1, 1, 1] {
        TrollType::Poly
    } else if c == seq![2i32, 4, 0, 3] || c == seq![2i32, 2, 0, 2] {
        TrollType::Choper
    } else if c == seq![2i32, 0, 0, 2] {
        TrollType::Griefer
    } else if c == seq![2i32, 2, 2, 1] {
        TrollType::Peasant
    } else {
        TrollType::Miner
    }
}

/// The characteristics to train a troll of role `t` with.
pub open spec fn need_of(t: TrollType) -> Seq<i32> {
    match t {
        TrollType::Poly => seq![1i32, 1, 1, 1],
        TrollType::Choper => seq![2i32, 4, 0, 3],
        TrollType::Miner => seq![2i32, 2, 0, 1],
        TrollType::Griefer => seq![2i32, 0, 0, 2],
        TrollType::Peasant => seq![2i32, 2, 2, 1],
    }
}

/// The price of one characteristic point when `total_troll` trolls exist already.
pub open spec fn point_cost(total_troll: int, c: i32) -> int {
    total_troll + c * c
}

/// The index of a role in training ratios.
pub open spec fn type_index(t: TrollType) -> usize {
    match t {
        TrollType::Poly => 0,
        TrollType::Peasant => 1,
        TrollType::Miner => 2,
        TrollType::Choper => 3,
        TrollType::Griefer => 4,
    }
}

/// The role with index `n` (meant for `n < 5`).
pub open spec fn type_at(n: usize) -> TrollType {
    if n == 0 {
        TrollType::Poly
    } else if n == 1 {
        TrollType::Peasant
    } else if n == 2 {
        TrollType::Miner
    } else if n == 3 {
        TrollType::Choper
    } else {
        TrollType::Griefer
    }
}

/// The objective a new troll of role `t` starts with.
pub open spec fn default_objective_of(t: TrollType) -> usize {
    match t {
        TrollType::Poly => ANY,
        TrollType::Peasant => ANY,
        TrollType::Miner => IRON,
        TrollType::Choper => CHOP_ANY,
        TrollType::Griefer => ANY,
    }
}

/// The name of a role.
pub open spec fn role_name(t: TrollType) -> Seq<char> {
    match t {
        TrollType::Choper => "CHOPER"@,
        TrollType::Griefer => "GRIEFER"@,
        TrollType::Miner => "MINER"@,
        TrollType::Peasant => "PEASANT"@,
        TrollType::Poly => "POLY"@,
    }
}

/// The square of a characteristic.
fn square(c: i32) -> (r: i32)
    requires
        0 <= c <= 4,
    ensures
        r == c * c,
{
    assert(0 <= c * c <= 16) by (nonlinear_arith)
        requires
            0 <= c <= 4,
    ;
    c * c
}

impl TrollType {
    /// The role of a troll with the given characteristics.
    pub fn get_type(charac: [i32; 4]) -> (t: TrollType)
        ensures
            t == type_of(charac@),
    {
        let c0 = charac[0];
        let c1 = charac[1];
        let c2 = charac[2];
        let c3 = charac[3];
        proof {
            assert(charac@ == seq![c0, c1, c2, c3]);
        }
        if c0 == 1 && c1 == 1 && c2 == 1 && c3 == 1 {
            TrollType::Poly
        } else if (c0 == 2 && c1 == 4 && c2 == 0 && c3 == 3) || (c0 == 2 && c1 == 2 && c2 == 0 && c3 == 2) {
            TrollType::Choper
        } else if c0 == 2 && c1 == 0 && c2 == 0 && c3 == 2 {
            TrollType::Griefer
        } else if c0 == 2 && c1 == 2 && c2 == 2 && c3 == 1 {
            TrollType::Peasant
        } else {
            TrollType::Miner
        }
    }

    /// The characteristics to train a troll of this role with.
    pub fn charac_need(&self, game_state: i32, mine_dist: i32) -> (c: [i32; 4])
        ensures
            c@ == need_of(*self),
    {
        let c = match self {
            TrollType::Poly => [1, 1, 1, 1],
            TrollType::Choper => [2, 4, 0, 3],
            TrollType::Miner => [2, 2, 0, 1],
            TrollType::Griefer => [2, 0, 0, 2],
            TrollType::Peasant => [2, 2, 2, 1],
        };
        assert(c@ =~= need_of(*self));
        c
    }

    /// The resources that training a troll of this role costs when `total_troll` trolls exist:
    /// each characteristic point costs `total_troll` plus its square; the three first pay in
    /// plums, lemons and apples, chop power in iron.
    pub fn cost(&self, game_state: i32, mine_dist: i32, total_troll: i32) -> (r: [i32; 6])
        requires
            forall|k: int| 0 <= k < 4 ==> point_cost(total_troll as int, #[trigger] need_of(*self)[k]) <= i32::MAX,
        ensures
            r@[0] == point_cost(total_troll as int, need_of(*self)[MS as int]),
            r@[1] == point_cost(total_troll as int, need_of(*self)[CAPA as int]),
            r@[2] == point_cost(total_troll as int, need_of(*self)[HARV as int]),
            r@[3] == 0,
            r@[4] == point_cost(total_troll as int, need_of(*self)[CHOP as int]),
            r@[5] == 0,
    {
        let charac = self.charac_need(game_state, mine_dist);
        proof {
            assert(point_cost(total_troll as int, need_of(*self)[0]) <= i32::MAX);
            assert(point_cost(total_troll as int, need_of(*self)[1]) <= i32::MAX);
            assert(point_cost(total_troll as int, need_of(*self)[2]) <= i32::MAX);
            assert(point_cost(total_troll as int, need_of(*self)[3]) <= i32::MAX);
        }
        let m = square(charac[MS]);
        let c = square(charac[CAPA]);
        let h = square(charac[HARV]);
        let p = square(charac[CHOP]);
        [total_troll + m, total_troll + c, total_troll + h, 0, total_troll + p, 0]
    }

    /// The role with the given ratio index.
    pub fn from_usize(n: usize) -> (t: TrollType)
        requires
            n < 5,
        ensures
            t == type_at(n),
    {
        if n == 0 {
            TrollType::Poly
        } else if n == 1 {
            TrollType::Peasant
        } else if n == 2 {
            TrollType::Miner
        } else if n == 3 {
            TrollType::Choper
        } else {
            TrollType::Griefer
        }
    }

    /// The ratio index of the role.
    pub fn to_usize(&self) -> (n: usize)
        ensures
            n == type_index(*self),
    {
        match self {
            TrollType::Poly => 0,
            TrollType::Peasant => 1,
            TrollType::Miner => 2,
            TrollType::Choper => 3,
            TrollType::Griefer => 4,
        }
    }

    /// The objective a troll of this role starts with.
    pub fn default_objective(&self) -> (o: usize)
        ensures
            o == default_objective_of(*self),
    {
        match self {
            TrollType::Poly => ANY,
            TrollType::Peasant => ANY,
            TrollType::Miner => IRON,
            TrollType::Choper => CHOP_ANY,
            TrollType::Griefer => ANY,
        }
    }

    /// The name of the role.
    pub fn to_string(&self) -> (s: String)
        ensures
            s@ == role_name(*self),
    {
        match self {
            TrollType::Choper => String::from_str("CHOPER"),
            TrollType::Griefer => String::from_str("GRIEFER"),
            TrollType::Miner => String::from_str("MINER"),
            TrollType::Peasant => String::from_str("PEASANT"),
            TrollType::Poly => String::from_str("POLY"),
        }
    }
}

/// A troll: its owner, position, characteristics (speed, capacity, harvest, chop),
/// role, objective and the items it carries (four fruits, iron, wood).
#[derive(Clone, Copy, Debug)]
pub struct Troll {
    pub id: i32,
    pub player: i32,
    pub x: i32,
    pub y: i32,
    pub charac: [i32; 4],
    pub class: TrollType,
    pub objective: usize,
    pub assigned: bool,
    pub items: [i32; 6],
}

/// The sum of the `n` first entries of `s`.
pub open spec fn prefix_sum(s: Seq<i32>, n: int) -> int
    decreases n,
{
    if n <= 0 {
        0
    } else {
        prefix_sum(s, n - 1) + s[n - 1]
    }
}

/// Every partial sum of the `n` first entries of `s` fits in an `i32`.
pub open spec fn prefix_sums_fit(s: Seq<i32>, n: int) -> bool {
    forall|k: int| 0 <= k <= n ==> i32::MIN <= #[trigger] prefix_sum(s, k) <= i32::MAX
}

/// The index of the first positive entry of `s` from `k` on, or the length of `s`.
pub open spec fn first_positive_from(s: Seq<i32>, k: int) -> int
    decreases s.len() - k,
{
    if k >= s.len() {
        s.len() as int
    } else if s[k] > 0 {
        k
    } else {
        first_positive_from(s, k + 1)
    }
}

/// The command that moves troll `id` to `(x, y)`.
pub open spec fn move_cmd(id: i32, x: i32, y: i32) -> Seq<char> {
    with_arg(with_arg(with_arg("MOVE"@, id as int), x as int), y as int)
}

/// A command made of a verb and a troll id.
pub open spec fn id_cmd(verb: Seq<char>, id: i32) -> Seq<char> {
    with_arg(verb, id as int)
}

/// A command made of a verb, a troll id and a fruit.
pub open spec fn fruit_cmd(verb: Seq<char>, id: i32, f: Fruit) -> Seq<char> {
    with_arg(verb, id as int) + seq![' '] + fruit_name(f)
}

impl Troll {
    pub open spec fn pos(self) -> (i32, i32) {
        (self.x, self.y)
    }

    /// Everything the troll carries.
    pub open spec fn carried(self) -> int {
        prefix_sum(self.items@, 6)
    }

    /// The room left in the troll's hands.
    pub open spec fn room(self) -> int {
        self.charac@[CAPA as int] - self.carried()
    }

    /// The sum of what the troll carries can be computed in `i32`.
    pub open spec fn carry_ok(self) -> bool {
        prefix_sums_fit(self.items@, 6)
    }

    /// The room left in the troll's hands can be computed in `i32`.
    pub open spec fn room_ok(self) -> bool {
        self.carry_ok() && i32::MIN <= self.room() <= i32::MAX
    }

    /// The troll carries some fruit.
    pub open spec fn has_fruit(self) -> bool {
        exists|k: int| 0 <= k < 4 && #[trigger] self.items@[k] > 0
    }

    /// The troll is full.
    pub open spec fn full(self) -> bool {
        self.charac@[CAPA as int] == self.carried()
    }

    /// The fruit `plant` names (meant for `plant_ok`).
    pub open spec fn plant_fruit_of(self) -> Fruit {
        if self.items@[fruit_index(fruit_of(self.objective)) as int] == 0 {
            fruit_of(first_positive_from(self.items@, 0) as usize)
        } else {
            fruit_of(self.objective)
        }
    }

    /// `plant` can name a fruit: the objective names one, and where the troll carries none
    /// of it, the first item it carries is a fruit.
    pub open spec fn plant_ok(self) -> bool {
        &&& names_fruit(self.objective)
        &&& self.items@[fruit_index(fruit_of(self.objective)) as int] == 0
            ==> first_positive_from(self.items@, 0) < 4
    }

    /// A troll with the given characteristics and items; its role follows from its
    /// characteristics and it starts, unassigned, with that role's objective.
    pub fn new(
        id: i32, player: i32, x: i32, y: i32,
        movement_speed: i32, carry_capacity: i32,
        harvest_power: i32, chop_power: i32,
        carry_plum: i32, carry_lemon: i32, carry_apple: i32,
        carry_banana: i32, carry_iron: i32, carry_wood: i32,
    ) -> (t: Troll)
        ensures
            t.id == id && t.player == player && t.x == x && t.y == y,
            t.charac@ == seq![movement_speed, carry_capacity, harvest_power, chop_power],
            t.items@ == seq![carry_plum, carry_lemon, carry_apple, carry_banana, carry_iron, carry_wood],
            t.class == type_of(t.charac@),
            t.objective == default_objective_of(t.class),
            !t.assigned,
    {
        let charac = [movement_speed, carry_capacity, harvest_power, chop_power];
        let items = [carry_plum, carry_lemon, carry_apple, carry_banana, carry_iron, carry_wood];
        assert(charac@ =~= seq![movement_speed, carry_capacity, harvest_power, chop_power]);
        assert(items@ =~= seq![carry_plum, carry_lemon, carry_apple, carry_banana, carry_iron, carry_wood]);
        let class = TrollType::get_type(charac);
        Troll { id, player, x, y, charac, class, objective: class.default_objective(), assigned: false, items }
    }

    /// The number of items the troll carries.
    pub fn total_carry(&self) -> (n: i32)
        requires
            self.carry_ok(),
        ensures
            n == self.carried(),
    {
        let mut acc: i32 = 0;
        let mut i: usize = 0;
        while i < 6
            invariant
                i <= 6,
                acc == prefix_sum(self.items@, i as int),
                self.carry_ok(),
            decreases 6 - i,
        {
            assert(i32::MIN <= prefix_sum(self.items@, i + 1) <= i32::MAX);
            acc = acc + self.items[i];
            i = i + 1;
        }
        acc
    }

    /// The troll carries as much as it can.
    pub fn is_full(&self) -> (b: bool)
        requires
            self.carry_ok(),
        ensures
            b == self.full(),
    {
        self.charac[CAPA] == self.total_carry()
    }

    /// The troll carries nothing.
    pub fn empty(&self) -> (b: bool)
        requires
            self.carry_ok(),
        ensures
            b == (self.carried() == 0),
    {
        self.total_carry() == 0
    }

    /// The room left in the troll's hands.
    pub fn place_left(&self) -> (n: i32)
        requires
            self.room_ok(),
        ensures
            n == self.room(),
    {
        self.charac[CAPA] - self.total_carry()
    }

    /// How many of the fruit the troll carries.
    pub fn have_fruit(&self, fruit: Fruit) -> (n: i32)
        ensures
            n == self.items@[fruit_index(fruit) as int],
    {
        self.items[fruit.to_usize()]
    }

    /// The troll carries some of the item with index `item`.
    pub fn have(&self, item: usize) -> (b: bool)
        requires
            item < 6,
        ensures
            b == (self.items@[item as int] != 0),
    {
        self.items[item] != 0
    }

    /// The troll carries some fruit.
    pub fn have_any_fruit(&self) -> (b: bool)
        ensures
            b == self.has_fruit(),
    {
        let mut i: usize = 0;
        while i < 4
            invariant
                i <= 4,
                forall|k: int| 0 <= k < i ==> self.items@[k] <= 0,
            decreases 4 - i,
        {
            if self.items[i] > 0 {
                return true;
            }
            i = i + 1;
        }
        false
    }

    /// The command that moves the troll to `(x, y)`.
    pub fn go_to(&self, x: i32, y: i32) -> (s: String)
        ensures
            s@ == move_cmd(self.id, x, y),
    {
        let mut s = String::from_str("MOVE");
        append_arg(&mut s, self.id);
        append_arg(&mut s, x);
        append_arg(&mut s, y);
        s
    }

    /// The command that moves the troll to a tree.
    pub fn go_to_tree(&self, tree: &Tree) -> (s: String)
        ensures
            s@ == move_cmd(self.id, tree.x, tree.y),
    {
        self.go_to(tree.x, tree.y)
    }

    fn id_command(&self, verb: &str) -> (s: String)
        ensures
            s@ == id_cmd(verb@, self.id),
    {
        let mut s = String::from_str(verb);
        append_arg(&mut s, self.id);
        s
    }

    fn fruit_command(&self, verb: &str, fruit: Fruit) -> (s: String)
        ensures
            s@ == fruit_cmd(verb@, self.id, fruit),
    {
        let mut s = String::from_str(verb);
        append_arg(&mut s, self.id);
        proof {
            reveal_strlit(" ");
        }
        s.append(" ");
        let name = fruit.to_string();
        s.append(name.as_str());
        s
    }

    /// The command to harvest the tree the troll stands on.
    pub fn harvest(&self) -> (s: String)
        ensures
            s@ == id_cmd("HARVEST"@, self.id),
    {
        self.id_command("HARVEST")
    }

    /// The command to mine iron.
    pub fn mine(&self) -> (s: String)
        ensures
            s@ == id_cmd("MINE"@, self.id),
    {
        self.id_command("MINE")
    }

    /// The command to drop what the troll carries at the shack.
    pub fn drop(&self) -> (s: String)
        ensures
            s@ == id_cmd("DROP"@, self.id),
    {
        self.id_command("DROP")
    }

    /// The command to chop the tree the troll stands on.
    pub fn chop(&self) -> (s: String)
        ensures
            s@ == id_cmd("CHOP"@, self.id),
    {
        self.id_command("CHOP")
    }

    /// The command to pick, from the shack, the fruit the objective names.
    pub fn pick(&self) -> (s: String)
        requires
            names_fruit(self.objective),
        ensures
            s@ == fruit_cmd("PICK"@, self.id, fruit_of(self.objective)),
    {
        self.fruit_command("PICK", Fruit::from_usize(self.objective))
    }

    /// The command to plant the fruit the objective names, or where the troll carries
    /// none of it, the first fruit it carries.
    pub fn plant(&self) -> (s: String)
        requires
            self.plant_ok(),
        ensures
            s@ == fruit_cmd("PLANT"@, self.id, self.plant_fruit_of()),
    {
        if self.have_fruit(Fruit::from_usize(self.objective)) == 0 {
            let mut i: usize = 0;
            while i < 6 && self.items[i] <= 0
                invariant
                    i <= 6,
                    first_positive_from(self.items@, 0) == first_positive_from(self.items@, i as int),
                decreases 6 - i,
            {
                i = i + 1;
            }
            self.fruit_command("PLANT", Fruit::from_usize(i))
        } else {
            self.fruit_command("PLANT", Fruit::from_usize(self.objective))
        }
    }

    /// The command to plant the given fruit.
    pub fn plant_fruit(&self, fruit: Fruit) -> (s: String)
        ensures
            s@ == fruit_cmd("PLANT"@, self.id, fruit),
    {
        self.fruit_command("PLANT", fruit)
    }

    /// Gives the troll an objective; it counts as assigned from then on.
    pub fn target(&mut self, objective: usize)
        ensures
            *final(self) == (Troll { objective, assigned: true, ..*old(self) }),
    {
        self.objective = objective;
        self.assigned = true;
    }
}

} // verus!
