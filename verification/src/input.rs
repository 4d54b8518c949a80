use vstd::prelude::*;
use crate::fruit::{Fruit, Tree, fruit_name, is_fruit_name};
use crate::troll::{Troll, type_of, default_objective_of};
use crate::inventory::Inventory;
use crate::parse::{split_spaces, trim, field, fields_ok, fval, chars_of, split_chars, trimmed, field_at, same_text, char_views};

verus! {

/// The fruit with a name, read from characters.
pub fn fruit_from_chars(cs: &Vec<char>) -> (f: Fruit)
    requires
        is_fruit_name(cs@),
    ensures
        fruit_name(f) == cs@,
{
    if same_text(cs, "PLUM") {
        Fruit::Plum
    } else if same_text(cs, "LEMON") {
        Fruit::Lemon
    } else if same_text(cs, "APPLE") {
        Fruit::Apple
    } else {
        Fruit::Banana
    }
}

/// A line describing a tree: its fruit's name, then six `i32` fields, separated by spaces.
pub open spec fn tree_line_ok(s: Seq<char>) -> bool {
    let t = split_spaces(s);
    t.len() >= 7 && is_fruit_name(trim(t[0])) && fields_ok(t, 1, 7)
}

/// A line of at least `n` `i32` fields separated by spaces.
pub open spec fn int_line_ok(s: Seq<char>, n: int) -> bool {
    fields_ok(split_spaces(s), 0, n)
}

impl Tree {
    /// The tree a line describes: fruit, x, y, size, health, fruits borne, cooldown.
    pub fn from(input_line: &String) -> (t: Tree)
        requires
            tree_line_ok(input_line@),
        ensures
            fruit_name(t.fruit) == trim(split_spaces(input_line@)[0]),
            t.x == fval(split_spaces(input_line@), 1),
            t.y == fval(split_spaces(input_line@), 2),
            t.size == fval(split_spaces(input_line@), 3),
            t.health == fval(split_spaces(input_line@), 4),
            t.nb_fruit == fval(split_spaces(input_line@), 5),
            t.cooldown == fval(split_spaces(input_line@), 6),
    {
        let cs = chars_of(input_line.as_str());
        let inputs = split_chars(&cs);
        let ghost toks = split_spaces(input_line@);
        assert(char_views(inputs@) == toks);
        assert(forall|k: int| 0 <= k < inputs@.len() ==> #[trigger] inputs@[k]@ == toks[k]);
        let name = trimmed(&inputs[0]);
        Tree::new(
            fruit_from_chars(&name),
            field_at(&inputs, 5),
            field_at(&inputs, 1),
            field_at(&inputs, 2),
            field_at(&inputs, 3),
            field_at(&inputs, 4),
            field_at(&inputs, 6),
        )
    }
}

impl Troll {
    /// The troll a line describes: id, player, x, y, speed, capacity, harvest power,
    /// chop power, then what it carries of the four fruits, iron and wood.
    pub fn from(input_line: &String) -> (t: Troll)
        requires
            int_line_ok(input_line@, 14),
        ensures
            ({
                let f = split_spaces(input_line@);
                &&& t.id == fval(f, 0) && t.player == fval(f, 1) && t.x == fval(f, 2) && t.y == fval(f, 3)
                &&& t.charac@ == seq![fval(f, 4), fval(f, 5), fval(f, 6), fval(f, 7)]
                &&& t.items@ == seq![fval(f, 8), fval(f, 9), fval(f, 10), fval(f, 11), fval(f, 12), fval(f, 13)]
            }),
            t.class == type_of(t.charac@),
            t.objective == default_objective_of(t.class),
            !t.assigned,
    {
        let cs = chars_of(input_line.as_str());
        let inputs = split_chars(&cs);
        let ghost toks = split_spaces(input_line@);
        assert(char_views(inputs@) == toks);
        assert(forall|k: int| 0 <= k < inputs@.len() ==> #[trigger] inputs@[k]@ == toks[k]);
        Troll::new(
            field_at(&inputs, 0),
            field_at(&inputs, 1),
            field_at(&inputs, 2),
            field_at(&inputs, 3),
            field_at(&inputs, 4),
            field_at(&inputs, 5),
            field_at(&inputs, 6),
            field_at(&inputs, 7),
            field_at(&inputs, 8),
            field_at(&inputs, 9),
            field_at(&inputs, 10),
            field_at(&inputs, 11),
            field_at(&inputs, 12),
            field_at(&inputs, 13),
        )
    }
}

impl Inventory {
    /// The stock a line describes: plums, lemons, apples, bananas, iron, wood.
    pub fn from(input_line: &String) -> (inv: Inventory)
        requires
            int_line_ok(input_line@, 6),
        ensures
            ({
                let f = split_spaces(input_line@);
                inv.resources@ == seq![fval(f, 0), fval(f, 1), fval(f, 2), fval(f, 3), fval(f, 4), fval(f, 5)]
            }),
    {
        let cs = chars_of(input_line.as_str());
        let inputs = split_chars(&cs);
        let ghost toks = split_spaces(input_line@);
        assert(char_views(inputs@) == toks);
        assert(forall|k: int| 0 <= k < inputs@.len() ==> #[trigger] inputs@[k]@ == toks[k]);
        Inventory::new(
            field_at(&inputs, 0),
            field_at(&inputs, 1),
            field_at(&inputs, 2),
            field_at(&inputs, 3),
            field_at(&inputs, 4),
            field_at(&inputs, 5),
        )
    }
}

/// The fields of `toks` from `lo` up to `hi` all hold an `i32`.
pub(crate) fn fields_hold_ints(toks: &Vec<Vec<char>>, lo: usize, hi: usize) -> (b: bool)
    requires
        lo <= hi,
    ensures
        b == fields_ok(char_views(toks@), lo as int, hi as int),
{
    if hi > toks.len() {
        return false;
    }
    let mut k: usize = lo;
    while k < hi
        invariant
            lo <= k <= hi <= toks@.len(),
            forall|j: int| lo <= j < k ==> (#[trigger] field(toks@[j]@)) is Some,
        decreases hi - k,
    {
        if crate::parse::parse_input(&toks[k]).is_none() {
            assert(field(char_views(toks@)[k as int]) is None);
            return false;
        }
        k = k + 1;
    }
    assert(forall|j: int| lo <= j < hi ==> #[trigger] char_views(toks@)[j] == toks@[j]@);
    true
}

/// The line holds at least `n` `i32` fields separated by spaces: it can be read as a
/// troll (`n` = 14) or as a stock (`n` = 6).
pub fn int_line_valid(input_line: &String, n: usize) -> (b: bool)
    ensures
        b == int_line_ok(input_line@, n as int),
{
    let cs = chars_of(input_line.as_str());
    let inputs = split_chars(&cs);
    fields_hold_ints(&inputs, 0, n)
}

/// The line can be read as a tree.
pub fn tree_line_valid(input_line: &String) -> (b: bool)
    ensures
        b == tree_line_ok(input_line@),
{
    let cs = chars_of(input_line.as_str());
    let inputs = split_chars(&cs);
    let ghost toks = split_spaces(input_line@);
    if inputs.len() < 7 {
        return false;
    }
    assert(inputs@[0]@ == toks[0]);
    let name = trimmed(&inputs[0]);
    let named = same_text(&name, "PLUM") || same_text(&name, "LEMON")
        || same_text(&name, "APPLE") || same_text(&name, "BANANA");
    named && fields_hold_ints(&inputs, 1, 7)
}

/// The `i32` of a line holding only that number, amid white space.
pub fn parse_count(input_line: &String) -> (r: Option<i32>)
    ensures
        match r {
            Some(v) => field(input_line@) == Some(v as int),
            None => field(input_line@) is None,
        },
{
    let cs = chars_of(input_line.as_str());
    crate::parse::parse_input(&cs)
}

} // verus!
