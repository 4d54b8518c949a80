use vstd::prelude::*;
use crate::consts::{PLUM, LEMON, APPLE, BANANA, PLANT_PLUM, PLANT_LEMON, PLANT_APPLE, PLANT_BANANA, CHOP_PLUM, CHOP_LEMON, CHOP_APPLE, CHOP_BANANA, BANANA_TRICKS};

verus! {

/// The four kinds of fruit trees.
#[derive(Clone, Copy, PartialEq, Eq, Structural, Debug)]
pub enum Fruit {
    Plum,
    Lemon,
    Apple,
    Banana,
}

/// The name the game uses for a fruit.
pub open spec fn fruit_name(f: Fruit) -> Seq<char> {
    match f {
        Fruit::Plum => "PLUM"@,
        Fruit::Lemon => "LEMON"@,
        Fruit::Apple => "APPLE"@,
        Fruit::Banana => "BANANA"@,
    }
}

/// `s` is the name of a fruit.
pub open spec fn is_fruit_name(s: Seq<char>) -> bool {
    s == "PLUM"@ || s == "LEMON"@ || s == "APPLE"@ || s == "BANANA"@
}

/// The item index of a fruit.
pub open spec fn fruit_index(f: Fruit) -> usize {
    match f {
        Fruit::Plum => PLUM,
        Fruit::Lemon => LEMON,
        Fruit::Apple => APPLE,
        Fruit::Banana => BANANA,
    }
}

/// `n` is an index or an objective that names a fruit.
pub open spec fn names_fruit(n: usize) -> bool {
    n == PLUM || n == PLANT_PLUM || n == CHOP_PLUM
    || n == LEMON || n == PLANT_LEMON || n == CHOP_LEMON
    || n == APPLE || n == PLANT_APPLE || n == CHOP_APPLE
    || n == BANANA || n == PLANT_BANANA || n == CHOP_BANANA || n == BANANA_TRICKS
}

/// The fruit that an index or objective names (meant for `names_fruit(n)`).
pub open spec fn fruit_of(n: usize) -> Fruit {
    if n == PLUM || n == PLANT_PLUM || n == CHOP_PLUM {
        Fruit::Plum
    } else if n == LEMON || n == PLANT_LEMON || n == CHOP_LEMON {
        Fruit::Lemon
    } else if n == APPLE || n == PLANT_APPLE || n == CHOP_APPLE {
        Fruit::Apple
    } else {
        Fruit::Banana
    }
}

impl Fruit {
    /// The fruit with the given name.
    pub fn from(fruit_as_string: &String) -> (f: Fruit)
        requires
            is_fruit_name(fruit_as_string@),
        ensures
            fruit_name(f) == fruit_as_string@,
    {
        if fruit_as_string.eq(&String::from_str("PLUM")) {
            Fruit::Plum
        } else if fruit_as_string.eq(&String::from_str("LEMON")) {
            Fruit::Lemon
        } else if fruit_as_string.eq(&String::from_str("APPLE")) {
            Fruit::Apple
        } else {
            Fruit::Banana
        }
    }

    /// The fruit that an item index or an objective names.
    pub fn from_usize(fruit_as_usize: usize) -> (f: Fruit)
        requires
            names_fruit(fruit_as_usize),
        ensures
            f == fruit_of(fruit_as_usize),
    {
        let n = fruit_as_usize;
        if n == PLUM || n == PLANT_PLUM || n == CHOP_PLUM {
            Fruit::Plum
        } else if n == LEMON || n == PLANT_LEMON || n == CHOP_LEMON {
            Fruit::Lemon
        } else if n == APPLE || n == PLANT_APPLE || n == CHOP_APPLE {
            Fruit::Apple
        } else {
            Fruit::Banana
        }
    }

    /// The item index of the fruit.
    pub fn to_usize(&self) -> (n: usize)
        ensures
            n == fruit_index(*self),
    {
        match self {
            Fruit::Plum => 0,
            Fruit::Lemon => 1,
            Fruit::Apple => 2,
            Fruit::Banana => 3,
        }
    }

    /// The name of the fruit, as the game writes it.
    pub fn to_string(&self) -> (s: String)
        ensures
            s@ == fruit_name(*self),
    {
        match self {
            Fruit::Plum => String::from_str("PLUM"),
            Fruit::Lemon => String::from_str("LEMON"),
            Fruit::Apple => String::from_str("APPLE"),
            Fruit::Banana => String::from_str("BANANA"),
        }
    }
}

/// A fruit tree on the board.
#[derive(Clone, Copy, PartialEq, Eq, Structural, Debug)]
pub struct Tree {
    pub fruit: Fruit,
    pub nb_fruit: i32,
    pub x: i32,
    pub y: i32,
    pub size: i32,
    pub health: i32,
    pub cooldown: i32,
}

impl Tree {
    pub fn new(fruit: Fruit, nb_fruit: i32, x: i32, y: i32, size: i32, health: i32, cooldown: i32) -> (t: Tree)
        ensures
            t == (Tree { fruit, nb_fruit, x, y, size, health, cooldown }),
    {
        Tree { fruit, nb_fruit, x, y, size, health, cooldown }
    }

    /// The position of the tree.
    pub open spec fn pos(self) -> (i32, i32) {
        (self.x, self.y)
    }
}

} // verus!
