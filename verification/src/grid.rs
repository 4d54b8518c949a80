use vstd::prelude::*;
use crate::fruit::{Fruit, Tree};
use crate::troll::Troll;
use crate::util::{dist, dist_ok, manhattan_dist, is_first_min, none_kept, first_min_index};

verus! {

/// What can stand on a tile.
#[derive(Clone, Copy, Debug)]
pub enum Entity {
    Tree(Tree),
    Troll(Troll),
    EnemyTroll(Troll),
}

/// The entity a troll makes: one of ours where it belongs to player 0.
pub open spec fn troll_entity(troll: Troll) -> Entity {
    if troll.player == 0 { Entity::Troll(troll) } else { Entity::EnemyTroll(troll) }
}

impl Entity {
    pub fn from_troll(troll: Troll) -> (e: Entity)
        ensures
            e == troll_entity(troll),
    {
        if troll.player == 0 {
            return Entity::Troll(troll);
        }
        Entity::EnemyTroll(troll)
    }

    pub fn from_tree(tree: Tree) -> (e: Entity)
        ensures
            e == Entity::Tree(tree),
    {
        Entity::Tree(tree)
    }
}

/// A tile of the board; grass and the shacks hold entities.
#[derive(Clone, Debug)]
pub enum Tile {
    Grass(Vec<Entity>),
    Shack(Vec<Entity>),
    EnemyShack(Vec<Entity>),
    Water,
    Rock,
    Iron,
}

/// The kinds of tiles, without what stands on them.
#[derive(Clone, Copy, PartialEq, Eq, Structural, Debug)]
pub enum TileKind {
    Grass,
    Shack,
    EnemyShack,
    Water,
    Rock,
    Iron,
}

/// `c` is a character of the board's map.
pub open spec fn is_tile_char(c: char) -> bool {
    c == '.' || c == '0' || c == '1' || c == '~' || c == '#' || c == '+'
}

/// The kind of tile a map character stands for.
pub open spec fn kind_of_char(c: char) -> TileKind {
    if c == '.' {
        TileKind::Grass
    } else if c == '0' {
        TileKind::Shack
    } else if c == '1' {
        TileKind::EnemyShack
    } else if c == '~' {
        TileKind::Water
    } else if c == '#' {
        TileKind::Rock
    } else {
        TileKind::Iron
    }
}

/// The first tree among `es` from index `k` on.
pub open spec fn first_tree_from(es: Seq<Entity>, k: int) -> Option<Tree>
    decreases es.len() - k,
{
    if k >= es.len() {
        None
    } else if es[k] is Tree {
        Some(es[k]->Tree_0)
    } else {
        first_tree_from(es, k + 1)
    }
}

/// The entity is one of our trolls (of player 0).
pub open spec fn is_own_troll(e: Entity) -> bool {
    match e {
        Entity::Troll(t) => t.player == 0,
        _ => false,
    }
}

/// One of our trolls is among `es`.
pub open spec fn has_own_troll(es: Seq<Entity>) -> bool {
    exists|k: int| 0 <= k < es.len() && is_own_troll(#[trigger] es[k])
}

/// A tree is among `es`.
pub open spec fn has_tree(es: Seq<Entity>) -> bool {
    exists|k: int| 0 <= k < es.len() && #[trigger] es[k] is Tree
}

impl Tile {
    /// The kind of the tile.
    pub open spec fn kind(&self) -> TileKind {
        match self {
            Tile::Grass(_) => TileKind::Grass,
            Tile::Shack(_) => TileKind::Shack,
            Tile::EnemyShack(_) => TileKind::EnemyShack,
            Tile::Water => TileKind::Water,
            Tile::Rock => TileKind::Rock,
            Tile::Iron => TileKind::Iron,
        }
    }

    /// What stands on the tile.
    pub open spec fn ents(&self) -> Seq<Entity> {
        match self {
            Tile::Grass(v) => v@,
            Tile::Shack(v) => v@,
            Tile::EnemyShack(v) => v@,
            _ => Seq::empty(),
        }
    }

    /// Entities can stand on the tile.
    pub open spec fn holds_entities(&self) -> bool {
        self is Grass || self is Shack || self is EnemyShack
    }

    /// The first tree on a grass tile.
    pub open spec fn tree_on(&self) -> Option<Tree> {
        if self is Grass { first_tree_from(self.ents(), 0) } else { None }
    }

    /// A tree stands on the tile.
    pub open spec fn spec_is_a_tree(&self) -> bool {
        self is Grass && has_tree(self.ents())
    }

    /// A tree can be planted on the tile: it is grass without a tree.
    pub open spec fn plantable(&self) -> bool {
        self is Grass && !has_tree(self.ents())
    }

    /// Our trolls can walk on the tile: it is grass without one of ours on it.
    pub open spec fn walkable(&self) -> bool {
        self is Grass && !has_own_troll(self.ents())
    }

    /// An empty tile for a map character.
    pub fn from_char(c: char) -> (t: Tile)
        requires
            is_tile_char(c),
        ensures
            t.kind() == kind_of_char(c),
            t.ents() == Seq::<Entity>::empty(),
    {
        if c == '.' {
            Tile::Grass(Vec::new())
        } else if c == '0' {
            Tile::Shack(Vec::new())
        } else if c == '1' {
            Tile::EnemyShack(Vec::new())
        } else if c == '~' {
            Tile::Water
        } else if c == '#' {
            Tile::Rock
        } else {
            Tile::Iron
        }
    }

    /// Puts an entity on the tile.
    pub fn push(&mut self, e: Entity)
        requires
            old(self).holds_entities(),
        ensures
            final(self).kind() == old(self).kind(),
            final(self).ents() == old(self).ents().push(e),
    {
        match self {
            Tile::EnemyShack(v) => v.push(e),
            Tile::Shack(v) => v.push(e),
            Tile::Grass(v) => v.push(e),
            _ => {},
        }
    }

    /// A copy of the tile and of what stands on it.
    pub fn duplicate(&self) -> (t: Tile)
        ensures
            t.kind() == self.kind(),
            t.ents() == self.ents(),
    {
        match self {
            Tile::Grass(v) => Tile::Grass(copy_entities(v)),
            Tile::Shack(v) => Tile::Shack(copy_entities(v)),
            Tile::EnemyShack(v) => Tile::EnemyShack(copy_entities(v)),
            Tile::Water => Tile::Water,
            Tile::Rock => Tile::Rock,
            Tile::Iron => Tile::Iron,
        }
    }

    /// The first tree on a grass tile.
    pub fn get_tree(&self) -> (r: Option<&Tree>)
        ensures
            match r {
                Some(t) => self.tree_on() == Some(*t),
                None => self.tree_on() is None,
            },
    {
        match self {
            Tile::Grass(entities) => {
                let mut k: usize = 0;
                while k < entities.len()
                    invariant
                        k <= entities@.len(),
                        *self == Tile::Grass(*entities),
                        first_tree_from(entities@, 0) == first_tree_from(entities@, k as int),
                    decreases entities@.len() - k,
                {
                    let e = &entities[k];
                    match e {
                        Entity::Tree(tree) => {
                            assert(entities@[k as int] == Entity::Tree(*tree));
                            return Some(tree);
                        },
                        _ => {},
                    }
                    k = k + 1;
                }
                None
            },
            _ => None,
        }
    }

    /// A tree stands on the tile.
    pub fn is_a_tree(&self) -> (b: bool)
        ensures
            b == self.spec_is_a_tree(),
    {
        match self {
            Tile::Grass(entities) => {
                let mut k: usize = 0;
                while k < entities.len()
                    invariant
                        k <= entities@.len(),
                        *self == Tile::Grass(*entities),
                        forall|j: int| 0 <= j < k ==> !(#[trigger] entities@[j] is Tree),
                    decreases entities@.len() - k,
                {
                    match &entities[k] {
                        Entity::Tree(..) => {
                            assert(entities@[k as int] is Tree);
                            return true;
                        },
                        _ => {},
                    }
                    k = k + 1;
                }
                false
            },
            _ => false,
        }
    }

    /// A tree can be planted on the tile.
    pub fn can_be_planted(&self) -> (b: bool)
        ensures
            b == self.plantable(),
    {
        match self {
            Tile::Grass(_) => {
                let r = self.get_tree();
                proof {
                    lemma_first_tree_some(self.ents(), 0);
                }
                match r {
                    None => true,
                    _ => false,
                }
            },
            _ => false,
        }
    }

    /// Our trolls can walk on the tile.
    pub fn can_walk_through(&self) -> (b: bool)
        ensures
            b == self.walkable(),
    {
        match self {
            Tile::Grass(entities) => {
                let mut k: usize = 0;
                while k < entities.len()
                    invariant
                        k <= entities@.len(),
                        *self == Tile::Grass(*entities),
                        forall|j: int| 0 <= j < k ==> !is_own_troll(#[trigger] entities@[j]),
                    decreases entities@.len() - k,
                {
                    match &entities[k] {
                        Entity::Troll(troll) => {
                            if troll.player == 0 {
                                assert(is_own_troll(entities@[k as int]));
                                return false;
                            }
                        },
                        _ => {},
                    }
                    k = k + 1;
                }
                true
            },
            _ => false,
        }
    }
}

/// The first tree from `k` on exists exactly where a tree stands from `k` on.
pub proof fn lemma_first_tree_some(es: Seq<Entity>, k: int)
    requires
        0 <= k <= es.len(),
    ensures
        first_tree_from(es, k) is Some <==> exists|j: int| k <= j < es.len() && #[trigger] es[j] is Tree,
    decreases es.len() - k,
{
    if k < es.len() {
        lemma_first_tree_some(es, k + 1);
        if !(es[k] is Tree) {
            assert forall|j: int| k <= j < es.len() && #[trigger] es[j] is Tree implies k + 1 <= j by {}
        }
    }
}

fn copy_entities(v: &Vec<Entity>) -> (r: Vec<Entity>)
    ensures
        r@ == v@,
{
    let mut r: Vec<Entity> = Vec::new();
    let mut k: usize = 0;
    while k < v.len()
        invariant
            k <= v@.len(),
            r@ == v@.take(k as int),
        decreases v@.len() - k,
    {
        r.push(v[k]);
        assert(v@.take(k + 1) == v@.take(k as int).push(v@[k as int]));
        k = k + 1;
    }
    assert(v@.take(v@.len() as int) == v@);
    r
}

} // verus!
