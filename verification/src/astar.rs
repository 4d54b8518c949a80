use vstd::prelude::*;
use crate::util::{abs, dist, dist_ok, manhattan_dist};

verus! {

/// A node of the search: a position, the number of moves to reach it, that number plus the
/// distance left to the goal, its place among the nodes created, and the node it was reached from.
#[derive(Clone, Copy, Debug)]
pub struct Node {
    pub pos: (i32, i32),
    pub cost: i32,
    pub value: i32,
    pub index: usize,
    pub parent: Option<usize>,
}

/// `b` is one move of at most `speed` away from `a`.
pub open spec fn step(a: (i32, i32), b: (i32, i32), speed: i32) -> bool {
    1 <= dist(a, b) <= speed
}

/// `path` leads back from its first position, one move at a time, to a position one move
/// away from `from`: read backwards, it is a way from `from`.
pub open spec fn route(path: Seq<(i32, i32)>, from: (i32, i32), speed: i32) -> bool {
    &&& path.len() > 0
    &&& forall|k: int| 0 <= k < path.len() - 1 ==> step(#[trigger] path[k], path[k + 1], speed)
    &&& step(path.last(), from, speed)
}

/// The positions from node `i` back to the first node, that one left out.
pub open spec fn chain(ram: Seq<Node>, i: int) -> Seq<(i32, i32)>
    decreases i,
{
    if i < 0 || i >= ram.len() {
        Seq::empty()
    } else {
        match ram[i].parent {
            Some(p) => if p < i { seq![ram[i].pos] + chain(ram, p as int) } else { Seq::empty() },
            None => Seq::empty(),
        }
    }
}

/// The positions from `node` back to the first node, that one left out.
pub open spec fn path_of(ram: Seq<Node>, node: Node) -> Seq<(i32, i32)> {
    match node.parent {
        Some(p) => seq![node.pos] + chain(ram, p as int),
        None => Seq::empty(),
    }
}

/// Each node's parent was created before it.
pub open spec fn links_ok(ram: Seq<Node>) -> bool {
    forall|i: int| 0 <= i < ram.len() ==> ((#[trigger] ram[i]).parent matches Some(p) ==> p < i)
}

/// The nodes created by the search from `from`: the first is at `from`, every other one move
/// away from its parent, created before it, and not at `from`; each knows its place and has a
/// cost that is not negative.
pub open spec fn ram_ok(ram: Seq<Node>, from: (i32, i32), speed: i32) -> bool {
    &&& ram.len() > 0
    &&& ram[0].pos == from
    &&& ram[0].parent is None
    &&& forall|i: int| 0 <= i < ram.len() ==> (#[trigger] ram[i]).index == i && ram[i].cost >= 0
    &&& forall|i: int| 0 < i < ram.len() ==> ((#[trigger] ram[i]).parent matches Some(p)
        && p < i && step(ram[i].pos, ram[p as int].pos, speed)) && ram[i].pos != from
}

/// Every node of `v` is the node created at its place.
pub open spec fn stored(ram: Seq<Node>, v: Seq<Node>) -> bool {
    forall|k: int| 0 <= k < v.len() ==> (#[trigger] v[k]).index < ram.len() && ram[v[k].index as int] == v[k]
}

/// The positions at distance `d` from `pos` found for the `x` offsets below `n`.
pub open spec fn ring_part(pos: (i32, i32), d: int, xd: int) -> Seq<(i32, i32)> {
    let yd = d - xd;
    seq![((pos.0 - xd) as i32, (pos.1 - yd) as i32), ((pos.0 + xd) as i32, (pos.1 + yd) as i32)]
        + if yd != 0 && xd != 0 {
            seq![((pos.0 - xd) as i32, (pos.1 + yd) as i32), ((pos.0 + xd) as i32, (pos.1 - yd) as i32)]
        } else {
            Seq::empty()
        }
}

/// The positions at distance `d` from `pos` for the `x` offsets below `n`.
pub open spec fn ring_upto(pos: (i32, i32), d: int, n: int) -> Seq<(i32, i32)>
    decreases n,
{
    if n <= 0 {
        Seq::empty()
    } else {
        ring_upto(pos, d, n - 1) + ring_part(pos, d, n - 1)
    }
}

/// The positions at distance `d` from `pos`, by increasing `x` offset.
pub open spec fn ring(pos: (i32, i32), d: int) -> Seq<(i32, i32)> {
    ring_upto(pos, d, d + 1)
}

/// The positions at distance 1 to `k` from `pos`, nearest first.
pub open spec fn neigh(pos: (i32, i32), k: int) -> Seq<(i32, i32)>
    decreases k,
{
    if k <= 0 {
        Seq::empty()
    } else {
        neigh(pos, k - 1) + ring(pos, k)
    }
}

/// The coordinates of `pos`, moved by up to `d` either way, stay in `i32`.
pub open spec fn reach_ok(pos: (i32, i32), d: int) -> bool {
    &&& i32::MIN <= pos.0 - d && pos.0 + d <= i32::MAX
    &&& i32::MIN <= pos.1 - d && pos.1 + d <= i32::MAX
}

proof fn lemma_ring_upto_dist(pos: (i32, i32), d: int, n: int)
    requires
        reach_ok(pos, d),
        0 <= n <= d + 1,
    ensures
        forall|k: int| 0 <= k < ring_upto(pos, d, n).len() ==> dist(#[trigger] ring_upto(pos, d, n)[k], pos) == d,
    decreases n,
{
    if n > 0 {
        lemma_ring_upto_dist(pos, d, n - 1);
        let a = ring_upto(pos, d, n - 1);
        let b = ring_part(pos, d, n - 1);
        assert forall|k: int| 0 <= k < (a + b).len() implies dist(#[trigger] (a + b)[k], pos) == d by {
            if k >= a.len() {
                assert((a + b)[k] == b[k - a.len()]);
            }
        }
    }
}

/// The positions of `ring_part(pos, d, xd)` lie `xd` away along `x` and are told apart.
proof fn lemma_ring_part_facts(pos: (i32, i32), d: int, xd: int)
    requires
        reach_ok(pos, d),
        1 <= d,
        0 <= xd <= d,
    ensures
        ring_part(pos, d, xd).len() == (if xd == 0 || xd == d { 2int } else { 4int }),
        ring_part(pos, d, xd).no_duplicates(),
        forall|k: int| 0 <= k < ring_part(pos, d, xd).len() ==> abs(#[trigger] ring_part(pos, d, xd)[k].0 - pos.0) == xd,
{
}

/// `ring_upto(pos, d, n)` holds `4n - 2` positions, all told apart, each less than `n` away
/// along `x`; the whole ring holds `4d`.
proof fn lemma_ring_upto_facts(pos: (i32, i32), d: int, n: int)
    requires
        reach_ok(pos, d),
        1 <= d,
        0 <= n <= d + 1,
    ensures
        ring_upto(pos, d, n).len() == (if n == 0 { 0 } else if n <= d { 4 * n - 2 } else { 4 * d }),
        ring_upto(pos, d, n).no_duplicates(),
        forall|k: int| 0 <= k < ring_upto(pos, d, n).len() ==> abs(#[trigger] ring_upto(pos, d, n)[k].0 - pos.0) < n,
    decreases n,
{
    if n > 0 {
        lemma_ring_upto_facts(pos, d, n - 1);
        lemma_ring_part_facts(pos, d, n - 1);
        let a = ring_upto(pos, d, n - 1);
        let b = ring_part(pos, d, n - 1);
        assert(ring_upto(pos, d, n) == a + b);
        assert forall|k: int| 0 <= k < (a + b).len() implies abs(#[trigger] (a + b)[k].0 - pos.0) < n by {
            if k >= a.len() {
                assert((a + b)[k] == b[k - a.len()]);
            } else {
                assert((a + b)[k] == a[k]);
            }
        }
        assert forall|i: int, j: int| 0 <= i < (a + b).len() && 0 <= j < (a + b).len() && i != j
            implies (a + b)[i] != (a + b)[j] by {
            if i < a.len() && j < a.len() {
                assert((a + b)[i] == a[i] && (a + b)[j] == a[j]);
            } else if i >= a.len() && j >= a.len() {
                assert((a + b)[i] == b[i - a.len()] && (a + b)[j] == b[j - a.len()]);
            } else if i < a.len() {
                assert((a + b)[i] == a[i] && (a + b)[j] == b[j - a.len()]);
                assert(abs(a[i].0 - pos.0) < n - 1);
                assert(abs(b[j - a.len()].0 - pos.0) == n - 1);
            } else {
                assert((a + b)[j] == a[j] && (a + b)[i] == b[i - a.len()]);
                assert(abs(a[j].0 - pos.0) < n - 1);
                assert(abs(b[i - a.len()].0 - pos.0) == n - 1);
            }
        }
    }
}

/// `neigh(pos, k)` holds `2k(k + 1)` positions, none twice, nearest first.
pub proof fn lemma_neigh_facts(pos: (i32, i32), k: int)
    requires
        k >= 0,
        k >= 1 ==> reach_ok(pos, k),
    ensures
        neigh(pos, k).len() == 2 * k * (k + 1),
        neigh(pos, k).no_duplicates(),
        forall|i: int, j: int| 0 <= i <= j < neigh(pos, k).len()
            ==> dist(#[trigger] neigh(pos, k)[i], pos) <= dist(#[trigger] neigh(pos, k)[j], pos),
    decreases k,
{
    if k == 0 {
        assert(2 * k * (k + 1) == 0);
    } else {
        lemma_neigh_facts(pos, k - 1);
        lemma_neigh_steps(pos, k - 1);
        lemma_ring_upto_facts(pos, k, k + 1);
        lemma_ring_upto_dist(pos, k, k + 1);
        let a = neigh(pos, k - 1);
        let b = ring(pos, k);
        assert(b == ring_upto(pos, k, k + 1));
        assert(b.len() == 4 * k);
        assert(neigh(pos, k) == a + b);
        assert(2 * (k - 1) * ((k - 1) + 1) + 4 * k == 2 * k * (k + 1)) by (nonlinear_arith);
        assert((a + b).len() == a.len() + b.len());
        assert forall|i: int| 0 <= i < (a + b).len() implies (i < a.len() ==> dist(#[trigger] (a + b)[i], pos) <= k - 1)
            && (i >= a.len() ==> dist((a + b)[i], pos) == k) by {
            if i < a.len() {
                assert((a + b)[i] == a[i]);
            } else {
                assert((a + b)[i] == b[i - a.len()]);
            }
        }
        assert forall|i: int, j: int| 0 <= i < (a + b).len() && 0 <= j < (a + b).len() && i != j
            implies (a + b)[i] != (a + b)[j] by {
            if i < a.len() && j < a.len() {
                assert((a + b)[i] == a[i] && (a + b)[j] == a[j]);
            } else if i >= a.len() && j >= a.len() {
                assert((a + b)[i] == b[i - a.len()] && (a + b)[j] == b[j - a.len()]);
            }
        }
    }
}

/// Every position of `neigh(pos, k)` is one move of at most `k` away from `pos`.
pub proof fn lemma_neigh_steps(pos: (i32, i32), k: int)
    requires
        k >= 1 ==> reach_ok(pos, k),
    ensures
        forall|j: int| 0 <= j < neigh(pos, k).len() ==> 1 <= dist(#[trigger] neigh(pos, k)[j], pos) <= k,
    decreases k,
{
    if k > 0 {
        lemma_neigh_steps(pos, k - 1);
        lemma_ring_upto_dist(pos, k, k + 1);
        let a = neigh(pos, k - 1);
        let b = ring(pos, k);
        assert forall|j: int| 0 <= j < (a + b).len() implies 1 <= dist(#[trigger] (a + b)[j], pos) <= k by {
            if j >= a.len() {
                assert((a + b)[j] == b[j - a.len()]);
            }
        }
    }
}

/// The positions at distance `dist` from `pos`, by increasing `x` offset; for each offset the
/// two corners, then, off the axes, the two others.
pub fn get_pos_at_dist(pos: (i32, i32), dist: i32) -> (r: Vec<(i32, i32)>)
    requires
        dist >= 0 ==> reach_ok(pos, dist as int),
    ensures
        r@ == ring(pos, dist as int),
{
    let mut acc: Vec<(i32, i32)> = Vec::new();
    if dist < 0 {
        return acc;
    }
    let mut x: i64 = 0;
    while x <= dist as i64
        invariant
            0 <= dist,
            reach_ok(pos, dist as int),
            0 <= x <= dist + 1,
            acc@ == ring_upto(pos, dist as int, x as int),
        decreases dist + 1 - x,
    {
        let x_dist = x as i32;
        let y_dist = dist - x_dist;
        acc.push((pos.0 - x_dist, pos.1 - y_dist));
        acc.push((pos.0 + x_dist, pos.1 + y_dist));
        if y_dist != 0 && x_dist != 0 {
            acc.push((pos.0 - x_dist, pos.1 + y_dist));
            acc.push((pos.0 + x_dist, pos.1 - y_dist));
        }
        assert(acc@ =~= ring_upto(pos, dist as int, x + 1));
        x = x + 1;
    }
    acc
}

/// The positions one move of at most `speed` away from `pos`, nearest first.
pub fn get_neigh(pos: (i32, i32), speed: i32) -> (r: Vec<(i32, i32)>)
    requires
        speed >= 1 ==> reach_ok(pos, speed as int),
    ensures
        r@ == neigh(pos, speed as int),
        forall|j: int| 0 <= j < r@.len() ==> 1 <= dist(#[trigger] r@[j], pos) <= speed,
{
    proof {
        lemma_neigh_steps(pos, speed as int);
    }
    let mut acc: Vec<(i32, i32)> = Vec::new();
    if speed < 1 {
        return acc;
    }
    let mut k: i64 = 1;
    while k <= speed as i64
        invariant
            1 <= speed,
            reach_ok(pos, speed as int),
            1 <= k <= speed + 1,
            acc@ == neigh(pos, k - 1),
        decreases speed + 1 - k,
    {
        let d = k as i32;
        let mut ring_d = get_pos_at_dist(pos, d);
        acc.append(&mut ring_d);
        k = k + 1;
    }
    acc
}

impl Node {
    /// The first node of a search towards `to`.
    pub fn new(pos: (i32, i32), to: (i32, i32), index: usize) -> (n: Node)
        requires
            dist_ok(pos, to),
        ensures
            n == (Node { pos, cost: 0, value: dist(pos, to) as i32, index, parent: None }),
    {
        Node { pos, cost: 0, value: manhattan_dist(pos, to), index, parent: None }
    }

    /// A node reached in one more move from the node at `parent_idx`.
    pub fn from(parent_idx: usize, parent_cost: i32, pos: (i32, i32), to: (i32, i32), index: usize) -> (n: Node)
        requires
            dist_ok(pos, to),
            parent_cost + 1 + dist(pos, to) <= i32::MAX,
        ensures
            n == (Node {
                pos,
                cost: (parent_cost + 1) as i32,
                value: (parent_cost + 1 + dist(pos, to)) as i32,
                index,
                parent: Some(parent_idx),
            }),
    {
        let cost = parent_cost + 1;
        Node { pos, cost: cost, value: cost + manhattan_dist(pos, to), index, parent: Some(parent_idx) }
    }

    /// The positions from this node back to the first one, that one left out.
    pub fn collect(&self, ram: &Vec<Node>) -> (r: Vec<(i32, i32)>)
        requires
            links_ok(ram@),
            self.parent matches Some(p) ==> p < ram@.len(),
        ensures
            r@ == path_of(ram@, *self),
    {
        let mut res: Vec<(i32, i32)> = Vec::new();
        let mut cur = *self;
        proof {
            if let Some(p) = self.parent {
                assert(path_of(ram@, *self) == seq![self.pos] + chain(ram@, p as int));
            }
        }
        while cur.parent.is_some()
            invariant
                links_ok(ram@),
                cur.parent matches Some(p) ==> p < ram@.len(),
                path_of(ram@, *self) == res@ + path_of(ram@, cur),
            decreases match cur.parent { Some(p) => p as int + 1, None => 0 },
        {
            let p = cur.parent.unwrap();
            let next = ram[p];
            proof {
                assert(ram@[p as int] == next);
                assert(next.parent matches Some(q) ==> (q < p));
                assert(path_of(ram@, cur) == seq![cur.pos] + chain(ram@, p as int));
                assert(chain(ram@, p as int) == path_of(ram@, next));
            }
            res.push(cur.pos);
            assert(path_of(ram@, *self) == res@ + path_of(ram@, next));
            cur = next;
        }
        assert(path_of(ram@, cur) == Seq::<(i32, i32)>::empty());
        assert(res@ + Seq::<(i32, i32)>::empty() == res@);
        res
    }
}

/// The chain from a node that is not the first leads, step by step, back next to `from`.
pub proof fn lemma_chain_route(ram: Seq<Node>, from: (i32, i32), speed: i32, i: int)
    requires
        ram_ok(ram, from, speed),
        0 < i < ram.len(),
    ensures
        route(chain(ram, i), from, speed),
        chain(ram, i)[0] == ram[i].pos,
    decreases i,
{
    let p = ram[i].parent->0 as int;
    assert(ram[i].parent matches Some(q) && q < i && step(ram[i].pos, ram[q as int].pos, speed));
    let c = chain(ram, i);
    assert(c == seq![ram[i].pos] + chain(ram, p));
    if p == 0 {
        assert(ram[0].parent is None);
        assert(chain(ram, 0) =~= Seq::<(i32, i32)>::empty());
        assert(c =~= seq![ram[i].pos]);
    } else {
        lemma_chain_route(ram, from, speed, p);
        let rest = chain(ram, p);
        assert forall|k: int| 0 <= k < c.len() - 1 implies step(#[trigger] c[k], c[k + 1], speed) by {
            if k > 0 {
                assert(c[k] == rest[k - 1]);
                assert(c[k + 1] == rest[k]);
            } else {
                assert(c[1] == rest[0]);
            }
        }
        assert(c.last() == rest.last());
    }
}

/// The distance between two positions, where it can be computed in `i32`.
fn dist_checked(a: (i32, i32), b: (i32, i32)) -> (r: Option<i32>)
    ensures
        r is Some <==> dist_ok(a, b),
        r matches Some(d) ==> d == dist(a, b),
{
    let dx: i64 = a.0 as i64 - b.0 as i64;
    let dy: i64 = a.1 as i64 - b.1 as i64;
    if dx <= i32::MIN as i64 || dx > i32::MAX as i64 || dy <= i32::MIN as i64 || dy > i32::MAX as i64 {
        return None;
    }
    let ax: i64 = if dx < 0 { -dx } else { dx };
    let ay: i64 = if dy < 0 { -dy } else { dy };
    if ax + ay > i32::MAX as i64 {
        return None;
    }
    Some(manhattan_dist(a, b))
}

/// The coordinates of `pos`, moved by up to `d` either way, stay in `i32`.
fn reach_checked(pos: (i32, i32), d: i32) -> (b: bool)
    ensures
        b == reach_ok(pos, d as int),
{
    let d64 = d as i64;
    pos.0 as i64 - d64 >= i32::MIN as i64 && pos.0 as i64 + d64 <= i32::MAX as i64
        && pos.1 as i64 - d64 >= i32::MIN as i64 && pos.1 as i64 + d64 <= i32::MAX as i64
}

/// Takes out of `open` its first node of least value.
fn pop_best(open: &mut Vec<Node>) -> (n: Node)
    requires
        old(open)@.len() > 0,
    ensures
        exists|i: int| 0 <= i < old(open)@.len() && n == old(open)@[i] && final(open)@ == old(open)@.remove(i)
            && forall|k: int| 0 <= k < old(open)@.len() ==> n.value <= (#[trigger] old(open)@[k]).value,
{
    let mut best: usize = 0;
    let mut k: usize = 1;
    while k < open.len()
        invariant
            open@ == old(open)@,
            0 <= best < open@.len(),
            1 <= k <= open@.len(),
            forall|j: int| 0 <= j < k ==> open@[best as int].value <= (#[trigger] open@[j]).value,
        decreases open@.len() - k,
    {
        if open[k].value < open[best].value {
            best = k;
        }
        k = k + 1;
    }
    open.remove(best)
}

/// The index of the first node of `v` at `pos`, from index `k` on.
pub open spec fn find_pos_from(v: Seq<Node>, pos: (i32, i32), k: int) -> Option<int>
    decreases v.len() - k,
{
    if k < 0 || k >= v.len() {
        None
    } else if v[k].pos == pos {
        Some(k)
    } else {
        find_pos_from(v, pos, k + 1)
    }
}

/// The index of the first node of `v` at `pos`.
pub open spec fn find_pos(v: Seq<Node>, pos: (i32, i32)) -> Option<int> {
    find_pos_from(v, pos, 0)
}

proof fn lemma_find_pos_from(v: Seq<Node>, pos: (i32, i32), k: int)
    requires
        0 <= k,
    ensures
        find_pos_from(v, pos, k) matches Some(i) ==> k <= i < v.len() && v[i].pos == pos,
    decreases v.len() - k,
{
    if k < v.len() && v[k].pos != pos {
        lemma_find_pos_from(v, pos, k + 1);
    }
}

fn find_in(v: &Vec<Node>, pos: (i32, i32)) -> (r: Option<usize>)
    ensures
        match r {
            Some(i) => find_pos(v@, pos) == Some(i as int) && i < v@.len() && v@[i as int].pos == pos,
            None => find_pos(v@, pos) is None,
        },
        find_pos(v@, pos) matches Some(i) ==> 0 <= i < v@.len(),
{
    proof {
        lemma_find_pos_from(v@, pos, 0);
    }
    let mut k: usize = 0;
    while k < v.len()
        invariant
            k <= v@.len(),
            find_pos(v@, pos) == find_pos_from(v@, pos, k as int),
        decreases v@.len() - k,
    {
        if v[k].pos.0 == pos.0 && v[k].pos.1 == pos.1 {
            return Some(k);
        }
        k = k + 1;
    }
    None
}

/// The node is worth exploring: no closed node stands where it does, or the first one that
/// does has a greater value.
pub open spec fn worth(close: Seq<Node>, node: Node) -> bool {
    match find_pos(close, node.pos) {
        None => true,
        Some(i) => close[i].value > node.value,
    }
}

/// Records a new node and opens it where it is worth exploring, taking a worse closed node at
/// its place out of the closed ones.
pub fn check_in_close(node_to_check: Node, close: &mut Vec<Node>, open: &mut Vec<Node>, ram_of_nodes: &mut Vec<Node>)
    ensures
        worth(old(close)@, node_to_check) ==> {
            &&& final(ram_of_nodes)@ == old(ram_of_nodes)@.push(node_to_check)
            &&& final(open)@ == old(open)@.push(node_to_check)
            &&& final(close)@ == match find_pos(old(close)@, node_to_check.pos) {
                None => old(close)@,
                Some(i) => old(close)@.remove(i),
            }
        },
        !worth(old(close)@, node_to_check) ==> {
            &&& final(ram_of_nodes)@ == old(ram_of_nodes)@
            &&& final(open)@ == old(open)@
            &&& final(close)@ == old(close)@
        },
{
    match find_in(close, node_to_check.pos) {
        None => {
            ram_of_nodes.push(node_to_check);
            open.push(node_to_check);
        },
        Some(i) => {
            if close[i].value > node_to_check.value {
                ram_of_nodes.push(node_to_check);
                open.push(node_to_check);
                close.remove(i);
            }
        },
    }
}

/// Closes a node, unless a closed node already stands where it does.
fn close_insert(close: &mut Vec<Node>, node: Node)
    ensures
        final(close)@ == if find_pos(old(close)@, node.pos) is None { old(close)@.push(node) } else { old(close)@ },
{
    if find_in(close, node.pos).is_none() {
        close.push(node);
    }
}

/// Recording a node reached in one move from a stored node keeps the record of the search whole,
/// and every open and closed node stored in it.
proof fn lemma_insert_keeps_store(
    ram0: Seq<Node>,
    ram1: Seq<Node>,
    open0: Seq<Node>,
    open1: Seq<Node>,
    close0: Seq<Node>,
    close1: Seq<Node>,
    node: Node,
    current: Node,
    from: (i32, i32),
    speed: i32,
)
    requires
        ram_ok(ram0, from, speed),
        stored(ram0, open0),
        stored(ram0, close0),
        current.index < ram0.len(),
        ram0[current.index as int] == current,
        node.index == ram0.len(),
        node.parent == Some(current.index),
        node.cost >= 0,
        worth(close0, node) ==> node.pos != from,
        step(node.pos, current.pos, speed),
        worth(close0, node) ==> {
            &&& ram1 == ram0.push(node)
            &&& open1 == open0.push(node)
            &&& close1 == match find_pos(close0, node.pos) {
                None => close0,
                Some(i) => close0.remove(i),
            }
        },
        !worth(close0, node) ==> ram1 == ram0 && open1 == open0 && close1 == close0,
    ensures
        ram_ok(ram1, from, speed),
        stored(ram1, open1),
        stored(ram1, close1),
        ram1[0] == ram0[0],
        ram1[current.index as int] == current,
        ram0.len() <= ram1.len(),
{
    if worth(close0, node) {
        assert(ram1[0] == ram0[0]);
        assert(ram1[current.index as int] == ram0[current.index as int]);
        assert forall|i: int| 0 <= i < ram1.len() implies (#[trigger] ram1[i]).index == i && ram1[i].cost >= 0 by {
            if i < ram0.len() {
                assert(ram1[i] == ram0[i]);
            }
        }
        assert forall|i: int| 0 < i < ram1.len() implies ((#[trigger] ram1[i]).parent matches Some(p)
            && p < i && step(ram1[i].pos, ram1[p as int].pos, speed)) && ram1[i].pos != from by {
            if i < ram0.len() {
                assert(ram1[i] == ram0[i]);
                let p = ram0[i].parent->0;
                assert(ram1[p as int] == ram0[p as int]);
            } else {
                assert(ram1[i] == node);
                assert(ram1[current.index as int] == current);
            }
        }
        assert forall|j: int| 0 <= j < open1.len() implies (#[trigger] open1[j]).index < ram1.len()
            && ram1[open1[j].index as int] == open1[j] by {
            if j < open0.len() {
                assert(open1[j] == open0[j]);
                assert(ram1[open0[j].index as int] == ram0[open0[j].index as int]);
            }
        }
        lemma_find_pos_from(close0, node.pos, 0);
        assert forall|j: int| 0 <= j < close1.len() implies (#[trigger] close1[j]).index < ram1.len()
            && ram1[close1[j].index as int] == close1[j] by {
            match find_pos(close0, node.pos) {
                None => {
                    assert(close1[j] == close0[j]);
                },
                Some(ci) => {
                    if j < ci {
                        assert(close1[j] == close0[j]);
                    } else {
                        assert(close1[j] == close0[j + 1]);
                    }
                },
            }
        }
    }
}

/// Looking at one neighbour of the first node, before anything is closed, opens it with the
/// value of one move plus its distance to `to`, so that `to`, once looked at, stands open.
proof fn lemma_first_expand(
    ram0: Seq<Node>,
    ram1: Seq<Node>,
    open0: Seq<Node>,
    open1: Seq<Node>,
    close0: Seq<Node>,
    close1: Seq<Node>,
    node: Node,
    to: (i32, i32),
    nb: Seq<(i32, i32)>,
    k: int,
)
    requires
        close0.len() == 0,
        worth(close0, node) ==> {
            &&& ram1 == ram0.push(node)
            &&& open1 == open0.push(node)
            &&& close1 == match find_pos(close0, node.pos) {
                None => close0,
                Some(i) => close0.remove(i),
            }
        },
        0 <= k < nb.len(),
        node.pos == nb[k],
        node.value == 1 + dist(node.pos, to),
        node.parent == Some(0usize),
        forall|j: int| 0 <= j < open0.len()
            ==> (#[trigger] open0[j]).value == 1 + dist(open0[j].pos, to) && open0[j].parent == Some(0usize),
        (exists|i: int| 0 <= i < k && nb[i] == to) ==> exists|j: int| 0 <= j < open0.len() && (#[trigger] open0[j]).pos == to,
    ensures
        close1.len() == 0,
        ram1 == ram0.push(node),
        forall|j: int| 0 <= j < open1.len()
            ==> (#[trigger] open1[j]).value == 1 + dist(open1[j].pos, to) && open1[j].parent == Some(0usize),
        (exists|i: int| 0 <= i < k + 1 && nb[i] == to) ==> exists|j: int| 0 <= j < open1.len() && (#[trigger] open1[j]).pos == to,
{
    assert(find_pos(close0, node.pos) is None);
    assert(open1 == open0.push(node));
    assert forall|j: int| 0 <= j < open1.len() implies (#[trigger] open1[j]).value == 1 + dist(open1[j].pos, to)
        && open1[j].parent == Some(0usize) by {
        if j < open0.len() {
            assert(open1[j] == open0[j]);
        }
    }
    if exists|i: int| 0 <= i < k + 1 && nb[i] == to {
        if nb[k] == to {
            assert(open1[open1.len() - 1].pos == to);
        } else {
            let i = choose|i: int| 0 <= i < k + 1 && nb[i] == to;
            assert(i < k);
            let j = choose|j: int| 0 <= j < open0.len() && (#[trigger] open0[j]).pos == to;
            assert(open1[j] == open0[j]);
        }
    }
}

/// The outcome of a search from `from` to `to` with moves of at most `speed`: where a way is
/// found, the positions from `to` back to the one after `from`, none of them at `from`.
pub open spec fn found_route(r: Option<Vec<(i32, i32)>>, from: (i32, i32), to: (i32, i32), speed: i32) -> bool {
    r matches Some(p) ==> ((p@.len() == 0 && from == to)
        || (p@.len() > 0 && p@[0] == to && route(p@, from, speed) && !p@.contains(from)))
}

/// One step from `p` towards `to`: along `x` first, then along `y` (meant for `p != to`).
pub open spec fn toward(p: (i32, i32), to: (i32, i32)) -> (i32, i32) {
    if p.0 < to.0 {
        ((p.0 + 1) as i32, p.1)
    } else if p.0 > to.0 {
        ((p.0 - 1) as i32, p.1)
    } else if p.1 < to.1 {
        (p.0, (p.1 + 1) as i32)
    } else {
        (p.0, (p.1 - 1) as i32)
    }
}

/// Each node's cost is not negative, and its value is its cost plus the distance left.
pub open spec fn values_ok(ram: Seq<Node>, to: (i32, i32)) -> bool {
    forall|i: int| 0 <= i < ram.len() ==> (#[trigger] ram[i]).value == ram[i].cost + dist(ram[i].pos, to)
        && ram[i].cost >= 0
}

/// Each node's cost is at least the distance from `from`, and the way back from it takes as
/// many positions as its cost.
pub open spec fn costs_ok(ram: Seq<Node>, from: (i32, i32), to: (i32, i32)) -> bool {
    forall|i: int| 0 <= i < ram.len() ==> (#[trigger] ram[i]).cost >= dist(from, ram[i].pos)
        && chain(ram, i).len() == ram[i].cost
}

/// A node of `v` stands at `p` with a value of at most `value`.
pub open spec fn has_le(v: Seq<Node>, p: (i32, i32), value: int) -> bool {
    exists|k: int| 0 <= k < v.len() && (#[trigger] v[k]).pos == p && v[k].value <= value
}

/// Every closed node is worth at most `d` and none stands at `to`; for each of them, a node
/// worth at most `d` one step closer to `to` is open or closed.
pub open spec fn closed_ok(open: Seq<Node>, close: Seq<Node>, to: (i32, i32), d: int) -> bool {
    &&& forall|j: int| 0 <= j < close.len() ==> (#[trigger] close[j]).value <= d && close[j].pos != to
    &&& forall|j: int| 0 <= j < close.len() ==> has_le(open, toward((#[trigger] close[j]).pos, to), d)
        || has_le(close, toward(close[j].pos, to), d)
}

/// The state a search keeps from one round to the next: the values are right, the closed nodes
/// are as `closed_ok` says for the distance `d` from `from` to `to`, and while none is closed,
/// one worth at most `d` is open.
pub open spec fn search_ok(ram: Seq<Node>, open: Seq<Node>, close: Seq<Node>, from: (i32, i32), to: (i32, i32)) -> bool {
    let d = dist(from, to);
    &&& values_ok(ram, to)
    &&& closed_ok(open, close, to, d)
    &&& close.len() == 0 ==> exists|k: int| 0 <= k < open.len() && (#[trigger] open[k]).value <= d
}

/// The searches that always find a way: moves of at least one step, where every position
/// within the distance `d` from `from` to `to`, plus one move, of `to` has its coordinates in
/// `i32`, and where a cost of at most `d`, plus one move, plus the distance left from a
/// position one move further, stays in `i32`.
pub open spec fn search_bounds(from: (i32, i32), to: (i32, i32), speed: i32) -> bool {
    let d = dist(from, to);
    &&& 1 <= speed
    &&& 2 * d + speed < i32::MAX
    &&& reach_ok(to, d + speed)
}

proof fn lemma_toward(p: (i32, i32), to: (i32, i32))
    requires
        p != to,
    ensures
        dist(toward(p, to), to) == dist(p, to) - 1,
        dist(toward(p, to), p) == 1,
{
}

proof fn lemma_nearest_closed(close: Seq<Node>, to: (i32, i32)) -> (j: int)
    requires
        close.len() > 0,
    ensures
        0 <= j < close.len(),
        forall|k: int| 0 <= k < close.len() ==> dist(close[j].pos, to) <= dist(#[trigger] close[k].pos, to),
    decreases close.len(),
{
    if close.len() == 1 {
        0
    } else {
        let i = lemma_nearest_closed(close.drop_last(), to);
        assert(forall|k: int| 0 <= k < close.len() - 1 ==> close.drop_last()[k] == close[k]);
        if dist(close.last().pos, to) < dist(close[i].pos, to) {
            close.len() - 1
        } else {
            i
        }
    }
}

/// A search in the state `search_ok` has a node worth at most the distance open.
proof fn lemma_frontier(open: Seq<Node>, close: Seq<Node>, ram: Seq<Node>, from: (i32, i32), to: (i32, i32))
    requires
        search_ok(ram, open, close, from, to),
        stored(ram, close),
    ensures
        exists|k: int| 0 <= k < open.len() && (#[trigger] open[k]).value <= dist(from, to),
{
    let d = dist(from, to);
    if close.len() > 0 {
        let j = lemma_nearest_closed(close, to);
        let m = close[j];
        assert(m.value <= d && m.pos != to);
        assert(ram[m.index as int] == m);
        assert(dist(m.pos, to) <= d);
        lemma_toward(m.pos, to);
        if has_le(close, toward(m.pos, to), d) {
            let k = choose|k: int| 0 <= k < close.len() && (#[trigger] close[k]).pos == toward(m.pos, to) && close[k].value <= d;
            assert(dist(close[j].pos, to) <= dist(close[k].pos, to));
            assert(false);
        }
        let k = choose|k: int| 0 <= k < open.len() && (#[trigger] open[k]).pos == toward(m.pos, to) && open[k].value <= d;
        assert(open[k].value <= d);
    }
}

/// Adding a node keeps the way back from every node already there.
proof fn lemma_chain_push(ram: Seq<Node>, x: Node, i: int)
    requires
        0 <= i < ram.len(),
    ensures
        chain(ram.push(x), i) == chain(ram, i),
    decreases i,
{
    let r = ram.push(x);
    assert(r[i] == ram[i]);
    match ram[i].parent {
        Some(p) => {
            if p < i {
                lemma_chain_push(ram, x, p as int);
            }
        },
        None => {},
    }
}

/// The node a search in the state `search_ok` takes out of `open` is worth at most the distance
/// from `from` to `to`: it costs at most that distance and lies near the plane.
proof fn lemma_best(ram: Seq<Node>, open0: Seq<Node>, close0: Seq<Node>, from: (i32, i32), to: (i32, i32), current: Node)
    requires
        search_ok(ram, open0, close0, from, to),
        stored(ram, open0),
        stored(ram, close0),
        open0.contains(current),
        forall|k: int| 0 <= k < open0.len() ==> current.value <= (#[trigger] open0[k]).value,
    ensures
        current.value <= dist(from, to),
        current.value == current.cost + dist(current.pos, to),
        0 <= current.cost <= dist(from, to),
        dist(current.pos, to) <= dist(from, to),
        current.index < ram.len(),
        ram[current.index as int] == current,
{
    lemma_frontier(open0, close0, ram, from, to);
    let w = choose|k: int| 0 <= k < open0.len() && (#[trigger] open0[k]).value <= dist(from, to);
    assert(current.value <= open0[w].value);
    let i = choose|i: int| 0 <= i < open0.len() && open0[i] == current;
    assert(ram[current.index as int] == current);
}

/// Recording a neighbour of `current` whose parent meets `costs_ok`, one step away, keeps
/// `costs_ok`.
proof fn lemma_costs_step(
    ram0: Seq<Node>,
    ram1: Seq<Node>,
    open0: Seq<Node>,
    open1: Seq<Node>,
    close0: Seq<Node>,
    close1: Seq<Node>,
    node: Node,
    current: Node,
    from: (i32, i32),
    to: (i32, i32),
)
    requires
        costs_ok(ram0, from, to),
        current.index < ram0.len(),
        ram0[current.index as int] == current,
        dist(node.pos, current.pos) == 1,
        made_from(node, current, to, ram0.len() as int),
        0 <= current.cost,
        current.cost + 1 + dist(node.pos, to) <= i32::MAX,
        checked_in(ram0, ram1, open0, open1, close0, close1, node),
    ensures
        costs_ok(ram1, from, to),
{
    if worth(close0, node) {
        lemma_chain_push(ram0, node, current.index as int);
        assert forall|ii: int| 0 <= ii < ram1.len() implies (#[trigger] ram1[ii]).cost >= dist(from, ram1[ii].pos)
            && chain(ram1, ii).len() == ram1[ii].cost by {
            if ii < ram0.len() {
                lemma_chain_push(ram0, node, ii);
                assert(ram1[ii] == ram0[ii]);
            } else {
                assert(ram1[ii] == node);
                assert(chain(ram1, ii) == seq![node.pos] + chain(ram1, current.index as int));
            }
        }
    }
}

/// A closed node after `check_in_close` was closed before it.
proof fn lemma_close_source(
    ram0: Seq<Node>,
    ram1: Seq<Node>,
    open0: Seq<Node>,
    open1: Seq<Node>,
    close0: Seq<Node>,
    close1: Seq<Node>,
    node: Node,
    j: int,
) -> (j0: int)
    requires
        checked_in(ram0, ram1, open0, open1, close0, close1, node),
        0 <= j < close1.len(),
    ensures
        0 <= j0 < close0.len(),
        close1[j] == close0[j0],
{
    lemma_find_pos_from(close0, node.pos, 0);
    if worth(close0, node) {
        match find_pos(close0, node.pos) {
            None => j,
            Some(i) => if j < i { j } else { j + 1 },
        }
    } else {
        j
    }
}

/// Recording a node by `check_in_close` leaves a node worth at most `d` at every position that
/// held one, open or closed.
proof fn lemma_has_le_kept(
    ram0: Seq<Node>,
    ram1: Seq<Node>,
    open0: Seq<Node>,
    open1: Seq<Node>,
    close0: Seq<Node>,
    close1: Seq<Node>,
    node: Node,
    d: int,
    p: (i32, i32),
)
    requires
        checked_in(ram0, ram1, open0, open1, close0, close1, node),
        has_le(open0, p, d) || has_le(close0, p, d),
    ensures
        has_le(open1, p, d) || has_le(close1, p, d),
{
    lemma_find_pos_from(close0, node.pos, 0);
    if worth(close0, node) {
        if has_le(open0, p, d) {
            let w = choose|w: int| 0 <= w < open0.len() && (#[trigger] open0[w]).pos == p && open0[w].value <= d;
            assert(open1[w] == open0[w]);
        } else {
            let w = choose|w: int| 0 <= w < close0.len() && (#[trigger] close0[w]).pos == p && close0[w].value <= d;
            match find_pos(close0, node.pos) {
                None => {
                    assert(close1[w] == close0[w]);
                },
                Some(i) => {
                    if w < i {
                        assert(close1[w] == close0[w]);
                    } else if w > i {
                        assert(close1[w - 1] == close0[w]);
                    } else {
                        assert(open1[open1.len() - 1] == node);
                    }
                },
            }
        }
    }
}

/// The record of a search is whole, every open and closed node is stored in it, and so is
/// `current`, at its place.
#[verifier::opaque]
spec fn store_ok(ram: Seq<Node>, open: Seq<Node>, close: Seq<Node>, current: Node, from: (i32, i32), speed: i32) -> bool {
    &&& ram_ok(ram, from, speed)
    &&& ram[0].cost == 0
    &&& stored(ram, open)
    &&& stored(ram, close)
    &&& current.index < ram.len()
    &&& ram[current.index as int] == current
}

/// A node worth at most `d` stands at `p`, open or closed, or `p` is where `cur` stands.
spec fn held(open: Seq<Node>, close: Seq<Node>, p: (i32, i32), d: int, cur: (i32, i32)) -> bool {
    has_le(open, p, d) || has_le(close, p, d) || p == cur
}

/// While a search looks at the neighbours of `current`, the first `k` of `nb`: the values are
/// right, the closed nodes are as `closed_ok` says, with the position of `current`, taken out of
/// `open` and not closed yet, counting as held; `current` is worth at most the distance `d`
/// and lies near the plane, and once the step from it towards `to` was looked at, a node worth
/// at most `d` stands there, open or closed.
#[verifier::opaque]
spec fn expanding(
    ram: Seq<Node>,
    open: Seq<Node>,
    close: Seq<Node>,
    current: Node,
    from: (i32, i32),
    to: (i32, i32),
    nb: Seq<(i32, i32)>,
    k: int,
) -> bool {
    let d = dist(from, to);
    let t = toward(current.pos, to);
    &&& values_ok(ram, to)
    &&& forall|j: int| 0 <= j < close.len() ==> (#[trigger] close[j]).value <= d && close[j].pos != to
    &&& forall|j: int| 0 <= j < close.len() ==> held(open, close, toward((#[trigger] close[j]).pos, to), d, current.pos)
    &&& current.value <= d
    &&& current.value == current.cost + dist(current.pos, to)
    &&& 0 <= current.cost <= d
    &&& current.pos != to
    &&& dist(current.pos, to) <= d
    &&& nb.contains(t)
    &&& (exists|q: int| 0 <= q < k && nb[q] == t) ==> has_le(open, t, d) || has_le(close, t, d)
}

/// While the first node of a search whose target is one move away looks at its neighbours, the
/// first `k` of `nb`: nothing is closed, each open node is one move from the first with the
/// value of one move plus its distance to `to`, and once `to` was looked at, it stands open.
#[verifier::opaque]
spec fn first_expanding(
    open: Seq<Node>,
    close: Seq<Node>,
    current: Node,
    from: (i32, i32),
    to: (i32, i32),
    nb: Seq<(i32, i32)>,
    k: int,
) -> bool {
    &&& close.len() == 0
    &&& current.cost == 0 && current.index == 0 && current.pos == from
    &&& nb.contains(to)
    &&& forall|j: int| 0 <= j < open.len()
        ==> (#[trigger] open[j]).value == 1 + dist(open[j].pos, to) && open[j].parent == Some(0usize)
    &&& (exists|i: int| 0 <= i < k && nb[i] == to) ==> exists|j: int| 0 <= j < open.len() && (#[trigger] open[j]).pos == to
}

/// What a node recorded by `check_in_close` does to the record, the open and the closed nodes.
spec fn checked_in(
    ram0: Seq<Node>,
    ram1: Seq<Node>,
    open0: Seq<Node>,
    open1: Seq<Node>,
    close0: Seq<Node>,
    close1: Seq<Node>,
    node: Node,
) -> bool {
    &&& worth(close0, node) ==> {
        &&& ram1 == ram0.push(node)
        &&& open1 == open0.push(node)
        &&& close1 == match find_pos(close0, node.pos) {
            None => close0,
            Some(i) => close0.remove(i),
        }
    }
    &&& !worth(close0, node) ==> ram1 == ram0 && open1 == open0 && close1 == close0
}

/// The node a search makes for a position one move from `current`.
spec fn made_from(node: Node, current: Node, to: (i32, i32), index: int) -> bool {
    node == (Node {
        pos: node.pos,
        cost: (current.cost + 1) as i32,
        value: (current.cost + 1 + dist(node.pos, to)) as i32,
        index: index as usize,
        parent: Some(current.index),
    })
}

/// `current` is stored in the record at its place.
proof fn lemma_store_current(ram: Seq<Node>, open: Seq<Node>, close: Seq<Node>, current: Node, from: (i32, i32), speed: i32)
    requires
        store_ok(ram, open, close, current, from, speed),
    ensures
        current.index < ram.len(),
        ram[current.index as int] == current,
        current.cost >= 0,
        current.pos == from ==> current == ram[0],
        ram[0].pos == from,
{
    reveal(store_ok);
}

/// `find_pos` finds nothing only where no node of `v` stands at `pos`.
proof fn lemma_find_pos_none(v: Seq<Node>, pos: (i32, i32), k: int)
    requires
        0 <= k,
        find_pos_from(v, pos, k) is None,
    ensures
        forall|i: int| k <= i < v.len() ==> (#[trigger] v[i]).pos != pos,
    decreases v.len() - k,
{
    if k < v.len() {
        lemma_find_pos_none(v, pos, k + 1);
    }
}

/// Once the first node is closed, a node at `from` is never worth recording: the first one is
/// worth the distance, and any other at least one move more.
proof fn lemma_from_stays_closed(
    ram: Seq<Node>,
    open: Seq<Node>,
    close: Seq<Node>,
    current: Node,
    from: (i32, i32),
    to: (i32, i32),
    speed: i32,
    node: Node,
)
    requires
        store_ok(ram, open, close, current, from, speed),
        close.contains(ram[0]) || current.pos == from,
        ram[0].value == dist(from, to),
        made_from(node, current, to, ram.len() as int),
        current.cost + 1 + dist(node.pos, to) <= i32::MAX,
        1 <= dist(node.pos, current.pos),
    ensures
        worth(close, node) ==> node.pos != from,
{
    reveal(store_ok);
    if node.pos == from {
        assert(current.pos != from);
        let j = choose|j: int| 0 <= j < close.len() && close[j] == ram[0];
        lemma_find_pos_from(close, from, 0);
        if find_pos(close, from) is None {
            lemma_find_pos_none(close, from, 0);
            assert(close[j].pos != from);
        }
        let i = find_pos(close, from)->0;
        assert(close[i].pos == from);
        assert(ram[close[i].index as int] == close[i]);
        assert(close[i] == ram[0]);
    }
}

/// Recording a node keeps a closed node closed where the node recorded stands elsewhere or
/// is not worth recording.
proof fn lemma_keeps_closed(
    ram0: Seq<Node>,
    ram1: Seq<Node>,
    open0: Seq<Node>,
    open1: Seq<Node>,
    close0: Seq<Node>,
    close1: Seq<Node>,
    node: Node,
    x: Node,
)
    requires
        checked_in(ram0, ram1, open0, open1, close0, close1, node),
        worth(close0, node) ==> node.pos != x.pos,
        close0.contains(x),
    ensures
        close1.contains(x),
{
    let j = choose|j: int| 0 <= j < close0.len() && close0[j] == x;
    lemma_find_pos_from(close0, node.pos, 0);
    if worth(close0, node) {
        match find_pos(close0, node.pos) {
            None => {
                assert(close1[j] == x);
            },
            Some(i) => {
                assert(i != j);
                if j < i {
                    assert(close1[j] == x);
                } else {
                    assert(close1[j - 1] == x);
                }
            },
        }
    }
}

/// The way back from a node never passes through `from`.
proof fn lemma_chain_avoids(ram: Seq<Node>, from: (i32, i32), speed: i32, i: int)
    requires
        ram_ok(ram, from, speed),
        0 <= i < ram.len(),
    ensures
        !chain(ram, i).contains(from),
    decreases i,
{
    match ram[i].parent {
        Some(p) => {
            if p < i {
                lemma_chain_avoids(ram, from, speed, p as int);
                let c = chain(ram, i);
                assert(c == seq![ram[i].pos] + chain(ram, p as int));
                assert(i > 0);
                if c.contains(from) {
                    let k = choose|k: int| 0 <= k < c.len() && c[k] == from;
                    if k > 0 {
                        assert(chain(ram, p as int)[k - 1] == from);
                    }
                }
            }
        },
        None => {},
    }
}

/// Recording a neighbour of `current` keeps the record of the search whole.
proof fn lemma_store_step(
    ram0: Seq<Node>,
    ram1: Seq<Node>,
    open0: Seq<Node>,
    open1: Seq<Node>,
    close0: Seq<Node>,
    close1: Seq<Node>,
    node: Node,
    current: Node,
    from: (i32, i32),
    speed: i32,
)
    requires
        store_ok(ram0, open0, close0, current, from, speed),
        node.index == ram0.len(),
        node.parent == Some(current.index),
        node.cost >= 0,
        worth(close0, node) ==> node.pos != from,
        step(node.pos, current.pos, speed),
        checked_in(ram0, ram1, open0, open1, close0, close1, node),
    ensures
        store_ok(ram1, open1, close1, current, from, speed),
        ram1[0] == ram0[0],
{
    reveal(store_ok);
    lemma_insert_keeps_store(ram0, ram1, open0, open1, close0, close1, node, current, from, speed);
}

/// Taking the best node out of `open` in the state `search_ok` starts the state `expanding`.
proof fn lemma_start_expanding(
    ram: Seq<Node>,
    open0: Seq<Node>,
    open: Seq<Node>,
    close: Seq<Node>,
    i: int,
    current: Node,
    from: (i32, i32),
    to: (i32, i32),
    nb: Seq<(i32, i32)>,
)
    requires
        search_ok(ram, open0, close, from, to),
        0 <= i < open0.len(),
        open0[i] == current,
        open == open0.remove(i),
        current.value <= dist(from, to),
        current.value == current.cost + dist(current.pos, to),
        0 <= current.cost <= dist(from, to),
        current.pos != to,
        dist(current.pos, to) <= dist(from, to),
        nb.contains(toward(current.pos, to)),
    ensures
        expanding(ram, open, close, current, from, to, nb, 0),
{
    reveal(expanding);
    let d = dist(from, to);
    assert forall|j: int| 0 <= j < close.len() implies held(open, close, toward((#[trigger] close[j]).pos, to), d, current.pos) by {
        let tj = toward(close[j].pos, to);
        if has_le(open0, tj, d) {
            let w = choose|w: int| 0 <= w < open0.len() && (#[trigger] open0[w]).pos == tj && open0[w].value <= d;
            if w < i {
                assert(open[w] == open0[w]);
            } else if w > i {
                assert(open[w - 1] == open0[w]);
            }
        }
    }
}

/// Looking at the `k`-th neighbour of `current` keeps the state
/// `expanding`, one neighbour further.
proof fn lemma_expand_step(
    ram0: Seq<Node>,
    ram1: Seq<Node>,
    open0: Seq<Node>,
    open1: Seq<Node>,
    close0: Seq<Node>,
    close1: Seq<Node>,
    node: Node,
    current: Node,
    from: (i32, i32),
    to: (i32, i32),
    nb: Seq<(i32, i32)>,
    k: int,
)
    requires
        expanding(ram0, open0, close0, current, from, to, nb, k),
        0 <= k < nb.len(),
        node.pos == nb[k],
        1 <= dist(node.pos, current.pos),
        made_from(node, current, to, ram0.len() as int),
        current.cost + 1 + dist(node.pos, to) <= i32::MAX,
        checked_in(ram0, ram1, open0, open1, close0, close1, node),
    ensures
        expanding(ram1, open1, close1, current, from, to, nb, k + 1),
{
    reveal(expanding);
    let d = dist(from, to);
    let t = toward(current.pos, to);
    lemma_find_pos_from(close0, node.pos, 0);
    if worth(close0, node) {
        assert forall|i: int| 0 <= i < ram1.len() implies (#[trigger] ram1[i]).value == ram1[i].cost + dist(ram1[i].pos, to)
            && ram1[i].cost >= 0 by {
            if i < ram0.len() {
                assert(ram1[i] == ram0[i]);
            }
        }
    }
    assert forall|j: int| 0 <= j < close1.len() implies (#[trigger] close1[j]).value <= d && close1[j].pos != to
        && held(open1, close1, toward(close1[j].pos, to), d, current.pos) by {
        let j0 = lemma_close_source(ram0, ram1, open0, open1, close0, close1, node, j);
        let tj = toward(close0[j0].pos, to);
        if tj != current.pos {
            lemma_has_le_kept(ram0, ram1, open0, open1, close0, close1, node, d, tj);
        }
    }
    if exists|q: int| 0 <= q < k + 1 && nb[q] == t {
        if node.pos == t {
            lemma_toward(current.pos, to);
            assert(node.value == current.value);
            if worth(close0, node) {
                assert(open1[open1.len() - 1] == node);
            } else {
                let i = find_pos(close0, node.pos)->0;
                assert(close1[i] == close0[i]);
            }
        } else {
            let q = choose|q: int| 0 <= q < k + 1 && nb[q] == t;
            assert(q < k);
            lemma_has_le_kept(ram0, ram1, open0, open1, close0, close1, node, d, t);
        }
    }
}

/// Looking at the `k`-th neighbour of the first node, where `to` is one move away, keeps the
/// state `first_expanding`, one neighbour further.
proof fn lemma_first_step(
    ram0: Seq<Node>,
    ram1: Seq<Node>,
    open0: Seq<Node>,
    open1: Seq<Node>,
    close0: Seq<Node>,
    close1: Seq<Node>,
    node: Node,
    current: Node,
    from: (i32, i32),
    to: (i32, i32),
    nb: Seq<(i32, i32)>,
    k: int,
)
    requires
        first_expanding(open0, close0, current, from, to, nb, k),
        0 <= k < nb.len(),
        node.pos == nb[k],
        made_from(node, current, to, ram0.len() as int),
        current.cost + 1 + dist(node.pos, to) <= i32::MAX,
        0 <= dist(node.pos, to),
        checked_in(ram0, ram1, open0, open1, close0, close1, node),
    ensures
        first_expanding(open1, close1, current, from, to, nb, k + 1),
{
    reveal(first_expanding);
    assert(node.value == 1 + dist(node.pos, to) && node.parent == Some(0usize));
    lemma_first_expand(ram0, ram1, open0, open1, close0, close1, node, to, nb, k);
}

/// Once `current` is expanded and closed, the record, the open and the closed nodes are again in
/// the state the search keeps from one round to the next.
proof fn lemma_round_end(
    ram: Seq<Node>,
    open: Seq<Node>,
    close_before: Seq<Node>,
    close: Seq<Node>,
    current: Node,
    from: (i32, i32),
    to: (i32, i32),
    speed: i32,
    nb: Seq<(i32, i32)>,
)
    requires
        store_ok(ram, open, close_before, current, from, speed),
        close == (if find_pos(close_before, current.pos) is None { close_before.push(current) } else { close_before }),
        search_bounds(from, to, speed) ==> expanding(ram, open, close_before, current, from, to, nb, nb.len() as int),
        one_move(from, to, speed) ==> first_expanding(open, close_before, current, from, to, nb, nb.len() as int),
        close_before.contains(ram[0]) || current.pos == from,
    ensures
        close.contains(ram[0]),
        ram_ok(ram, from, speed),
        ram[0].cost == 0,
        stored(ram, open),
        stored(ram, close),
        search_bounds(from, to, speed) ==> search_ok(ram, open, close, from, to),
        one_move(from, to, speed) ==> forall|j: int| 0 <= j < open.len()
            ==> (#[trigger] open[j]).value == 1 + dist(open[j].pos, to) && open[j].parent == Some(0usize),
        one_move(from, to, speed) ==> exists|j: int| 0 <= j < open.len() && (#[trigger] open[j]).pos == to,
{
    reveal(expanding);
    reveal(first_expanding);
    reveal(store_ok);
    lemma_find_pos_from(close_before, current.pos, 0);
    if close_before.contains(ram[0]) {
        let j = choose|j: int| 0 <= j < close_before.len() && close_before[j] == ram[0];
        assert(close[j] == ram[0]);
    } else {
        assert(current == ram[current.index as int]);
        assert(current == ram[0]);
        match find_pos(close_before, current.pos) {
            None => {
                assert(close[close.len() - 1] == current);
            },
            Some(i) => {
                assert(ram[close_before[i].index as int] == close_before[i]);
                assert(close[i] == ram[0]);
            },
        }
    }
    assert forall|j: int| 0 <= j < close.len() implies (#[trigger] close[j]).index < ram.len()
        && ram[close[j].index as int] == close[j] by {
        if j < close_before.len() {
            assert(close[j] == close_before[j]);
        }
    }
    if one_move(from, to, speed) {
        let i = choose|i: int| 0 <= i < nb.len() && nb[i] == to;
        assert(exists|i: int| 0 <= i < nb.len() && nb[i] == to);
    }
    if search_bounds(from, to, speed) {
        let d = dist(from, to);
        let t = toward(current.pos, to);
        let qn = choose|q: int| 0 <= q < nb.len() && nb[q] == t;
        assert(has_le(open, t, d) || has_le(close_before, t, d));
        assert forall|j: int| 0 <= j < close.len() implies (#[trigger] close[j]).value <= d && close[j].pos != to
            && (has_le(open, toward(close[j].pos, to), d) || has_le(close, toward(close[j].pos, to), d)) by {
            let c = close[j];
            if j < close_before.len() {
                assert(close[j] == close_before[j]);
            } else {
                assert(c == current);
            }
            let tj = toward(c.pos, to);
            if tj == current.pos {
                match find_pos(close_before, current.pos) {
                    None => {
                        assert(close[close.len() - 1] == current);
                    },
                    Some(i) => {
                        assert(close[i] == close_before[i]);
                    },
                }
            } else if has_le(close_before, tj, d) {
                let w = choose|w: int| 0 <= w < close_before.len() && (#[trigger] close_before[w]).pos == tj
                    && close_before[w].value <= d;
                assert(close[w] == close_before[w]);
            }
        }
        assert(close.len() > 0);
    }
}

/// `to` lies one move of at most `speed` away from `from`, and the coordinates, the costs and
/// the estimates of that move's search stay in `i32`.
pub open spec fn one_move(from: (i32, i32), to: (i32, i32), speed: i32) -> bool {
    &&& 1 <= dist(from, to) <= speed
    &&& speed + dist(from, to) < i32::MAX
    &&& reach_ok(from, speed as int)
}

/// A best-first search (A*) on the open plane from `from` to `to`, a move reaching any position
/// at most `speed` away and the estimate being the distance left. Returns the positions from
/// `to` back to the one after `from`. Within `search_bounds`, or where `to` is one move away, a
/// way is always found, and with moves of one step it is a shortest one. Otherwise none may come
/// back where a coordinate, a cost or an estimate would leave `i32`.
#[verifier::rlimit(30)]
pub fn a_star(from: (i32, i32), to: (i32, i32), speed: i32, troll_paths: &Vec<Vec<(i32, i32)>>) -> (r: Option<Vec<(i32, i32)>>)
    requires
        dist_ok(from, to),
    ensures
        found_route(r, from, to, speed),
        from == to ==> (r matches Some(p) && p@.len() == 0),
        speed < 1 && from != to ==> r is None,
        search_bounds(from, to, speed) ==> r is Some,
        one_move(from, to, speed) ==> (r matches Some(p) && p@ == seq![to]),
        speed == 1 && search_bounds(from, to, speed) ==> (r matches Some(p) && p@.len() == dist(from, to)),
{
    let mut ram_of_nodes: Vec<Node> = Vec::new();
    let mut close: Vec<Node> = Vec::new();
    let mut open: Vec<Node> = Vec::new();
    ram_of_nodes.push(Node::new(from, to, 0));
    open.push(Node::new(from, to, 0));
    let ghost mut round: int = 0;
    let ghost bounded = search_bounds(from, to, speed);
    let ghost unit = speed == 1 && search_bounds(from, to, speed);
    let ghost goal_dist = dist(from, to);
    proof {
        assert(chain(ram_of_nodes@, 0) =~= Seq::<(i32, i32)>::empty());
        if bounded {
            assert(open@[0].value <= goal_dist);
        }
    }
    loop
        invariant
            bounded == search_bounds(from, to, speed),
            unit == (speed == 1 && search_bounds(from, to, speed)),
            goal_dist == dist(from, to),
            bounded ==> search_ok(ram_of_nodes@, open@, close@, from, to),
            unit ==> costs_ok(ram_of_nodes@, from, to),
            ram_ok(ram_of_nodes@, from, speed),
            ram_of_nodes@[0].cost == 0,
            ram_of_nodes@[0].value == dist(from, to),
            0 <= round,
            round == 0 ==> open@ == seq![ram_of_nodes@[0]] && close@.len() == 0,
            round > 0 ==> close@.contains(ram_of_nodes@[0]),
            one_move(from, to, speed) ==> round <= 1,
            one_move(from, to, speed) && round == 0 ==> open@ == seq![ram_of_nodes@[0]] && close@.len() == 0,
            one_move(from, to, speed) && round == 1 ==> forall|j: int| 0 <= j < open@.len()
                ==> (#[trigger] open@[j]).value == 1 + dist(open@[j].pos, to) && open@[j].parent == Some(0usize),
            one_move(from, to, speed) && round == 1 ==> exists|j: int| 0 <= j < open@.len() && (#[trigger] open@[j]).pos == to,
            stored(ram_of_nodes@, open@),
            stored(ram_of_nodes@, close@),
            from == to ==> open@ == seq![ram_of_nodes@[0]] && ram_of_nodes@.len() == 1,
            speed < 1 ==> ram_of_nodes@.len() == 1 && forall|k: int| 0 <= k < open@.len() ==> (#[trigger] open@[k]).pos == from,
        decreases 2 * (usize::MAX - ram_of_nodes.len()) + open.len(),
    {
        if open.len() == 0 {
            proof {
                if one_move(from, to, speed) && round == 1 {
                    let j = choose|j: int| 0 <= j < open@.len() && (#[trigger] open@[j]).pos == to;
                }
                if bounded {
                    lemma_frontier(open@, close@, ram_of_nodes@, from, to);
                }
            }
            return None;
        }
        let ghost m0 = 2 * (usize::MAX - ram_of_nodes.len()) + open.len();
        let ghost open0 = open@;
        let ghost close0 = close@;
        let current = pop_best(&mut open);
        proof {
            let i = choose|i: int| 0 <= i < open0.len() && current == open0[i] && open@ == open0.remove(i)
                && forall|k: int| 0 <= k < open0.len() ==> current.value <= (#[trigger] open0[k]).value;
            assert(open0[i] == current);
            if bounded {
                lemma_best(ram_of_nodes@, open0, close0, from, to, current);
            }
            assert forall|k: int| 0 <= k < open@.len() implies (#[trigger] open@[k]).index < ram_of_nodes@.len()
                && ram_of_nodes@[open@[k].index as int] == open@[k] by {
                if k < i {
                    assert(open@[k] == open0[k]);
                } else {
                    assert(open@[k] == open0[k + 1]);
                }
            }
            if speed < 1 {
                assert forall|k: int| 0 <= k < open@.len() implies (#[trigger] open@[k]).pos == from by {
                    if k < i {
                        assert(open@[k] == open0[k]);
                    } else {
                        assert(open@[k] == open0[k + 1]);
                    }
                }
            }
            assert(round == 0 ==> current == ram_of_nodes@[0] && current.pos == from
                && open@.len() == 0 && close@.len() == 0) by {
                if round == 0 {
                    assert(open0 == seq![ram_of_nodes@[0]]);
                    assert(i == 0);
                }
            }
            assert(one_move(from, to, speed) && round == 1 ==> current.pos == to && current.parent == Some(0usize)) by {
                if one_move(from, to, speed) && round == 1 {
                    let j = choose|j: int| 0 <= j < open0.len() && (#[trigger] open0[j]).pos == to;
                    assert(current.value <= open0[j].value);
                    assert(open0[j].value == 1 + dist(to, to));
                    assert(current.value == 1 + dist(current.pos, to));
                    assert(current.parent == Some(0usize));
                }
            }
        }
        if current.pos.0 == to.0 && current.pos.1 == to.1 {
            let path = current.collect(&ram_of_nodes);
            proof {
                let ci = current.index as int;
                assert(ram_of_nodes@[ci] == current);
                if ci > 0 {
                    assert(ram_of_nodes@[ci].parent matches Some(p) && p < ci);
                    assert(chain(ram_of_nodes@, ci) == path_of(ram_of_nodes@, current));
                    lemma_chain_route(ram_of_nodes@, from, speed, ci);
                    lemma_chain_avoids(ram_of_nodes@, from, speed, ci);
                } else {
                    assert(current.pos == from);
                }
                if unit {
                    assert(ram_of_nodes@[ci].cost >= dist(from, ram_of_nodes@[ci].pos));
                    assert(current.cost == goal_dist);
                    if ci == 0 {
                        assert(path_of(ram_of_nodes@, current) =~= Seq::<(i32, i32)>::empty());
                    }
                    assert(path@.len() == goal_dist);
                }
                if one_move(from, to, speed) {
                    assert(round == 1);
                    assert(current.parent == Some(0usize));
                    assert(path_of(ram_of_nodes@, current) == seq![current.pos] + chain(ram_of_nodes@, 0));
                    assert(chain(ram_of_nodes@, 0) =~= Seq::<(i32, i32)>::empty());
                    assert(path@ =~= seq![to]);
                }
            }
            return Some(path);
        }
        if speed >= 1 && !reach_checked(current.pos, speed) {
            return None;
        }
        if current.cost == i32::MAX {
            return None;
        }
        assert(from != to) by {
            if from == to {
                assert(open0 == seq![ram_of_nodes@[0]]);
            }
        }
        let neighbours = get_neigh(current.pos, speed);
        proof {
            if one_move(from, to, speed) {
                crate::laws::law_neighbours_are_the_reach(from, speed, to);
                assert(neighbours@.contains(to));
                assert(first_expanding(open@, close@, current, from, to, neighbours@, 0)) by {
                    reveal(first_expanding);
                }
            }
            if bounded {
                lemma_toward(current.pos, to);
                crate::laws::law_neighbours_are_the_reach(current.pos, speed, toward(current.pos, to));
                assert(neighbours@.contains(toward(current.pos, to)));
                let i = choose|i: int| 0 <= i < open0.len() && current == open0[i] && open@ == open0.remove(i)
                    && forall|k: int| 0 <= k < open0.len() ==> current.value <= (#[trigger] open0[k]).value;
                lemma_start_expanding(ram_of_nodes@, open0, open@, close@, i, current, from, to, neighbours@);
            }
            if unit {
                assert(current.index < ram_of_nodes@.len() && ram_of_nodes@[current.index as int] == current);
            }
            assert(store_ok(ram_of_nodes@, open@, close@, current, from, speed)) by {
                reveal(store_ok);
            }
        }
        assert(close@.contains(ram_of_nodes@[0]) || current.pos == from);
        let mut k: usize = 0;
        while k < neighbours.len()
            invariant
                close@.contains(ram_of_nodes@[0]) || current.pos == from,
                ram_of_nodes@[0].value == dist(from, to),
                bounded == search_bounds(from, to, speed),
                unit == (speed == 1 && search_bounds(from, to, speed)),
                goal_dist == dist(from, to),
                bounded ==> expanding(ram_of_nodes@, open@, close@, current, from, to, neighbours@, k as int),
                unit ==> costs_ok(ram_of_nodes@, from, to),
                store_ok(ram_of_nodes@, open@, close@, current, from, speed),
                one_move(from, to, speed) ==> round == 0,
                one_move(from, to, speed) ==> first_expanding(open@, close@, current, from, to, neighbours@, k as int),
                current.cost < i32::MAX,
                forall|j: int| 0 <= j < neighbours@.len() ==> step(#[trigger] neighbours@[j], current.pos, speed),
                speed < 1 ==> neighbours@.len() == 0,
                speed < 1 ==> ram_of_nodes@.len() == 1 && forall|j: int| 0 <= j < open@.len() ==> (#[trigger] open@[j]).pos == from,
                from != to,
                k <= neighbours@.len(),
                2 * (usize::MAX - ram_of_nodes.len()) + open.len() < m0,
            decreases neighbours@.len() - k,
        {
            let pos = neighbours[k];
            proof {
                assert(step(neighbours@[k as int], current.pos, speed));
                if one_move(from, to, speed) {
                    assert(dist_ok(pos, to) && dist(pos, to) <= speed + dist(from, to) && current.cost == 0) by {
                        reveal(first_expanding);
                    }
                }
                if bounded {
                    assert(dist_ok(pos, to) && current.cost + 1 + dist(pos, to) <= i32::MAX) by {
                        reveal(expanding);
                    }
                }
            }
            let d = match dist_checked(pos, to) {
                None => {
                    return None;
                },
                Some(d) => d,
            };
            if current.cost as i64 + 1 + d as i64 > i32::MAX as i64 {
                return None;
            }
            let node = Node::from(current.index, current.cost, pos, to, ram_of_nodes.len());
            let ghost ram_before = ram_of_nodes@;
            let ghost open_before = open@;
            let ghost close_before = close@;
            check_in_close(node, &mut close, &mut open, &mut ram_of_nodes);
            proof {
                assert(step(pos, current.pos, speed));
                if bounded {
                    lemma_expand_step(ram_before, ram_of_nodes@, open_before, open@, close_before, close@, node, current, from,
                        to, neighbours@, k as int);
                }
                if unit {
                    lemma_store_current(ram_before, open_before, close_before, current, from, speed);
                    assert(0 <= current.cost) by {
                        reveal(expanding);
                    }
                    lemma_costs_step(ram_before, ram_of_nodes@, open_before, open@, close_before, close@, node, current, from, to);
                }
                if one_move(from, to, speed) {
                    lemma_first_step(ram_before, ram_of_nodes@, open_before, open@, close_before, close@, node, current, from,
                        to, neighbours@, k as int);
                }
                lemma_store_current(ram_before, open_before, close_before, current, from, speed);
                lemma_from_stays_closed(ram_before, open_before, close_before, current, from, to, speed, node);
                lemma_store_step(ram_before, ram_of_nodes@, open_before, open@, close_before, close@, node, current, from, speed);
                if close_before.contains(ram_before[0]) {
                    lemma_keeps_closed(ram_before, ram_of_nodes@, open_before, open@, close_before, close@, node, ram_before[0]);
                }
            }
            k = k + 1;
        }
        let ghost close_before = close@;
        close_insert(&mut close, current);
        proof {
            lemma_round_end(ram_of_nodes@, open@, close_before, close@, current, from, to, speed, neighbours@);
            round = round + 1;
        }
    }
}

} // verus!
