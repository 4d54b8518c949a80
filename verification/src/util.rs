use vstd::prelude::*;
use itertools::Itertools;

verus! {

/// Absolute value of a mathematical integer.
pub open spec fn abs(n: int) -> int {
    if n < 0 { -n } else { n }
}

/// The taxicab distance between two positions.
pub open spec fn dist(a: (i32, i32), b: (i32, i32)) -> int {
    abs(a.0 - b.0) + abs(a.1 - b.1)
}

/// The distance between `a` and `b` can be computed in `i32` arithmetic:
/// both coordinate differences and their absolute values, and their sum, stay in range.
pub open spec fn dist_ok(a: (i32, i32), b: (i32, i32)) -> bool {
    &&& i32::MIN < a.0 - b.0 <= i32::MAX
    &&& i32::MIN < a.1 - b.1 <= i32::MAX
    &&& dist(a, b) <= i32::MAX
}

/// Taxicab distance between two positions.
pub fn manhattan_dist(a: (i32, i32), b: (i32, i32)) -> (d: i32)
    requires
        dist_ok(a, b),
    ensures
        d == dist(a, b),
{
    let dx = a.0 - b.0;
    let dy = a.1 - b.1;
    let ax = if dx < 0 { -dx } else { dx };
    let ay = if dy < 0 { -dy } else { dy };
    ax + ay
}

/// `i` indexes, among the entries of `s` that `sel` keeps, the first one with the least `key`.
pub open spec fn is_first_min<T>(s: Seq<T>, sel: spec_fn(T) -> bool, key: spec_fn(T) -> int, i: int) -> bool {
    &&& 0 <= i < s.len()
    &&& sel(s[i])
    &&& forall|j: int| 0 <= j < s.len() && #[trigger] sel(s[j]) ==> key(s[i]) <= key(s[j])
    &&& forall|j: int| 0 <= j < i && #[trigger] sel(s[j]) ==> key(s[i]) < key(s[j])
}

/// `i` indexes, among the entries of `s` that `sel` keeps, the last one with the greatest `key`.
pub open spec fn is_last_max<T>(s: Seq<T>, sel: spec_fn(T) -> bool, key: spec_fn(T) -> int, i: int) -> bool {
    &&& 0 <= i < s.len()
    &&& sel(s[i])
    &&& forall|j: int| 0 <= j < s.len() && #[trigger] sel(s[j]) ==> key(s[j]) <= key(s[i])
    &&& forall|j: int| i < j < s.len() && #[trigger] sel(s[j]) ==> key(s[j]) < key(s[i])
}

/// `sel` keeps no entry of `s`.
pub open spec fn none_kept<T>(s: Seq<T>, sel: spec_fn(T) -> bool) -> bool {
    forall|j: int| 0 <= j < s.len() ==> !#[trigger] sel(s[j])
}

/// The index of the first least key, `None` where every key is absent.
pub fn first_min_index(keys: &Vec<Option<i32>>) -> (r: Option<usize>)
    ensures
        r is None <==> forall|j: int| 0 <= j < keys@.len() ==> keys@[j] is None,
        r matches Some(i) ==> {
            &&& i < keys@.len()
            &&& keys@[i as int] is Some
            &&& forall|j: int| 0 <= j < keys@.len() && #[trigger] keys@[j] is Some
                ==> keys@[i as int]->0 <= keys@[j]->0
            &&& forall|j: int| 0 <= j < i && #[trigger] keys@[j] is Some
                ==> keys@[i as int]->0 < keys@[j]->0
        },
{
    let mut best: Option<usize> = None;
    let mut best_key: i32 = 0;
    let mut j: usize = 0;
    while j < keys.len()
        invariant
            j <= keys@.len(),
            best is None <==> forall|k: int| 0 <= k < j ==> keys@[k] is None,
            best matches Some(i) ==> {
                &&& i < j
                &&& keys@[i as int] == Some(best_key)
                &&& forall|k: int| 0 <= k < j && #[trigger] keys@[k] is Some ==> best_key <= keys@[k]->0
                &&& forall|k: int| 0 <= k < i && #[trigger] keys@[k] is Some ==> best_key < keys@[k]->0
            },
        decreases keys@.len() - j,
    {
        match keys[j] {
            Some(k) => {
                match best {
                    None => {
                        best = Some(j);
                        best_key = k;
                    },
                    Some(_) => {
                        if k < best_key {
                            best = Some(j);
                            best_key = k;
                        }
                    },
                }
            },
            None => {},
        }
        j = j + 1;
    }
    best
}

/// The index of the last greatest key, `None` where every key is absent.
pub fn last_max_index(keys: &Vec<Option<i32>>) -> (r: Option<usize>)
    ensures
        r is None <==> forall|j: int| 0 <= j < keys@.len() ==> keys@[j] is None,
        r matches Some(i) ==> {
            &&& i < keys@.len()
            &&& keys@[i as int] is Some
            &&& forall|j: int| 0 <= j < keys@.len() && #[trigger] keys@[j] is Some
                ==> keys@[j]->0 <= keys@[i as int]->0
            &&& forall|j: int| i < j < keys@.len() && #[trigger] keys@[j] is Some
                ==> keys@[j]->0 < keys@[i as int]->0
        },
{
    let mut best: Option<usize> = None;
    let mut best_key: i32 = 0;
    let mut j: usize = 0;
    while j < keys.len()
        invariant
            j <= keys@.len(),
            best is None <==> forall|k: int| 0 <= k < j ==> keys@[k] is None,
            best matches Some(i) ==> {
                &&& i < j
                &&& keys@[i as int] == Some(best_key)
                &&& forall|k: int| 0 <= k < j && #[trigger] keys@[k] is Some ==> keys@[k]->0 <= best_key
                &&& forall|k: int| i < k < j && #[trigger] keys@[k] is Some ==> keys@[k]->0 < best_key
            },
        decreases keys@.len() - j,
    {
        match keys[j] {
            Some(k) => {
                match best {
                    None => {
                        best = Some(j);
                        best_key = k;
                    },
                    Some(_) => {
                        if k >= best_key {
                            best = Some(j);
                            best_key = k;
                        }
                    },
                }
            },
            None => {},
        }
        j = j + 1;
    }
    best
}

/// `p` lies on a board of the given size.
pub open spec fn inside(p: (i32, i32), max_h: i32, max_w: i32) -> bool {
    0 <= p.0 < max_w && 0 <= p.1 < max_h
}

/// The positions of `s` that lie on a board of the given size, in order.
pub open spec fn inside_only(s: Seq<(i32, i32)>, max_h: i32, max_w: i32) -> Seq<(i32, i32)>
    decreases s.len(),
{
    if s.len() == 0 {
        s
    } else if inside(s.last(), max_h, max_w) {
        inside_only(s.drop_last(), max_h, max_w).push(s.last())
    } else {
        inside_only(s.drop_last(), max_h, max_w)
    }
}

/// Appends to `to_vec` the positions that lie on a board of the given size.
pub fn safe_push_positions(positions: &Vec<(i32, i32)>, to_vec: &mut Vec<(i32, i32)>, max_h: i32, max_w: i32)
    ensures
        final(to_vec)@ == old(to_vec)@ + inside_only(positions@, max_h, max_w),
{
    let mut i: usize = 0;
    while i < positions.len()
        invariant
            i <= positions@.len(),
            to_vec@ == old(to_vec)@ + inside_only(positions@.take(i as int), max_h, max_w),
        decreases positions@.len() - i,
    {
        let pos = positions[i];
        assert(positions@.take(i + 1).drop_last() == positions@.take(i as int));
        if pos.0 >= 0 && pos.1 >= 0 && pos.0 < max_w && pos.1 < max_h {
            to_vec.push(pos);
        }
        i = i + 1;
    }
    assert(positions@.take(positions@.len() as int) == positions@);
}

/// The pairs `(x, y)` with `x_lo <= x < x_hi` and `y_lo <= y < y_hi`, `x` running slowest.
pub open spec fn grid_pairs(x_lo: i32, x_hi: i32, y_lo: i32, y_hi: i32) -> Seq<(i32, i32)> {
    let nx = if x_hi > x_lo { x_hi - x_lo } else { 0 };
    let ny = if y_hi > y_lo { y_hi - y_lo } else { 0 };
    Seq::new((nx * ny) as nat, |k: int| ((x_lo + k / ny) as i32, (y_lo + k % ny) as i32))
}

/// Collects `(x_lo..x_hi).cartesian_product(y_lo..y_hi)` from itertools: every pair of the two
/// ranges, the first range running slowest, and nothing where either range is empty.
#[verifier::external_body]
pub(crate) fn cartesian_pairs(x_lo: i32, x_hi: i32, y_lo: i32, y_hi: i32) -> (r: Vec<(i32, i32)>)
    ensures
        r@ == grid_pairs(x_lo, x_hi, y_lo, y_hi),
{
    (x_lo..x_hi).cartesian_product(y_lo..y_hi).collect()
}

} // verus!

verus! {

/// The entries of `s` that `f` keeps, in order.
pub open spec fn kept<T>(s: Seq<T>, f: spec_fn(T) -> bool) -> Seq<T>
    decreases s.len(),
{
    if s.len() == 0 {
        s
    } else if f(s.last()) {
        kept(s.drop_last(), f).push(s.last())
    } else {
        kept(s.drop_last(), f)
    }
}

/// Keeping entries never makes a sequence longer.
pub proof fn lemma_kept_len<T>(s: Seq<T>, f: spec_fn(T) -> bool)
    ensures
        kept(s, f).len() <= s.len(),
    decreases s.len(),
{
    if s.len() > 0 {
        lemma_kept_len(s.drop_last(), f);
    }
}

/// Everything kept satisfies the filter and comes from the sequence.
pub proof fn lemma_kept_member<T>(s: Seq<T>, f: spec_fn(T) -> bool, k: int)
    requires
        0 <= k < kept(s, f).len(),
    ensures
        f(kept(s, f)[k]),
        s.contains(kept(s, f)[k]),
    decreases s.len(),
{
    if s.len() > 0 {
        let r = kept(s.drop_last(), f);
        if f(s.last()) && k == r.len() {
            assert(s[s.len() - 1] == s.last());
        } else {
            lemma_kept_member(s.drop_last(), f, k);
            let j = choose|j: int| 0 <= j < s.drop_last().len() && s.drop_last()[j] == kept(s, f)[k];
            assert(s[j] == kept(s, f)[k]);
        }
    }
}

/// Where the keys of entries relate to a vector of optional `i32` keys.
pub open spec fn keys_agree<T>(s: Seq<T>, sel: spec_fn(T) -> bool, key: spec_fn(T) -> int, keys: Seq<Option<i32>>) -> bool {
    &&& keys.len() == s.len()
    &&& forall|j: int| 0 <= j < s.len() ==> (#[trigger] keys[j] is Some <==> sel(s[j]))
    &&& forall|j: int| 0 <= j < s.len() && sel(s[j]) ==> (#[trigger] keys[j])->0 == key(s[j])
}

/// The index found by `first_min_index` on agreeing keys is the first least one.
pub proof fn lemma_first_min_agree<T>(s: Seq<T>, sel: spec_fn(T) -> bool, key: spec_fn(T) -> int, keys: Seq<Option<i32>>, i: int)
    requires
        keys_agree(s, sel, key, keys),
        0 <= i < keys.len(),
        keys[i] is Some,
        forall|j: int| 0 <= j < keys.len() && #[trigger] keys[j] is Some ==> keys[i]->0 <= keys[j]->0,
        forall|j: int| 0 <= j < i && #[trigger] keys[j] is Some ==> keys[i]->0 < keys[j]->0,
    ensures
        is_first_min(s, sel, key, i),
{
    assert forall|j: int| 0 <= j < s.len() && #[trigger] sel(s[j]) implies key(s[i]) <= key(s[j]) by {
        assert(keys[j] is Some);
    }
    assert forall|j: int| 0 <= j < i && #[trigger] sel(s[j]) implies key(s[i]) < key(s[j]) by {
        assert(keys[j] is Some);
    }
}

/// The index found by `last_max_index` on agreeing keys is the last greatest one.
pub proof fn lemma_last_max_agree<T>(s: Seq<T>, sel: spec_fn(T) -> bool, key: spec_fn(T) -> int, keys: Seq<Option<i32>>, i: int)
    requires
        keys_agree(s, sel, key, keys),
        0 <= i < keys.len(),
        keys[i] is Some,
        forall|j: int| 0 <= j < keys.len() && #[trigger] keys[j] is Some ==> keys[j]->0 <= keys[i]->0,
        forall|j: int| i < j < keys.len() && #[trigger] keys[j] is Some ==> keys[j]->0 < keys[i]->0,
    ensures
        is_last_max(s, sel, key, i),
{
    assert forall|j: int| 0 <= j < s.len() && #[trigger] sel(s[j]) implies key(s[j]) <= key(s[i]) by {
        assert(keys[j] is Some);
    }
    assert forall|j: int| i < j < s.len() && #[trigger] sel(s[j]) implies key(s[j]) < key(s[i]) by {
        assert(keys[j] is Some);
    }
}

/// No key is present where none agrees with a kept entry.
pub proof fn lemma_none_agree<T>(s: Seq<T>, sel: spec_fn(T) -> bool, key: spec_fn(T) -> int, keys: Seq<Option<i32>>)
    requires
        keys_agree(s, sel, key, keys),
        forall|j: int| 0 <= j < keys.len() ==> keys[j] is None,
    ensures
        none_kept(s, sel),
{
    assert forall|j: int| 0 <= j < s.len() implies !#[trigger] sel(s[j]) by {
        assert(keys[j] is None);
    }
}

/// Two positions on a board of at most `i32::MAX` tiles are at a computable distance.
pub proof fn lemma_dist_on_board(a: (i32, i32), b: (i32, i32), h: i32, w: i32)
    requires
        inside(a, h, w),
        inside(b, h, w),
        w * h <= i32::MAX,
    ensures
        dist_ok(a, b),
        dist(a, b) <= (w - 1) + (h - 1),
        dist(a, b) < i32::MAX,
{
    assert((w - 1) * (h - 1) >= 0) by (nonlinear_arith)
        requires
            w >= 1,
            h >= 1,
    ;
    assert(w * h == (w - 1) * (h - 1) + w + h - 1) by (nonlinear_arith);
}

} // verus!

verus! {

/// The index of the first least key among the kept entries, if any entry is kept.
pub open spec fn first_min_at<T>(s: Seq<T>, sel: spec_fn(T) -> bool, key: spec_fn(T) -> int) -> Option<int> {
    if exists|i: int| is_first_min(s, sel, key, i) {
        Some(choose|i: int| is_first_min(s, sel, key, i))
    } else {
        None
    }
}

/// The index of the last greatest key among the kept entries, if any entry is kept.
pub open spec fn last_max_at<T>(s: Seq<T>, sel: spec_fn(T) -> bool, key: spec_fn(T) -> int) -> Option<int> {
    if exists|i: int| is_last_max(s, sel, key, i) {
        Some(choose|i: int| is_last_max(s, sel, key, i))
    } else {
        None
    }
}

/// There is one first least entry at most.
pub proof fn lemma_first_min_at<T>(s: Seq<T>, sel: spec_fn(T) -> bool, key: spec_fn(T) -> int, i: int)
    requires
        is_first_min(s, sel, key, i),
    ensures
        first_min_at(s, sel, key) == Some(i),
{
    let j = choose|j: int| is_first_min(s, sel, key, j);
    if j < i {
        assert(sel(s[j]));
    } else if i < j {
        assert(sel(s[i]));
    }
}

/// There is no first least entry where nothing is kept.
pub proof fn lemma_first_min_at_none<T>(s: Seq<T>, sel: spec_fn(T) -> bool, key: spec_fn(T) -> int)
    requires
        none_kept(s, sel),
    ensures
        first_min_at(s, sel, key) is None,
{
    if exists|i: int| is_first_min(s, sel, key, i) {
        let i = choose|i: int| is_first_min(s, sel, key, i);
        assert(!sel(s[i]));
    }
}

/// There is one last greatest entry at most.
pub proof fn lemma_last_max_at<T>(s: Seq<T>, sel: spec_fn(T) -> bool, key: spec_fn(T) -> int, i: int)
    requires
        is_last_max(s, sel, key, i),
    ensures
        last_max_at(s, sel, key) == Some(i),
{
    let j = choose|j: int| is_last_max(s, sel, key, j);
    if j < i {
        assert(sel(s[i]));
    } else if i < j {
        assert(sel(s[j]));
    }
}

/// There is no last greatest entry where nothing is kept.
pub proof fn lemma_last_max_at_none<T>(s: Seq<T>, sel: spec_fn(T) -> bool, key: spec_fn(T) -> int)
    requires
        none_kept(s, sel),
    ensures
        last_max_at(s, sel, key) is None,
{
    if exists|i: int| is_last_max(s, sel, key, i) {
        let i = choose|i: int| is_last_max(s, sel, key, i);
        assert(!sel(s[i]));
    }
}

} // verus!
