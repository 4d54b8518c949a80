use vstd::prelude::*;
use crate::grid::{Tile, TileKind, is_tile_char, kind_of_char};
use crate::board::{Grid, shaped};
use crate::tactics::{min_dist_to, min_distance, pos_dist_from};
use crate::input::fields_hold_ints;
use crate::parse::{split_spaces, fields_ok, fval, chars_of, split_chars, field_at, char_views, strip_nl, strip_newlines};
use crate::util::{inside, inside_only, safe_push_positions, kept, first_min_at, is_first_min, keys_agree,
    first_min_index, lemma_first_min_agree, lemma_first_min_at, lemma_kept_member, lemma_dist_on_board, dist};

verus! {

/// The on-board positions next to `p`: right, left, below, above.
pub open spec fn around(p: (i32, i32), h: i32, w: i32) -> Seq<(i32, i32)> {
    inside_only(seq![((p.0 + 1) as i32, p.1), ((p.0 - 1) as i32, p.1), (p.0, (p.1 + 1) as i32), (p.0, (p.1 - 1) as i32)], h, w)
}

/// The positions next to the cells of `row` (row `y`) before `x` that hold `c`.
pub open spec fn near_in_row(row: Seq<char>, y: int, c: char, h: i32, w: i32, x: int) -> Seq<(i32, i32)>
    decreases x,
{
    if x <= 0 {
        Seq::empty()
    } else {
        near_in_row(row, y, c, h, w, x - 1) + if row[x - 1] == c { around(((x - 1) as i32, y as i32), h, w) } else { Seq::empty() }
    }
}

/// The positions next to the cells of the rows before `y` that hold `c`, row by row, each row
/// read up to the width `w`.
pub open spec fn near_in_rows(rows: Seq<Seq<char>>, c: char, h: i32, w: i32, y: int) -> Seq<(i32, i32)>
    decreases y,
{
    if y <= 0 {
        Seq::empty()
    } else {
        near_in_rows(rows, c, h, w, y - 1) + near_in_row(rows[y - 1], y - 1, c, h, w, w as int)
    }
}

/// The last cell of `row` (row `y`) before `x` that holds `c`, or `dflt`.
pub open spec fn last_in_row(row: Seq<char>, y: int, c: char, x: int, dflt: (i32, i32)) -> (i32, i32)
    decreases x,
{
    if x <= 0 {
        dflt
    } else if row[x - 1] == c {
        ((x - 1) as i32, y as i32)
    } else {
        last_in_row(row, y, c, x - 1, dflt)
    }
}

/// The last cell of the rows before `y` that holds `c`, row by row, each row read up to the
/// width `w`, or the origin.
pub open spec fn last_in_rows(rows: Seq<Seq<char>>, c: char, w: i32, y: int) -> (i32, i32)
    decreases y,
{
    if y <= 0 {
        (0, 0)
    } else {
        last_in_row(rows[y - 1], y - 1, c, w as int, last_in_rows(rows, c, w, y - 1))
    }
}

/// The rows of the map, newlines taken off.
pub open spec fn map_rows(lines: Seq<String>) -> Seq<Seq<char>> {
    Seq::new(lines.len(), |y: int| strip_nl(lines[y]@))
}

/// The cell at `p` of the map is grass.
pub open spec fn grass_at(rows: Seq<Seq<char>>) -> spec_fn((i32, i32)) -> bool {
    |p: (i32, i32)| kind_of_char(rows[p.1 as int][p.0 as int]) == TileKind::Grass
}

/// The grass tiles next to our shack.
pub open spec fn map_drops(rows: Seq<Seq<char>>, h: i32, w: i32) -> Seq<(i32, i32)> {
    kept(near_in_rows(rows, '0', h, w, h as int), grass_at(rows))
}

/// The grass tiles next to an iron mine.
pub open spec fn map_mines(rows: Seq<Seq<char>>, h: i32, w: i32) -> Seq<(i32, i32)> {
    kept(near_in_rows(rows, '+', h, w, h as int), grass_at(rows))
}

/// The least distance of a position to the drop tiles.
pub open spec fn to_drops(drops: Seq<(i32, i32)>) -> spec_fn((i32, i32)) -> int {
    |m: (i32, i32)| min_dist_to(drops, m)
}

/// The mine tile closest to a drop tile (the first such).
pub open spec fn map_mine(rows: Seq<Seq<char>>, h: i32, w: i32) -> (i32, i32) {
    let mines = map_mines(rows, h, w);
    mines[first_min_at(mines, |m: (i32, i32)| true, to_drops(map_drops(rows, h, w)))->0]
}

/// The rows make a board of `w` by `h` tiles, at most `i32::MAX` in all, written in map
/// characters.
pub open spec fn rows_ok(rows: Seq<Seq<char>>, w: i32, h: i32) -> bool {
    &&& 0 < w && 0 < h && w * h <= i32::MAX
    &&& rows.len() == h
    &&& forall|y: int| 0 <= y < h ==> (#[trigger] rows[y]).len() >= w
    &&& forall|y: int, x: int| 0 <= y < h && 0 <= x < w ==> is_tile_char(#[trigger] rows[y][x])
}

/// The header and the rows make a board: two `i32` fields, a positive size of at most
/// `i32::MAX` tiles, as many rows as the height, each at least as long as the width and made of map
/// characters, with a grass tile next to our shack and one next to a mine.
pub open spec fn map_ok(header: Seq<char>, lines: Seq<String>) -> bool {
    let t = split_spaces(header);
    let w = fval(t, 0);
    let h = fval(t, 1);
    let rows = map_rows(lines);
    &&& fields_ok(t, 0, 2)
    &&& rows_ok(rows, w, h)
    &&& map_drops(rows, h, w).len() > 0
    &&& map_mines(rows, h, w).len() > 0
}

/// All positions of `s` lie on a board of the given size.
pub open spec fn all_inside(s: Seq<(i32, i32)>, h: i32, w: i32) -> bool {
    forall|k: int| 0 <= k < s.len() ==> inside(#[trigger] s[k], h, w)
}

proof fn lemma_inside_only(s: Seq<(i32, i32)>, h: i32, w: i32)
    ensures
        all_inside(inside_only(s, h, w), h, w),
    decreases s.len(),
{
    if s.len() > 0 {
        lemma_inside_only(s.drop_last(), h, w);
    }
}

proof fn lemma_near_in_row(row: Seq<char>, y: int, c: char, h: i32, w: i32, x: int)
    ensures
        all_inside(near_in_row(row, y, c, h, w, x), h, w),
    decreases x,
{
    if x > 0 {
        lemma_near_in_row(row, y, c, h, w, x - 1);
        lemma_inside_only(seq![(x as i32, y as i32), ((x - 2) as i32, y as i32), ((x - 1) as i32, (y + 1) as i32), ((x - 1) as i32, (y - 1) as i32)], h, w);
        let a = near_in_row(row, y, c, h, w, x - 1);
        let b: Seq<(i32, i32)> = if row[x - 1] == c { around(((x - 1) as i32, y as i32), h, w) } else { Seq::empty() };
        lemma_inside_only(seq![(((x - 1) as i32 + 1) as i32, y as i32), (((x - 1) as i32 - 1) as i32, y as i32), ((x - 1) as i32, (y as i32 + 1) as i32), ((x - 1) as i32, (y as i32 - 1) as i32)], h, w);
        assert forall|k: int| 0 <= k < (a + b).len() implies inside(#[trigger] (a + b)[k], h, w) by {
            if k >= a.len() {
                assert((a + b)[k] == b[k - a.len()]);
            }
        }
    }
}

proof fn lemma_near_in_rows(rows: Seq<Seq<char>>, c: char, h: i32, w: i32, y: int)
    ensures
        all_inside(near_in_rows(rows, c, h, w, y), h, w),
    decreases y,
{
    if y > 0 {
        lemma_near_in_rows(rows, c, h, w, y - 1);
        lemma_near_in_row(rows[y - 1], y - 1, c, h, w, w as int);
        let a = near_in_rows(rows, c, h, w, y - 1);
        let b = near_in_row(rows[y - 1], y - 1, c, h, w, w as int);
        assert forall|k: int| 0 <= k < (a + b).len() implies inside(#[trigger] (a + b)[k], h, w) by {
            if k >= a.len() {
                assert((a + b)[k] == b[k - a.len()]);
            }
        }
    }
}

proof fn lemma_kept_inside(s: Seq<(i32, i32)>, f: spec_fn((i32, i32)) -> bool, h: i32, w: i32)
    requires
        all_inside(s, h, w),
    ensures
        all_inside(kept(s, f), h, w),
{
    assert forall|k: int| 0 <= k < kept(s, f).len() implies inside(#[trigger] kept(s, f)[k], h, w) by {
        lemma_kept_member(s, f, k);
        let j = choose|j: int| 0 <= j < s.len() && s[j] == kept(s, f)[k];
    }
}

proof fn lemma_last_in_row(row: Seq<char>, y: int, c: char, x: int, dflt: (i32, i32), h: i32, w: i32)
    requires
        inside(dflt, h, w),
        0 <= y < h,
        x <= w,
    ensures
        inside(last_in_row(row, y, c, x, dflt), h, w),
    decreases x,
{
    if x > 0 && row[x - 1] != c {
        lemma_last_in_row(row, y, c, x - 1, dflt, h, w);
    }
}

proof fn lemma_last_in_rows(rows: Seq<Seq<char>>, c: char, y: int, h: i32, w: i32)
    requires
        0 < h && 0 < w,
        y <= h,
    ensures
        inside(last_in_rows(rows, c, w, y), h, w),
    decreases y,
{
    if y > 0 {
        lemma_last_in_rows(rows, c, y - 1, h, w);
        lemma_last_in_row(rows[y - 1], y - 1, c, w as int, last_in_rows(rows, c, w, y - 1), h, w);
    }
}

/// The four positions next to `(x, y)`.
fn around_of(x: i32, y: i32) -> (v: Vec<(i32, i32)>)
    requires
        x < i32::MAX && y < i32::MAX && x > i32::MIN && y > i32::MIN,
    ensures
        v@ == seq![((x + 1) as i32, y), ((x - 1) as i32, y), (x, (y + 1) as i32), (x, (y - 1) as i32)],
{
    let mut v: Vec<(i32, i32)> = Vec::new();
    v.push((x + 1, y));
    v.push((x - 1, y));
    v.push((x, y + 1));
    v.push((x, y - 1));
    v
}

/// The positions of `ps` whose tile of `rows` is grass.
fn keep_grass(ps: &Vec<(i32, i32)>, grid: &Vec<Vec<Tile>>, ghost_rows: Ghost<Seq<Seq<char>>>, h: i32, w: i32) -> (r: Vec<(i32, i32)>)
    requires
        all_inside(ps@, h, w),
        shaped(grid@, w, h),
        forall|y: int, x: int| 0 <= y < h && 0 <= x < w ==> (#[trigger] grid@[y]@[x]).kind() == kind_of_char(ghost_rows@[y][x]),
    ensures
        r@ == kept(ps@, grass_at(ghost_rows@)),
{
    let mut r: Vec<(i32, i32)> = Vec::new();
    let mut i: usize = 0;
    while i < ps.len()
        invariant
            all_inside(ps@, h, w),
            shaped(grid@, w, h),
            forall|y: int, x: int| 0 <= y < h && 0 <= x < w ==> (#[trigger] grid@[y]@[x]).kind() == kind_of_char(ghost_rows@[y][x]),
            i <= ps@.len(),
            r@ == kept(ps@.take(i as int), grass_at(ghost_rows@)),
        decreases ps@.len() - i,
    {
        let p = ps[i];
        assert(inside(ps@[i as int], h, w));
        assert(ps@.take(i + 1).drop_last() == ps@.take(i as int));
        let is_grass = match &grid[p.1 as usize][p.0 as usize] {
            Tile::Grass(_) => true,
            _ => false,
        };
        assert(is_grass == (grid@[p.1 as int]@[p.0 as int].kind() == TileKind::Grass));
        if is_grass {
            r.push(p);
        }
        i = i + 1;
    }
    assert(ps@.take(ps@.len() as int) == ps@);
    r
}

/// What one pass over the rows of the map gathers.
struct Scan {
    grid: Vec<Vec<Tile>>,
    initial: Vec<Vec<Tile>>,
    shack: (i32, i32),
    enemy_shack: (i32, i32),
    raw_drops: Vec<(i32, i32)>,
    raw_mines: Vec<(i32, i32)>,
}

/// Reads the rows of the map: two copies of it, the last shack of each player (the origin
/// where there is none), and the on-board positions next to our shack and next to the mines.
#[verifier::spinoff_prover]
fn scan_rows(lines: &Vec<String>, width: i32, height: i32) -> (sc: Scan)
    requires
        rows_ok(map_rows(lines@), width, height),
    ensures
        shaped(sc.grid@, width, height),
        shaped(sc.initial@, width, height),
        forall|yy: int, x: int| 0 <= yy < height && 0 <= x < width ==> (#[trigger] sc.grid@[yy]@[x]).kind() == kind_of_char(map_rows(lines@)[yy][x])
            && sc.grid@[yy]@[x].ents() == Seq::<crate::grid::Entity>::empty()
            && sc.initial@[yy]@[x].kind() == kind_of_char(map_rows(lines@)[yy][x])
            && sc.initial@[yy]@[x].ents() == Seq::<crate::grid::Entity>::empty(),
        sc.shack == last_in_rows(map_rows(lines@), '0', width, height as int),
        sc.enemy_shack == last_in_rows(map_rows(lines@), '1', width, height as int),
        inside(sc.shack, height, width),
        inside(sc.enemy_shack, height, width),
        sc.raw_drops@ == near_in_rows(map_rows(lines@), '0', height, width, height as int),
        sc.raw_mines@ == near_in_rows(map_rows(lines@), '+', height, width, height as int),
        all_inside(sc.raw_drops@, height, width),
        all_inside(sc.raw_mines@, height, width),
{
        let ghost rows = map_rows(lines@);
        let mut raw_mine_positions: Vec<(i32, i32)> = Vec::new();
        let mut shack_position: (i32, i32) = (0, 0);
        let mut enemy_shack_position: (i32, i32) = (0, 0);
        let mut raw_drop_positions: Vec<(i32, i32)> = Vec::new();
        let mut grid: Vec<Vec<Tile>> = Vec::new();
        let mut initial: Vec<Vec<Tile>> = Vec::new();
        let mut y: usize = 0;
        while y < lines.len()
            invariant
                rows_ok(rows, width, height),
                rows == map_rows(lines@),
                lines@.len() == height,
                y <= lines@.len(),
                grid@.len() == y && initial@.len() == y,
                forall|yy: int| 0 <= yy < y ==> (#[trigger] grid@[yy])@.len() == width && initial@[yy]@.len() == width,
                forall|yy: int, x: int| 0 <= yy < y && 0 <= x < width ==> (#[trigger] grid@[yy]@[x]).kind() == kind_of_char(rows[yy][x])
                    && grid@[yy]@[x].ents() == Seq::<crate::grid::Entity>::empty()
                    && initial@[yy]@[x].kind() == kind_of_char(rows[yy][x])
                    && initial@[yy]@[x].ents() == Seq::<crate::grid::Entity>::empty(),
                shack_position == last_in_rows(rows, '0', width, y as int),
                enemy_shack_position == last_in_rows(rows, '1', width, y as int),
                raw_drop_positions@ == near_in_rows(rows, '0', height, width, y as int),
                raw_mine_positions@ == near_in_rows(rows, '+', height, width, y as int),
            decreases lines@.len() - y,
        {
            let cs = chars_of(lines[y].as_str());
            let line = strip_newlines(&cs);
            assert(line@ == rows[y as int]);
            let mut row: Vec<Tile> = Vec::new();
            let mut row0: Vec<Tile> = Vec::new();
            let mut x: usize = 0;
            let wu = width as usize;
            while x < wu
                invariant
                    rows_ok(rows, width, height),
                    rows == map_rows(lines@),
                    y < height,
                    line@ == rows[y as int],
                    line@.len() >= width,
                    wu == width,
                    x <= wu,
                    row@.len() == x && row0@.len() == x,
                    forall|xx: int| 0 <= xx < x ==> (#[trigger] row@[xx]).kind() == kind_of_char(line@[xx])
                        && row@[xx].ents() == Seq::<crate::grid::Entity>::empty()
                        && row0@[xx].kind() == kind_of_char(line@[xx])
                        && row0@[xx].ents() == Seq::<crate::grid::Entity>::empty(),
                    shack_position == last_in_row(line@, y as int, '0', x as int, last_in_rows(rows, '0', width, y as int)),
                    enemy_shack_position == last_in_row(line@, y as int, '1', x as int, last_in_rows(rows, '1', width, y as int)),
                    raw_drop_positions@ == near_in_rows(rows, '0', height, width, y as int) + near_in_row(line@, y as int, '0', height, width, x as int),
                    raw_mine_positions@ == near_in_rows(rows, '+', height, width, y as int) + near_in_row(line@, y as int, '+', height, width, x as int),
                decreases wu - x,
            {
                let c = line[x];
                let pos_x = x as i32;
                let pos_y = y as i32;
                assert(is_tile_char(rows[y as int][x as int]));
                if c == '0' {
                    shack_position = (pos_x, pos_y);
                    let around = around_of(pos_x, pos_y);
                    safe_push_positions(&around, &mut raw_drop_positions, height, width);
                }
                if c == '1' {
                    enemy_shack_position = (pos_x, pos_y);
                }
                if c == '+' {
                    let around = around_of(pos_x, pos_y);
                    safe_push_positions(&around, &mut raw_mine_positions, height, width);
                }
                row.push(Tile::from_char(c));
                row0.push(Tile::from_char(c));
                proof {
                    assert(raw_drop_positions@ =~= near_in_rows(rows, '0', height, width, y as int) + near_in_row(line@, y as int, '0', height, width, x + 1));
                    assert(raw_mine_positions@ =~= near_in_rows(rows, '+', height, width, y as int) + near_in_row(line@, y as int, '+', height, width, x + 1));
                }
                x = x + 1;
            }
            assert(row@.len() == width && row0@.len() == width);
            grid.push(row);
            initial.push(row0);
            proof {
                assert forall|yy: int, xx: int| 0 <= yy < y + 1 && 0 <= xx < width implies (#[trigger] grid@[yy]@[xx]).kind() == kind_of_char(rows[yy][xx])
                    && grid@[yy]@[xx].ents() == Seq::<crate::grid::Entity>::empty()
                    && initial@[yy]@[xx].kind() == kind_of_char(rows[yy][xx])
                    && initial@[yy]@[xx].ents() == Seq::<crate::grid::Entity>::empty() by {
                    if yy < y {
                        assert(grid@[yy] == grid@.drop_last()[yy]);
                        assert(initial@[yy] == initial@.drop_last()[yy]);
                    }
                }
                assert forall|yy: int| 0 <= yy < y + 1 implies (#[trigger] grid@[yy])@.len() == width && initial@[yy]@.len() == width by {
                    if yy < y {
                        assert(grid@[yy] == grid@.drop_last()[yy]);
                        assert(initial@[yy] == initial@.drop_last()[yy]);
                    } else {
                        assert(grid@[yy] == row && initial@[yy] == row0);
                    }
                }
                assert(raw_drop_positions@ =~= near_in_rows(rows, '0', height, width, y + 1));
                assert(raw_mine_positions@ =~= near_in_rows(rows, '+', height, width, y + 1));
            }
            y = y + 1;
        }
        proof {
            lemma_near_in_rows(rows, '0', height, width, height as int);
            lemma_near_in_rows(rows, '+', height, width, height as int);
            lemma_last_in_rows(rows, '0', height as int, height, width);
            lemma_last_in_rows(rows, '1', height as int, height, width);
            assert forall|yy: int| 0 <= yy < height implies (#[trigger] initial@[yy])@.len() == width by {
                assert(grid@[yy]@.len() == width);
            }
        }
        Scan {
            grid,
            initial,
            shack: shack_position,
            enemy_shack: enemy_shack_position,
            raw_drops: raw_drop_positions,
            raw_mines: raw_mine_positions,
        }
}

impl Grid {
    /// The board read from its header line (width and height) and its rows of map
    /// characters: the map twice (as read, and for this turn), the last shack of each player
    /// (the origin where there is none), the grass tiles next to our shack, and among the
    /// grass tiles next to a mine the first one closest to a drop tile, with that distance.
    pub fn new(header: &String, lines: &Vec<String>) -> (g: Grid)
        requires
            map_ok(header@, lines@),
        ensures
            ({
                let t = split_spaces(header@);
                let w = fval(t, 0);
                let h = fval(t, 1);
                let rows = map_rows(lines@);
                &&& g.width == w && g.height == h
                &&& g.well_formed()
                &&& forall|p: (i32, i32)| g.on_board(p) ==> (#[trigger] g.initial_tile(p)).kind() == kind_of_char(rows[p.1 as int][p.0 as int])
                    && g.initial_tile(p).ents() == Seq::<crate::grid::Entity>::empty()
                &&& forall|p: (i32, i32)| g.on_board(p) ==> (#[trigger] g.tile(p)).kind() == kind_of_char(rows[p.1 as int][p.0 as int])
                    && g.tile(p).ents() == Seq::<crate::grid::Entity>::empty()
                &&& g.shack_position == last_in_rows(rows, '0', w, h as int)
                &&& g.enemy_shack_position == last_in_rows(rows, '1', w, h as int)
                &&& g.drop_positions@ == map_drops(rows, h, w)
                &&& g.mine_position == map_mine(rows, h, w)
                &&& g.mine_dist == min_dist_to(map_drops(rows, h, w), g.mine_position)
            }),
    {
        let hcs = chars_of(header.as_str());
        let inputs = split_chars(&hcs);
        let ghost toks = split_spaces(header@);
        assert(char_views(inputs@) == toks);
        assert(forall|k: int| 0 <= k < inputs@.len() ==> #[trigger] inputs@[k]@ == toks[k]);
        let width = field_at(&inputs, 0);
        let height = field_at(&inputs, 1);
        let ghost rows = map_rows(lines@);
        let sc = scan_rows(lines, width, height);
        let Scan {
            grid,
            initial,
            shack: shack_position,
            enemy_shack: enemy_shack_position,
            raw_drops: raw_drop_positions,
            raw_mines: raw_mine_positions,
        } = sc;
        let drop_positions = keep_grass(&raw_drop_positions, &grid, Ghost(rows), height, width);
        let mine_positions = keep_grass(&raw_mine_positions, &grid, Ghost(rows), height, width);
        proof {
            lemma_kept_inside(near_in_rows(rows, '0', height, width, height as int), grass_at(rows), height, width);
            lemma_kept_inside(near_in_rows(rows, '+', height, width, height as int), grass_at(rows), height, width);
        }
        // The first mine tile closest to a drop tile.
        let ghost all = |m: (i32, i32)| true;
        let ghost key = to_drops(drop_positions@);
        let mut keys: Vec<Option<i32>> = Vec::new();
        let mut j: usize = 0;
        while j < mine_positions.len()
            invariant
                all_inside(mine_positions@, height, width),
                all_inside(drop_positions@, height, width),
                drop_positions@.len() > 0,
                0 < width && 0 < height && width * height <= i32::MAX,
                all == (|m: (i32, i32)| true),
                key == to_drops(drop_positions@),
                j <= mine_positions@.len(),
                keys_agree(mine_positions@.take(j as int), all, key, keys@),
            decreases mine_positions@.len() - j,
        {
            let m = mine_positions[j];
            assert(inside(mine_positions@[j as int], height, width));
            assert forall|k: int| 0 <= k < drop_positions@.len() implies crate::util::dist_ok(#[trigger] drop_positions@[k], m) by {
                assert(inside(drop_positions@[k], height, width));
                lemma_dist_on_board(drop_positions@[k], m, height, width);
            }
            keys.push(Some(min_distance(&drop_positions, m)));
            assert(mine_positions@.take(j + 1) == mine_positions@.take(j as int).push(m));
            j = j + 1;
        }
        assert(mine_positions@.take(mine_positions@.len() as int) == mine_positions@);
        let (mine_dist, mine_position) = match first_min_index(&keys) {
            Some(i) => {
                proof {
                    lemma_first_min_agree(mine_positions@, all, key, keys@, i as int);
                    lemma_first_min_at(mine_positions@, all, key, i as int);
                }
                (keys[i].unwrap(), mine_positions[i])
            },
            None => {
                assert(keys@[0] is None);
                (0, (0, 0))
            },
        };
        let g = Grid {
            initial_grid: initial,
            grid,
            shack_position,
            enemy_shack_position,
            drop_positions,
            mine_position,
            mine_dist,
            width,
            height,
        };
        proof {
            assert(shaped(g.grid@, width, height));
            assert forall|yy: int| 0 <= yy < height implies (#[trigger] g.initial_grid@[yy])@.len() == width by {
                assert(g.grid@[yy]@.len() == width);
            }
            assert(shaped(g.initial_grid@, width, height));
            assert(g.on_board(g.mine_position)) by {
                let i = first_min_at(mine_positions@, all, key)->0;
                assert(inside(mine_positions@[i], height, width));
            }
            assert(g.drop_positions@ == map_drops(rows, height, width));
            assert(g.mine_position == map_mine(rows, height, width));
            assert(g.well_formed());
            assert forall|p: (i32, i32)| g.on_board(p) implies (#[trigger] g.initial_tile(p)).kind() == kind_of_char(rows[p.1 as int][p.0 as int])
                && g.initial_tile(p).ents() == Seq::<crate::grid::Entity>::empty() by {
                assert(0 <= p.1 < height && 0 <= p.0 < width);
                assert(g.grid@[p.1 as int]@[p.0 as int].kind() == kind_of_char(rows[p.1 as int][p.0 as int]));
            }
            assert forall|p: (i32, i32)| g.on_board(p) implies (#[trigger] g.tile(p)).kind() == kind_of_char(rows[p.1 as int][p.0 as int])
                && g.tile(p).ents() == Seq::<crate::grid::Entity>::empty() by {
                assert(0 <= p.1 < height && 0 <= p.0 < width);
            }
        }
        g
    }
}

/// The width and the height a header line gives, where it holds two `i32` fields.
pub fn map_size(header: &String) -> (r: Option<(i32, i32)>)
    ensures
        match r {
            Some((w, h)) => fields_ok(split_spaces(header@), 0, 2)
                && w == fval(split_spaces(header@), 0) && h == fval(split_spaces(header@), 1),
            None => !fields_ok(split_spaces(header@), 0, 2),
        },
{
    let hcs = chars_of(header.as_str());
    let inputs = split_chars(&hcs);
    let ghost toks = split_spaces(header@);
    assert(char_views(inputs@) == toks);
    if !fields_hold_ints(&inputs, 0, 2) {
        return None;
    }
    assert(forall|k: int| 0 <= k < inputs@.len() ==> #[trigger] inputs@[k]@ == toks[k]);
    Some((field_at(&inputs, 0), field_at(&inputs, 1)))
}

/// The lines' rows make a board of `width` by `height` tiles (see `rows_ok`).
fn rows_valid(lines: &Vec<String>, width: i32, height: i32) -> (b: bool)
    ensures
        b == rows_ok(map_rows(lines@), width, height),
{
    if width <= 0 || height <= 0 {
        return false;
    }
    assert(0 < width * height <= 0x4000_0000_0000_0000) by (nonlinear_arith)
        requires
            0 < width < 0x8000_0000,
            0 < height < 0x8000_0000;
    let size: i64 = (width as i64) * (height as i64);
    if size > 0x7fff_ffff {
        return false;
    }
    if lines.len() != height as usize {
        return false;
    }
    let ghost rows = map_rows(lines@);
    let mut y: usize = 0;
    while y < lines.len()
        invariant
            rows == map_rows(lines@),
            0 < width && 0 < height && width * height <= i32::MAX,
            lines@.len() == height,
            y <= lines@.len(),
            forall|yy: int| 0 <= yy < y ==> (#[trigger] rows[yy]).len() >= width,
            forall|yy: int, x: int| 0 <= yy < y && 0 <= x < width ==> is_tile_char(#[trigger] rows[yy][x]),
        decreases lines@.len() - y,
    {
        let cs = chars_of(lines[y].as_str());
        let line = strip_newlines(&cs);
        assert(line@ == rows[y as int]);
        if line.len() < width as usize {
            return false;
        }
        let mut x: usize = 0;
        let wu = width as usize;
        while x < wu
            invariant
                rows == map_rows(lines@),
                y < lines@.len(),
                line@ == rows[y as int],
                line@.len() >= width,
                wu == width,
                x <= wu,
                forall|xx: int| 0 <= xx < x ==> is_tile_char(#[trigger] rows[y as int][xx]),
            decreases wu - x,
        {
            let c = line[x];
            if !(c == '.' || c == '0' || c == '1' || c == '~' || c == '#' || c == '+') {
                assert(!is_tile_char(rows[y as int][x as int]));
                return false;
            }
            x = x + 1;
        }
        y = y + 1;
    }
    true
}

/// The header and the lines can be read as a board (see `map_ok`).
pub fn map_valid(header: &String, lines: &Vec<String>) -> (b: bool)
    ensures
        b == map_ok(header@, lines@),
{
    let hcs = chars_of(header.as_str());
    let inputs = split_chars(&hcs);
    let ghost toks = split_spaces(header@);
    assert(char_views(inputs@) == toks);
    if !fields_hold_ints(&inputs, 0, 2) {
        return false;
    }
    assert(forall|k: int| 0 <= k < inputs@.len() ==> #[trigger] inputs@[k]@ == toks[k]);
    let width = field_at(&inputs, 0);
    let height = field_at(&inputs, 1);
    if !rows_valid(lines, width, height) {
        return false;
    }
    let ghost rows = map_rows(lines@);
    let sc = scan_rows(lines, width, height);
    let drops = keep_grass(&sc.raw_drops, &sc.grid, Ghost(rows), height, width);
    let mines = keep_grass(&sc.raw_mines, &sc.grid, Ghost(rows), height, width);
    drops.len() > 0 && mines.len() > 0
}

} // verus!
