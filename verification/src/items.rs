//! Item kinds, spawner configs, and where the initial items of a world go.
use vstd::prelude::*;

use crate::grid::Grid;
use crate::tile::Tile;

verus! {

/// The kinds of collectable item.
#[derive(Clone, Copy, PartialEq, Eq, Debug, Structural)]
pub enum ItemKind {
    Gold,
    Health,
    Ammo,
    SpeedBoost,
}

/// How many items of a kind the spawner keeps on the map at most.
#[derive(Clone, Copy, PartialEq, Eq, Debug, Structural)]
pub struct ItemSpawnConfig {
    pub kind: ItemKind,
    pub max_on_map: usize,
}

/// The initial item count of each kind, from the densities of a config.
#[derive(Clone, Copy, PartialEq, Eq, Debug, Structural)]
pub struct ItemCounts {
    pub gold: usize,
    pub health: usize,
    pub ammo: usize,
    pub speed_boost: usize,
}

/// The spawner config of a kind with `initial` items, when there are any.
pub open spec fn spawn_entry(kind: ItemKind, initial: usize) -> Seq<ItemSpawnConfig> {
    if initial > 0 {
        seq![ItemSpawnConfig { kind, max_on_map: (if initial * 2 >= 1 { initial * 2 } else { 1 }) as usize }]
    } else {
        Seq::empty()
    }
}

fn push_entry(out: &mut Vec<ItemSpawnConfig>, kind: ItemKind, initial: usize)
    requires
        initial <= usize::MAX / 2,
    ensures
        final(out)@ == old(out)@ + spawn_entry(kind, initial),
{
    if initial > 0 {
        let doubled: usize = initial * 2;
        let cap: usize = if doubled >= 1 { doubled } else { 1 };
        out.push(ItemSpawnConfig { kind, max_on_map: cap });
    }
    assert(final(out)@ =~= old(out)@ + spawn_entry(kind, initial));
}

/// One spawner config per kind that starts with items, in the order gold,
/// health, ammo, speed boost; each keeps up to twice its initial count.
pub fn spawn_configs(counts: ItemCounts) -> (out: Vec<ItemSpawnConfig>)
    requires
        counts.gold <= usize::MAX / 2,
        counts.health <= usize::MAX / 2,
        counts.ammo <= usize::MAX / 2,
        counts.speed_boost <= usize::MAX / 2,
    ensures
        out@ == spawn_entry(ItemKind::Gold, counts.gold) + spawn_entry(ItemKind::Health, counts.health)
            + spawn_entry(ItemKind::Ammo, counts.ammo) + spawn_entry(
            ItemKind::SpeedBoost,
            counts.speed_boost,
        ),
{
    let mut out: Vec<ItemSpawnConfig> = Vec::new();
    push_entry(&mut out, ItemKind::Gold, counts.gold);
    push_entry(&mut out, ItemKind::Health, counts.health);
    push_entry(&mut out, ItemKind::Ammo, counts.ammo);
    push_entry(&mut out, ItemKind::SpeedBoost, counts.speed_boost);
    assert(out@ =~= spawn_entry(ItemKind::Gold, counts.gold) + spawn_entry(ItemKind::Health, counts.health)
        + spawn_entry(ItemKind::Ammo, counts.ammo) + spawn_entry(ItemKind::SpeedBoost, counts.speed_boost));
    out
}

/// A spawner with a fixed interval, as a hand-made map file describes it.
#[derive(Clone, Copy, PartialEq, Eq, Debug, Structural)]
pub struct TimedSpawnConfig {
    pub kind: ItemKind,
    pub interval_ticks: u32,
    pub max_on_map: usize,
}

/// A spawner entry of a hand-made map file.
pub struct ItemSpawnerRon {
    pub kind: String,
    pub interval_ticks: u32,
    pub max_on_map: usize,
    pub initial: usize,
}

impl ItemSpawnerRon {
    /// The spawner config, for the kinds a map file may name (only "Gold").
    pub fn to_config(&self) -> (c: Option<TimedSpawnConfig>)
        ensures
            self.kind@ == "Gold"@ ==> c == Some(
                TimedSpawnConfig {
                    kind: ItemKind::Gold,
                    interval_ticks: self.interval_ticks,
                    max_on_map: self.max_on_map,
                },
            ),
            self.kind@ != "Gold"@ ==> c is None,
    {
        let gold = "Gold".to_owned();
        if self.kind == gold {
            Some(
                TimedSpawnConfig {
                    kind: ItemKind::Gold,
                    interval_ticks: self.interval_ticks,
                    max_on_map: self.max_on_map,
                },
            )
        } else {
            None
        }
    }
}

/// A uniformly random integer in `lo..hi`, from the thread-local generator.
#[verifier::external_body]
fn random_in(lo: i32, hi: i32) -> (r: i32)
    requires
        lo < hi,
    ensures
        lo <= r < hi,
{
    rand::random_range(lo..hi)
}

/// How many items of a spawner go on the map at the start: half its cap, at
/// least one.
pub open spec fn initial_count(c: ItemSpawnConfig) -> int {
    if c.max_on_map / 2 >= 1 {
        (c.max_on_map / 2) as int
    } else {
        1
    }
}

/// The cell `c` lies on the grid and is free.
pub open spec fn is_free_cell(grid: Grid, c: (i32, i32)) -> bool {
    grid.contains(c.0 as int, c.1 as int) && grid.at(c.0 as int, c.1 as int) == Tile::Free
}

/// Where `initial` items go, given the cells drawn in order: the drawn cells
/// that are on the grid and free, in draw order, cut after `initial` of them.
pub open spec fn spec_place(grid: Grid, initial: int, draws: Seq<(i32, i32)>) -> Seq<(i32, i32)> {
    let f = draws.filter(|c: (i32, i32)| is_free_cell(grid, c));
    if f.len() <= initial {
        f
    } else {
        f.take(initial)
    }
}

/// A possible outcome of the random draws for `initial` items: 200 draws per
/// item, each a cell on the grid.
pub open spec fn possible_draws(grid: Grid, initial: int, draws: Seq<(i32, i32)>) -> bool {
    &&& draws.len() == 200 * initial
    &&& forall|j: int| 0 <= j < draws.len() ==> grid.contains((#[trigger] draws[j]).0 as int, draws[j].1 as int)
}

/// `cells` is where `initial` items go for some possible outcome of the draws.
pub open spec fn placed_from_draws(grid: Grid, initial: int, cells: Seq<(i32, i32)>) -> bool {
    exists|d: Seq<(i32, i32)>| possible_draws(grid, initial, d) && cells == #[trigger] spec_place(grid, initial, d)
}

/// One more draw: a free cell is taken while fewer than `initial` are placed.
pub proof fn lemma_place_push(grid: Grid, initial: int, draws: Seq<(i32, i32)>, c: (i32, i32))
    requires
        initial >= 0,
    ensures
        spec_place(grid, initial, draws.push(c)) == if spec_place(grid, initial, draws).len() < initial
            && is_free_cell(grid, c) {
            spec_place(grid, initial, draws).push(c)
        } else {
            spec_place(grid, initial, draws)
        },
        spec_place(grid, initial, draws).len() <= initial,
{
    let p = |x: (i32, i32)| is_free_cell(grid, x);
    draws.lemma_filter_push(c, p);
    let f = draws.filter(p);
    let g = draws.push(c).filter(p);
    if f.len() <= initial {
        if p(c) && f.len() == initial {
            assert(g.take(initial) =~= f);
        }
    } else {
        if p(c) {
            assert(g.take(initial) =~= f.take(initial));
        }
    }
}

/// Items go to the drawn cells one draw at a time: with no draws nothing is
/// placed; one more draw adds its cell, at the end, exactly when fewer than
/// `initial` items are placed and the cell lies on the grid and is free; and
/// never more than `initial` items are placed. A spawner's initial count is
/// half its cap, rounded down, and at least one.
pub proof fn law_place_takes_free_draws_in_order(
    grid: Grid,
    initial: int,
    draws: Seq<(i32, i32)>,
    c: (i32, i32),
    cfg: ItemSpawnConfig,
)
    requires
        initial >= 0,
    ensures
        spec_place(grid, initial, Seq::empty()) == Seq::<(i32, i32)>::empty(),
        spec_place(grid, initial, draws).len() <= initial,
        ({
            let before = spec_place(grid, initial, draws);
            let free = 0 <= c.0 < grid.width && 0 <= c.1 < grid.height && grid.at(c.0 as int, c.1 as int)
                == Tile::Free;
            &&& (before.len() < initial && free ==> spec_place(grid, initial, draws.push(c)) == before.push(c))
            &&& (!(before.len() < initial && free) ==> spec_place(grid, initial, draws.push(c)) == before)
        }),
        initial_count(cfg) >= 1,
        cfg.max_on_map >= 2 ==> 2 * initial_count(cfg) <= cfg.max_on_map <= 2 * initial_count(cfg) + 1,
        cfg.max_on_map < 2 ==> initial_count(cfg) == 1,
{
    lemma_place_push(grid, initial, draws, c);
    let e = Seq::<(i32, i32)>::empty();
    assert(e.filter(|x: (i32, i32)| is_free_cell(grid, x)) =~= e) by {
        broadcast use vstd::seq_lib::group_filter_ensures;
    }
}

/// Where `initial` items go, given the cells drawn for them: each drawn cell
/// that is on the grid and free, in order, until `initial` are placed.
pub fn place_item_cells(grid: &Grid, initial: usize, draws: &Vec<(i32, i32)>) -> (cells: Vec<(i32, i32)>)
    requires
        grid.wf(),
    ensures
        cells@ == spec_place(*grid, initial as int, draws@),
{
    let n: usize = draws.len();
    let mut cells: Vec<(i32, i32)> = Vec::new();
    let mut i: usize = 0;
    while i < n
        invariant
            grid.wf(),
            n == draws@.len(),
            i <= n,
            cells@ == spec_place(*grid, initial as int, draws@.take(i as int)),
        decreases n - i,
    {
        let c: (i32, i32) = draws[i];
        proof {
            assert(draws@.take(i + 1) =~= draws@.take(i as int).push(c));
            lemma_place_push(*grid, initial as int, draws@.take(i as int), c);
        }
        if cells.len() < initial && grid.get(c.0, c.1) == Some(Tile::Free) {
            cells.push(c);
        }
        i = i + 1;
    }
    assert(draws@.take(n as int) =~= draws@);
    cells
}

/// Every cell that `spec_place` yields is on the grid and free.
proof fn lemma_placed_cells_free(grid: Grid, initial: int, draws: Seq<(i32, i32)>)
    requires
        initial >= 0,
    ensures
        forall|j: int|
            0 <= j < spec_place(grid, initial, draws).len() ==> is_free_cell(
                grid,
                #[trigger] spec_place(grid, initial, draws)[j],
            ),
{
    broadcast use vstd::seq_lib::group_filter_ensures;

    let f = draws.filter(|c: (i32, i32)| is_free_cell(grid, c));
    assert forall|j: int| 0 <= j < spec_place(grid, initial, draws).len() implies is_free_cell(
        grid,
        #[trigger] spec_place(grid, initial, draws)[j],
    ) by {
        assert(j < f.len());
        assert(spec_place(grid, initial, draws)[j] == f[j]);
        assert(f.contains(f[j]));
    }
}

/// No free cell is ruled out: for every free cell of the grid there is a
/// possible outcome of the draws that puts an item on it.
pub proof fn law_every_free_cell_can_receive_an_item(grid: Grid, initial: int, c: (i32, i32))
    requires
        initial >= 1,
        is_free_cell(grid, c),
    ensures
        exists|cells: Seq<(i32, i32)>| placed_from_draws(grid, initial, cells) && cells.contains(c),
{
    broadcast use vstd::seq_lib::group_filter_ensures;

    let d = Seq::new((200 * initial) as nat, |j: int| c);
    assert(possible_draws(grid, initial, d));
    let f = d.filter(|x: (i32, i32)| is_free_cell(grid, x));
    assert(d[0] == c);
    assert(f.contains(c));
    let cells = spec_place(grid, initial, d);
    if f.len() > initial {
        assert(f.contains(f[0]));
        d.lemma_filter_contains_rev(|x: (i32, i32)| is_free_cell(grid, x), f[0]);
        assert(d.contains(f[0]));
        assert(cells[0] == f[0]);
    }
    assert(cells.contains(c));
    assert(placed_from_draws(grid, initial, cells));
}

/// `count` random cells of a `w` × `h` grid, in draw order.
fn draw_cells(w: i32, h: i32, count: usize) -> (draws: Vec<(i32, i32)>)
    requires
        1 <= w,
        1 <= h,
    ensures
        draws@.len() == count,
        forall|j: int| 0 <= j < count ==> 0 <= (#[trigger] draws@[j]).0 < w && 0 <= draws@[j].1 < h,
{
    let mut draws: Vec<(i32, i32)> = Vec::new();
    let mut i: usize = 0;
    while i < count
        invariant
            1 <= w,
            1 <= h,
            i <= count,
            draws@.len() == i,
            forall|j: int| 0 <= j < i ==> 0 <= (#[trigger] draws@[j]).0 < w && 0 <= draws@[j].1 < h,
        decreases count - i,
    {
        let x: i32 = random_in(0, w);
        let y: i32 = random_in(0, h);
        draws.push((x, y));
        i = i + 1;
    }
    draws
}

/// Random free cells for each spawner's initial items. For each spawner with
/// an initial count of n (half its cap, at least one), 200 × n random cells of
/// the grid are drawn, and `place_item_cells` takes the free ones in draw
/// order until n are placed: the group is `spec_place` of some possible
/// outcome of the draws.
pub fn initial_item_cells(grid: &Grid, cfgs: &Vec<ItemSpawnConfig>) -> (groups: Vec<Vec<(i32, i32)>>)
    requires
        grid.wf(),
        1 <= grid.width <= i32::MAX,
        1 <= grid.height <= i32::MAX,
        forall|k: int| 0 <= k < cfgs@.len() ==> initial_count(#[trigger] cfgs@[k]) * 200 <= usize::MAX,
    ensures
        groups@.len() == cfgs@.len(),
        forall|k: int|
            0 <= k < groups@.len() ==> placed_from_draws(*grid, initial_count(cfgs@[k]), (#[trigger] groups@[k])@),
        forall|k: int| 0 <= k < groups@.len() ==> (#[trigger] groups@[k])@.len() <= initial_count(cfgs@[k]),
        forall|k: int, j: int|
            0 <= k < groups@.len() && 0 <= j < groups@[k]@.len() ==> is_free_cell(*grid, #[trigger] groups@[k]@[j]),
{
    let w: i32 = grid.width as i32;
    let h: i32 = grid.height as i32;
    let n: usize = cfgs.len();
    let mut groups: Vec<Vec<(i32, i32)>> = Vec::new();
    let mut k: usize = 0;
    while k < n
        invariant
            n == cfgs@.len(),
            grid.wf(),
            w == grid.width,
            h == grid.height,
            1 <= w,
            1 <= h,
            k <= n,
            forall|q: int| 0 <= q < cfgs@.len() ==> initial_count(#[trigger] cfgs@[q]) * 200 <= usize::MAX,
            groups@.len() == k,
            forall|q: int|
                0 <= q < k ==> placed_from_draws(*grid, initial_count(cfgs@[q]), (#[trigger] groups@[q])@),
            forall|q: int| 0 <= q < k ==> (#[trigger] groups@[q])@.len() <= initial_count(cfgs@[q]),
            forall|q: int, j: int|
                0 <= q < k && 0 <= j < groups@[q]@.len() ==> is_free_cell(*grid, #[trigger] groups@[q]@[j]),
        decreases n - k,
    {
        let half: usize = cfgs[k].max_on_map / 2;
        let initial: usize = if half >= 1 { half } else { 1 };
        assert(initial == initial_count(cfgs@[k as int]));
        let draws = draw_cells(w, h, initial * 200);
        let cells = place_item_cells(grid, initial, &draws);
        proof {
            assert(possible_draws(*grid, initial as int, draws@));
            lemma_place_push(*grid, initial as int, draws@, (0i32, 0i32));
            lemma_placed_cells_free(*grid, initial as int, draws@);
        }
        let ghost gk = cells@;
        groups.push(cells);
        proof {
            assert(groups@[k as int]@ == gk);
        }
        k = k + 1;
    }
    groups
}

} // verus!
