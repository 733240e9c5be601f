//! The scripted controllers that choose agent 0's action each tick when no
//! learned policy drives it: a pseudo-random one, a behaviour tree, and the
//! world-state facts a goal planner works from.
use vstd::prelude::*;

use crate::ranking::{is_index_permutation, key_before, stable_order_by_key};

verus! {

/// Which controller picks agent 0's action.
#[derive(Clone, Copy, PartialEq, Eq, Debug, Structural)]
pub enum PolicyMode {
    Onnx,
    Random,
    BehaviorTree,
    Goap,
}

impl Default for PolicyMode {
    fn default() -> (m: Self)
        ensures
            m == PolicyMode::Onnx,
    {
        PolicyMode::Onnx
    }
}

impl PolicyMode {
    pub open spec fn spec_next(self) -> PolicyMode {
        match self {
            PolicyMode::Onnx => PolicyMode::Random,
            PolicyMode::Random => PolicyMode::BehaviorTree,
            PolicyMode::BehaviorTree => PolicyMode::Onnx,
            PolicyMode::Goap => PolicyMode::Onnx,
        }
    }

    pub open spec fn spec_label(self) -> Seq<char> {
        match self {
            PolicyMode::Onnx => "ONNX"@,
            PolicyMode::Random => "RANDOM"@,
            PolicyMode::BehaviorTree => "BT"@,
            PolicyMode::Goap => "GOAP"@,
        }
    }

    /// The mode the policy key switches to.
    pub fn next(self) -> (m: Self)
        ensures
            m == self.spec_next(),
    {
        match self {
            PolicyMode::Onnx => PolicyMode::Random,
            PolicyMode::Random => PolicyMode::BehaviorTree,
            PolicyMode::BehaviorTree => PolicyMode::Onnx,
            PolicyMode::Goap => PolicyMode::Onnx,
        }
    }

    /// The HUD label of the mode.
    pub fn label(self) -> (s: &'static str)
        ensures
            s@ == self.spec_label(),
    {
        match self {
            PolicyMode::Onnx => "ONNX",
            PolicyMode::Random => "RANDOM",
            PolicyMode::BehaviorTree => "BT",
            PolicyMode::Goap => "GOAP",
        }
    }

    /// The mode after (re)loading: the learned policy when one loaded, the
    /// behaviour tree otherwise.
    pub fn after_load(policy_loaded: bool) -> (m: Self)
        ensures
            m == if policy_loaded {
                PolicyMode::Onnx
            } else {
                PolicyMode::BehaviorTree
            },
    {
        if policy_loaded {
            PolicyMode::Onnx
        } else {
            PolicyMode::BehaviorTree
        }
    }
}

/// The policy key cycles ONNX → RANDOM → BT → ONNX: three presses return to
/// the starting mode through three different modes. The planner mode is not
/// on the cycle; the key leaves it for ONNX.
pub proof fn law_policy_mode_cycle(m: PolicyMode)
    ensures
        m != PolicyMode::Goap ==> m.spec_next().spec_next().spec_next() == m,
        m != PolicyMode::Goap ==> m != m.spec_next() && m != m.spec_next().spec_next()
            && m.spec_next() != m.spec_next().spec_next(),
        m.spec_next() != PolicyMode::Goap,
        PolicyMode::Goap.spec_next() == PolicyMode::Onnx,
{
}

/// The action numbering of the simulation: actions `0..cluster_k` navigate to
/// a map region, `cluster_k` to the own base, `cluster_k + 1` to the nearest
/// health pack; `wait` does nothing; `size` actions in all.
#[derive(Clone, Copy, PartialEq, Eq, Debug, Structural)]
pub struct ActionCodes {
    pub cluster_k: u32,
    pub wait: u32,
    pub size: u32,
}

impl ActionCodes {
    pub open spec fn navigate_to_base(self) -> u32 {
        self.cluster_k
    }

    pub open spec fn navigate_to_health(self) -> int {
        self.cluster_k + 1
    }
}

/// Multiplier of the pseudo-random controller's linear congruential step.
pub const LCG_MUL: u64 = 6364136223846793005;

pub open spec fn spec_random_action(tick: u64, size: u32) -> u32 {
    let x = ((tick as int * LCG_MUL as int + 1) % 0x1_0000_0000_0000_0000) as u64;
    (((x >> 38u64) as u32) % size) as u32
}

/// The pseudo-random controller: a different action every tick from the tick
/// counter alone (one LCG step, high bits kept), reduced to the action range.
pub fn random_action(tick: u64, size: u32) -> (a: u32)
    requires
        size > 0,
    ensures
        a == spec_random_action(tick, size),
        a < size,
{
    let x: u64 = tick.wrapping_mul(LCG_MUL).wrapping_add(1);
    proof {
        assert(x == ((tick as int * LCG_MUL as int + 1) % 0x1_0000_0000_0000_0000) as u64) by {
            let m = (tick as int * LCG_MUL as int) % 0x1_0000_0000_0000_0000;
            assert(0 <= m < 0x1_0000_0000_0000_0000);
            assert((m + 1) % 0x1_0000_0000_0000_0000 == (tick as int * LCG_MUL as int + 1)
                % 0x1_0000_0000_0000_0000) by (nonlinear_arith)
                requires
                    m == (tick as int * LCG_MUL as int) % 0x1_0000_0000_0000_0000,
            ;
        }
    }
    ((x >> 38) as u32) % size
}

/// The nearest region: the smallest gold distance, the lowest region index
/// among equals; `None` when no region holds gold.
pub open spec fn is_nearest_cluster(dists: Seq<Option<i32>>, k: int) -> bool {
    &&& 0 <= k < dists.len()
    &&& dists[k] is Some
    &&& forall|j: int|
        0 <= j < dists.len() && dists[j] is Some ==> dists[k]->0 < dists[j]->0 || (dists[k]->0
            == dists[j]->0 && k <= j)
}

/// The region index whose nearest gold is closest to the agent (`dists[k]` is
/// the distance to region `k`'s nearest gold, `None` for a region without
/// gold); `wait` when there is no gold on the map or no region holds any.
pub fn nearest_cluster(dists: &Vec<Option<i32>>, gold_on_map: bool, wait: u32) -> (k: u32)
    requires
        dists@.len() <= u32::MAX,
    ensures
        !gold_on_map ==> k == wait,
        gold_on_map && (exists|j: int| 0 <= j < dists@.len() && dists@[j] is Some) ==> is_nearest_cluster(
            dists@,
            k as int,
        ),
        gold_on_map && !(exists|j: int| 0 <= j < dists@.len() && dists@[j] is Some) ==> k == wait,
{
    if !gold_on_map {
        return wait;
    }
    let n: usize = dists.len();
    let mut best: Option<(i32, u32)> = None;
    let mut i: usize = 0;
    while i < n
        invariant
            n == dists@.len(),
            n <= u32::MAX,
            i <= n,
            best is None <==> forall|j: int| 0 <= j < i ==> dists@[j] is None,
            best matches Some(b) ==> {
                &&& (b.1 as int) < i
                &&& dists@[b.1 as int] == Some(b.0)
                &&& forall|j: int|
                    0 <= j < i && dists@[j] is Some ==> b.0 < dists@[j]->0 || (b.0 == dists@[j]->0 && b.1
                        <= j)
            },
        decreases n - i,
    {
        match dists[i] {
            Some(d) => {
                let better = match best {
                    None => true,
                    Some(b) => d < b.0,
                };
                if better {
                    best = Some((d, i as u32));
                }
            },
            None => {},
        }
        i = i + 1;
    }
    match best {
        Some(b) => b.1,
        None => wait,
    }
}

/// What the behaviour tree reads of the world for agent 0.
pub struct BtInputs {
    pub gold_carried: u32,
    pub max_gold: u32,
    pub hearts: u32,
    /// A health pack lies somewhere on the map.
    pub health_on_map: bool,
    /// Gold lies somewhere on the map.
    pub gold_on_map: bool,
    /// The region the tree committed to earlier, if any.
    pub committed: Option<u32>,
    /// Per region: distance from agent 0 to the region's nearest gold.
    pub cluster_dists: Vec<Option<i32>>,
}

/// The behaviour tree's choice: the action, and the region it stays committed to.
#[derive(Clone, Copy, PartialEq, Eq, Debug, Structural)]
pub struct BtDecision {
    pub action: u32,
    pub committed: Option<u32>,
}

/// The committed region's distance, and the best distance among the other
/// regions (`i32::MAX` when none of them holds gold).
pub open spec fn committed_dist(dists: Seq<Option<i32>>, k: int) -> Option<i32> {
    if 0 <= k < dists.len() {
        dists[k]
    } else {
        None
    }
}

pub open spec fn best_other(dists: Seq<Option<i32>>, k: int) -> int
    decreases dists.len(),
{
    if dists.len() == 0 {
        i32::MAX as int
    } else {
        let i = dists.len() - 1;
        let prev = best_other(dists.drop_last(), k);
        if i != k && dists[i] is Some && dists[i]->0 < prev {
            dists[i]->0 as int
        } else {
            prev
        }
    }
}

/// Keeping the committed region is checked as `committed <= best other + 3`;
/// the sum must not overflow.
/// Neither a full pack nor low health decides: the tree goes on to the gold
/// regions, where the committed-region check is made.
pub open spec fn bt_reaches_regions(inp: BtInputs) -> bool {
    !(inp.gold_carried >= inp.max_gold) && !(inp.hearts <= 1 && inp.health_on_map)
}

pub open spec fn bt_check_fits(inp: BtInputs) -> bool {
    match inp.committed {
        Some(k) => committed_dist(inp.cluster_dists@, k as int) is Some ==> best_other(
            inp.cluster_dists@,
            k as int,
        ) + 3 <= i32::MAX,
        None => true,
    }
}

/// The committed region still holds gold and is not beaten by another region
/// by more than three tiles (the hysteresis that stops the tree from
/// oscillating between equidistant regions).
pub open spec fn slot_still_valid(inp: BtInputs) -> bool {
    match inp.committed {
        Some(k) => match committed_dist(inp.cluster_dists@, k as int) {
            Some(cd) => cd <= best_other(inp.cluster_dists@, k as int) + 3,
            None => false,
        },
        None => false,
    }
}

pub open spec fn spec_bt_decide(inp: BtInputs, codes: ActionCodes, reselected: u32) -> BtDecision {
    if inp.gold_carried >= inp.max_gold {
        BtDecision { action: codes.navigate_to_base(), committed: None }
    } else if inp.hearts <= 1 && inp.health_on_map {
        BtDecision { action: codes.navigate_to_health() as u32, committed: None }
    } else if slot_still_valid(inp) {
        BtDecision { action: inp.committed->0, committed: inp.committed }
    } else if reselected != codes.wait {
        BtDecision { action: reselected, committed: Some(reselected) }
    } else {
        BtDecision { action: codes.wait, committed: None }
    }
}

/// `d` is the behaviour tree's decision on these inputs, with the nearest gold
/// region (or `wait` when there is none) as the fallback pick.
pub open spec fn is_bt_decision(inp: BtInputs, codes: ActionCodes, d: BtDecision) -> bool {
    exists|r: u32|
        {
            &&& d == spec_bt_decide(inp, codes, r)
            &&& (!inp.gold_on_map ==> r == codes.wait)
            &&& (inp.gold_on_map && (exists|j: int|
                0 <= j < inp.cluster_dists@.len() && inp.cluster_dists@[j] is Some) ==> is_nearest_cluster(
                inp.cluster_dists@,
                r as int,
            ))
            &&& (inp.gold_on_map && !(exists|j: int|
                0 <= j < inp.cluster_dists@.len() && inp.cluster_dists@[j] is Some) ==> r == codes.wait)
        }
}

fn best_other_dist(dists: &Vec<Option<i32>>, k: u32) -> (b: i32)
    ensures
        b == best_other(dists@, k as int),
{
    let n: usize = dists.len();
    let mut best: i32 = i32::MAX;
    let mut i: usize = 0;
    while i < n
        invariant
            n == dists@.len(),
            i <= n,
            best == best_other(dists@.subrange(0, i as int), k as int),
        decreases n - i,
    {
        proof {
            assert(dists@.subrange(0, i + 1).drop_last() =~= dists@.subrange(0, i as int));
        }
        if i as u64 != k as u64 {
            match dists[i] {
                Some(d) => {
                    if d < best {
                        best = d;
                    }
                },
                None => {},
            }
        }
        i = i + 1;
    }
    assert(dists@.subrange(0, n as int) =~= dists@);
    best
}

/// Whether the committed-region check would overflow on these inputs.
pub fn bt_check_overflows(inp: &BtInputs) -> (b: bool)
    ensures
        b == (bt_reaches_regions(*inp) && !bt_check_fits(*inp)),
{
    if inp.gold_carried >= inp.max_gold || (inp.hearts <= 1 && inp.health_on_map) {
        return false;
    }
    match inp.committed {
        Some(k) => {
            if (k as usize) < inp.cluster_dists.len() {
                match inp.cluster_dists[k as usize] {
                    Some(_) => best_other_dist(&inp.cluster_dists, k) > i32::MAX - 3,
                    None => false,
                }
            } else {
                false
            }
        },
        None => false,
    }
}

/// The behaviour tree for agent 0: head home with a full pack; fetch health
/// when down to one heart and a pack is on the map; otherwise keep heading for
/// the committed gold region while it stays valid, else pick the nearest one.
pub fn bt_decide(inp: &BtInputs, codes: ActionCodes) -> (d: BtDecision)
    requires
        inp.cluster_dists@.len() <= u32::MAX,
        codes.cluster_k < u32::MAX,
        bt_reaches_regions(*inp) ==> bt_check_fits(*inp),
    ensures
        is_bt_decision(*inp, codes, d),
{
    let r = nearest_cluster(&inp.cluster_dists, inp.gold_on_map, codes.wait);
    let d: BtDecision = if inp.gold_carried >= inp.max_gold {
        BtDecision { action: codes.cluster_k, committed: None }
    } else if inp.hearts <= 1 && inp.health_on_map {
        BtDecision { action: codes.cluster_k + 1, committed: None }
    } else {
        let slot_valid: bool = match inp.committed {
            Some(k) => {
                if (k as usize) < inp.cluster_dists.len() {
                    match inp.cluster_dists[k as usize] {
                        Some(cd) => {
                            let best = best_other_dist(&inp.cluster_dists, k);
                            cd <= best + 3
                        },
                        None => false,
                    }
                } else {
                    false
                }
            },
            None => false,
        };
        if slot_valid {
            let k: u32 = match inp.committed {
                Some(k) => k,
                None => codes.wait,
            };
            BtDecision { action: k, committed: inp.committed }
        } else if r != codes.wait {
            BtDecision { action: r, committed: Some(r) }
        } else {
            BtDecision { action: codes.wait, committed: None }
        }
    };
    assert(d == spec_bt_decide(*inp, codes, r));
    d
}

/// How far apart two positions are in whole tiles, walking along the grid
/// (the sum of the horizontal and the vertical gap).
pub open spec fn tiles_apart(a: Pos, b: Pos) -> int {
    (if a.x >= b.x { a.x - b.x } else { b.x - a.x }) + (if a.y >= b.y { a.y - b.y } else { b.y - a.y })
}

proof fn lemma_best_other_bounds(dists: Seq<Option<i32>>, k: int)
    ensures
        best_other(dists, k) <= i32::MAX,
        forall|j: int|
            0 <= j < dists.len() && j != k && (#[trigger] dists[j]) is Some ==> best_other(dists, k)
                <= dists[j]->0,
        best_other(dists, k) == i32::MAX || exists|j: int|
            0 <= j < dists.len() && j != k && (#[trigger] dists[j]) is Some && dists[j]->0 == best_other(
                dists,
                k,
            ),
    decreases dists.len(),
{
    if dists.len() > 0 {
        let p = dists.drop_last();
        lemma_best_other_bounds(p, k);
        assert forall|j: int| 0 <= j < p.len() implies #[trigger] p[j] == dists[j] by {}
        if best_other(p, k) != i32::MAX && best_other(dists, k) == best_other(p, k) {
            let j = choose|j: int|
                0 <= j < p.len() && j != k && (#[trigger] p[j]) is Some && p[j]->0 == best_other(p, k);
            assert(dists[j] == p[j]);
        }
        if best_other(dists, k) != best_other(p, k) {
            assert(dists[dists.len() - 1] is Some);
        }
        assert forall|j: int|
            0 <= j < dists.len() && j != k && (#[trigger] dists[j]) is Some implies best_other(dists, k)
                <= dists[j]->0 by {
            if j < p.len() {
                assert(p[j] == dists[j]);
            }
        }
    }
}

/// The behaviour tree's priorities, read off its inputs: a full pack always
/// heads home; otherwise one heart left with a health pack on the map fetches
/// health; otherwise the committed region is kept while it still holds gold
/// and no other region's gold is more than three tiles closer; otherwise the
/// tree commits to the nearest region holding gold (the lowest index among
/// equals), and waits, committed to nothing, when no region holds gold or
/// there is no gold on the map.
pub proof fn law_bt_priorities(inp: BtInputs, codes: ActionCodes, d: BtDecision)
    requires
        is_bt_decision(inp, codes, d),
    ensures
        inp.gold_carried >= inp.max_gold ==> d == (BtDecision { action: codes.cluster_k, committed: None }),
        inp.gold_carried < inp.max_gold && inp.hearts <= 1 && inp.health_on_map ==> d == (BtDecision {
            action: (codes.cluster_k + 1) as u32,
            committed: None,
        }),
        ({
            let ds = inp.cluster_dists@;
            let keep = inp.committed matches Some(k) && (k as int) < ds.len() && ds[k as int] is Some
                && forall|j: int|
                0 <= j < ds.len() && j != k && (#[trigger] ds[j]) is Some ==> ds[k as int]->0 <= ds[j]->0 + 3;
            let any_gold = exists|j: int| 0 <= j < ds.len() && (#[trigger] ds[j]) is Some;
            let ahead = inp.gold_carried < inp.max_gold && !(inp.hearts <= 1 && inp.health_on_map);
            &&& (ahead && keep ==> d == (BtDecision { action: inp.committed->0, committed: inp.committed }))
            &&& (ahead && !keep && (!inp.gold_on_map || !any_gold) ==> d == (BtDecision {
                action: codes.wait,
                committed: None,
            }))
            &&& (ahead && !keep && inp.gold_on_map && any_gold ==> exists|r: int|
                {
                    &&& 0 <= r < ds.len()
                    &&& ds[r] is Some
                    &&& forall|j: int|
                        0 <= j < ds.len() && (#[trigger] ds[j]) is Some ==> ds[r]->0 < ds[j]->0 || (ds[r]->0
                            == ds[j]->0 && r <= j)
                    &&& d == if r == codes.wait {
                        BtDecision { action: codes.wait, committed: None }
                    } else {
                        BtDecision { action: r as u32, committed: Some(r as u32) }
                    }
                })
        }),
{
    let r = choose|r: u32|
        {
            &&& d == spec_bt_decide(inp, codes, r)
            &&& (!inp.gold_on_map ==> r == codes.wait)
            &&& (inp.gold_on_map && (exists|j: int|
                0 <= j < inp.cluster_dists@.len() && inp.cluster_dists@[j] is Some) ==> is_nearest_cluster(
                inp.cluster_dists@,
                r as int,
            ))
            &&& (inp.gold_on_map && !(exists|j: int|
                0 <= j < inp.cluster_dists@.len() && inp.cluster_dists@[j] is Some) ==> r == codes.wait)
        };
    let ds = inp.cluster_dists@;
    if let Some(k) = inp.committed {
        lemma_best_other_bounds(ds, k as int);
        if (k as int) < ds.len() && ds[k as int] is Some {
            let cd = ds[k as int]->0;
            let b = best_other(ds, k as int);
            if cd <= b + 3 {
                assert forall|j: int| 0 <= j < ds.len() && j != k && (#[trigger] ds[j]) is Some implies cd
                    <= ds[j]->0 + 3 by {}
            } else {
                let j = choose|j: int|
                    0 <= j < ds.len() && j != k && (#[trigger] ds[j]) is Some && ds[j]->0 == b;
                assert(!(cd <= ds[j]->0 + 3));
            }
        }
    }
    if inp.gold_on_map && (exists|j: int| 0 <= j < ds.len() && (#[trigger] ds[j]) is Some) {
        assert(is_nearest_cluster(ds, r as int));
    }
}

/// The nearest region is one holding gold at the smallest distance, the lowest
/// index among equals: no region holding gold is closer, and none as close
/// comes before it.
pub proof fn law_nearest_cluster_is_closest(dists: Seq<Option<i32>>, k: int)
    requires
        is_nearest_cluster(dists, k),
    ensures
        0 <= k < dists.len(),
        dists[k] is Some,
        forall|j: int| 0 <= j < dists.len() && (#[trigger] dists[j]) is Some ==> dists[k]->0 <= dists[j]->0,
        forall|j: int| 0 <= j < k && (#[trigger] dists[j]) is Some ==> dists[k]->0 < dists[j]->0,
{
}

/// A grid position.
#[derive(Clone, Copy, PartialEq, Eq, Debug, Structural)]
pub struct Pos {
    pub x: i32,
    pub y: i32,
}

pub open spec fn spec_abs(v: int) -> int {
    if v < 0 {
        -v
    } else {
        v
    }
}

pub open spec fn spec_manhattan(a: Pos, b: Pos) -> int {
    spec_abs(a.x - b.x) + spec_abs(a.y - b.y)
}

/// The manhattan distance of two positions is representable.
pub open spec fn manhattan_fits(a: Pos, b: Pos) -> bool {
    spec_manhattan(a, b) <= i32::MAX
}

pub fn manhattan(a: Pos, b: Pos) -> (d: i32)
    requires
        manhattan_fits(a, b),
    ensures
        d == spec_manhattan(a, b),
{
    let dx: i32 = a.x - b.x;
    let dy: i32 = a.y - b.y;
    let ax: i32 = if dx < 0 { -dx } else { dx };
    let ay: i32 = if dy < 0 { -dy } else { dy };
    ax + ay
}

/// The smallest manhattan distance from `from` to any of `targets`;
/// `i32::MAX` when there are none.
pub open spec fn min_manhattan(from: Pos, targets: Seq<Pos>) -> int
    decreases targets.len(),
{
    if targets.len() == 0 {
        i32::MAX as int
    } else {
        let prev = min_manhattan(from, targets.drop_last());
        let d = spec_manhattan(from, targets.last());
        if d < prev {
            d
        } else {
            prev
        }
    }
}

/// The boolean world state the goal planner starts from.
#[derive(Clone, Copy, PartialEq, Eq, Debug, Structural)]
pub struct GoapFacts {
    pub has_gold: bool,
    pub inventory_full: bool,
    pub inventory_half: bool,
    pub on_own_base: bool,
    pub gold_nearby: bool,
    pub enemy_nearby: bool,
    pub base_closer: bool,
    pub low_health: bool,
}

/// What the planner's world state reads of agent 0.
pub struct GoapInputs {
    pub gold_carried: u32,
    pub max_gold: u32,
    pub hearts: u32,
    pub pos: Pos,
    pub base: Pos,
    /// Positions of the gold on the map.
    pub gold: Vec<Pos>,
    /// Some gold lies within ten tiles (squared distance at most 100).
    pub gold_nearby: bool,
    /// Some agent of another team lies within ten tiles.
    pub enemy_nearby: bool,
}

pub open spec fn spec_goap_facts(inp: GoapInputs) -> GoapFacts {
    GoapFacts {
        has_gold: inp.gold_carried > 0,
        inventory_full: inp.gold_carried >= inp.max_gold,
        inventory_half: inp.gold_carried >= inp.max_gold / 2,
        on_own_base: inp.pos == inp.base,
        gold_nearby: inp.gold_nearby,
        enemy_nearby: inp.enemy_nearby,
        base_closer: spec_manhattan(inp.pos, inp.base) < min_manhattan(inp.pos, inp.gold@),
        low_health: inp.hearts <= 1,
    }
}

/// The planner's world state for agent 0.
pub fn goap_facts(inp: &GoapInputs) -> (f: GoapFacts)
    requires
        manhattan_fits(inp.pos, inp.base),
        forall|k: int| 0 <= k < inp.gold@.len() ==> manhattan_fits(inp.pos, #[trigger] inp.gold@[k]),
    ensures
        f == spec_goap_facts(*inp),
{
    let to_base: i32 = manhattan(inp.pos, inp.base);
    let n: usize = inp.gold.len();
    let mut to_gold: i32 = i32::MAX;
    let mut i: usize = 0;
    while i < n
        invariant
            n == inp.gold@.len(),
            i <= n,
            forall|k: int| 0 <= k < inp.gold@.len() ==> manhattan_fits(inp.pos, #[trigger] inp.gold@[k]),
            to_gold == min_manhattan(inp.pos, inp.gold@.subrange(0, i as int)),
        decreases n - i,
    {
        proof {
            assert(inp.gold@.subrange(0, i + 1).drop_last() =~= inp.gold@.subrange(0, i as int));
        }
        let d: i32 = manhattan(inp.pos, inp.gold[i]);
        if d < to_gold {
            to_gold = d;
        }
        i = i + 1;
    }
    assert(inp.gold@.subrange(0, n as int) =~= inp.gold@);
    GoapFacts {
        has_gold: inp.gold_carried > 0,
        inventory_full: inp.gold_carried >= inp.max_gold,
        inventory_half: inp.gold_carried >= inp.max_gold / 2,
        on_own_base: inp.pos == inp.base,
        gold_nearby: inp.gold_nearby,
        enemy_nearby: inp.enemy_nearby,
        base_closer: to_base < to_gold,
        low_health: inp.hearts <= 1,
    }
}

proof fn lemma_min_manhattan_bounds(from: Pos, ts: Seq<Pos>)
    ensures
        min_manhattan(from, ts) <= i32::MAX,
        forall|k: int| 0 <= k < ts.len() ==> min_manhattan(from, ts) <= tiles_apart(from, #[trigger] ts[k]),
        min_manhattan(from, ts) == i32::MAX || exists|k: int|
            0 <= k < ts.len() && min_manhattan(from, ts) == tiles_apart(from, #[trigger] ts[k]),
    decreases ts.len(),
{
    if ts.len() > 0 {
        let p = ts.drop_last();
        lemma_min_manhattan_bounds(from, p);
        assert forall|k: int| 0 <= k < p.len() implies #[trigger] p[k] == ts[k] by {}
        if min_manhattan(from, p) != i32::MAX && min_manhattan(from, ts) == min_manhattan(from, p) {
            let k = choose|k: int| 0 <= k < p.len() && min_manhattan(from, p) == tiles_apart(from, #[trigger] p[k]);
            assert(ts[k] == p[k]);
        }
        assert(tiles_apart(from, ts[ts.len() - 1]) == spec_manhattan(from, ts.last()));
        assert forall|k: int| 0 <= k < ts.len() implies min_manhattan(from, ts) <= tiles_apart(
            from,
            #[trigger] ts[k],
        ) by {
            if k < p.len() {
                assert(p[k] == ts[k]);
            }
        }
    }
}

/// The planner's facts say what agent 0's state is: it carries gold when it
/// carries any; its pack is full at the cap and half full from half the cap
/// (rounded down) on; it stands on its base exactly when both coordinates
/// match; it is low on health at one heart or less; the nearby flags pass
/// through; and the base is closer exactly when the base is nearer than every
/// gold piece (and nearer than `i32::MAX` tiles when no gold is left).
pub proof fn law_goap_facts_read_agent(inp: GoapInputs)
    ensures
        spec_goap_facts(inp).has_gold == (inp.gold_carried != 0),
        spec_goap_facts(inp).inventory_full == (inp.max_gold <= inp.gold_carried),
        spec_goap_facts(inp).inventory_half == (inp.max_gold <= 2 * inp.gold_carried + 1),
        spec_goap_facts(inp).on_own_base == (inp.pos.x == inp.base.x && inp.pos.y == inp.base.y),
        spec_goap_facts(inp).gold_nearby == inp.gold_nearby,
        spec_goap_facts(inp).enemy_nearby == inp.enemy_nearby,
        spec_goap_facts(inp).low_health == (inp.hearts < 2),
        spec_goap_facts(inp).base_closer == (tiles_apart(inp.pos, inp.base) < i32::MAX && forall|k: int|
            0 <= k < inp.gold@.len() ==> tiles_apart(inp.pos, inp.base) < tiles_apart(
                inp.pos,
                #[trigger] inp.gold@[k],
            )),
{
    lemma_min_manhattan_bounds(inp.pos, inp.gold@);
    let db = tiles_apart(inp.pos, inp.base);
    let m = min_manhattan(inp.pos, inp.gold@);
    assert(db == spec_manhattan(inp.pos, inp.base));
    if db < m {
        assert forall|k: int| 0 <= k < inp.gold@.len() implies db < tiles_apart(inp.pos, #[trigger] inp.gold@[k]) by {}
    } else if m != i32::MAX {
        let k = choose|k: int| 0 <= k < inp.gold@.len() && m == tiles_apart(inp.pos, #[trigger] inp.gold@[k]);
        assert(!(db < tiles_apart(inp.pos, inp.gold@[k])));
    }
}

/// The first step of the planner's plan.
#[derive(Clone, Copy, PartialEq, Eq, Debug, Structural)]
pub enum GoapStep {
    NavigateToGold,
    CollectGold,
    NavigateToBase,
    DropGold,
    Flee,
    /// Any other step, or no plan at all.
    Other,
}

pub open spec fn spec_learned_action(learned: Option<u32>, codes: ActionCodes) -> u32 {
    match learned {
        Some(a) => a,
        None => codes.wait,
    }
}

pub open spec fn spec_goap_step_action(step: GoapStep, nearest: u32, codes: ActionCodes) -> u32 {
    match step {
        GoapStep::NavigateToGold | GoapStep::CollectGold => nearest,
        GoapStep::NavigateToBase | GoapStep::DropGold | GoapStep::Flee => codes.navigate_to_base(),
        GoapStep::Other => codes.wait,
    }
}

/// The action for the planner's first step: gold steps head for the nearest
/// gold region, base-bound steps head home, anything else waits.
pub fn goap_step_action(step: GoapStep, nearest: u32, codes: ActionCodes) -> (a: u32)
    ensures
        a == spec_goap_step_action(step, nearest, codes),
{
    match step {
        GoapStep::NavigateToGold | GoapStep::CollectGold => nearest,
        GoapStep::NavigateToBase | GoapStep::DropGold | GoapStep::Flee => codes.cluster_k,
        GoapStep::Other => codes.wait,
    }
}

/// The planner's first step picks the move: gold-bound steps head for the
/// nearest gold region, base-bound steps and fleeing head home, and anything
/// else waits. A missing learned pick waits too.
pub proof fn law_planner_step_moves(step: GoapStep, nearest: u32, codes: ActionCodes, learned: Option<u32>)
    ensures
        (step == GoapStep::NavigateToGold || step == GoapStep::CollectGold) ==> spec_goap_step_action(
            step,
            nearest,
            codes,
        ) == nearest,
        (step == GoapStep::NavigateToBase || step == GoapStep::DropGold || step == GoapStep::Flee)
            ==> spec_goap_step_action(step, nearest, codes) == codes.cluster_k,
        step == GoapStep::Other ==> spec_goap_step_action(step, nearest, codes) == codes.wait,
        learned matches Some(a) ==> spec_learned_action(learned, codes) == a,
        learned is None ==> spec_learned_action(learned, codes) == codes.wait,
{
}

/// Count a taken action.
pub fn record_action(counts: &mut Vec<u32>, action: u32)
    requires
        (action as int) < old(counts)@.len(),
        old(counts)@[action as int] < u32::MAX,
    ensures
        final(counts)@ == old(counts)@.update(action as int, (old(counts)@[action as int] + 1) as u32),
{
    let i: usize = action as usize;
    let c: u32 = counts[i];
    counts.set(i, c + 1);
}

/// The bookkeeping of the simulation bridge between ticks.
pub struct BridgeState {
    pub game_over: bool,
    pub last_action: u32,
    /// How often each action has been taken this episode.
    pub action_counts: Vec<u32>,
    /// The gold region the behaviour tree is committed to.
    pub committed: Option<u32>,
}

impl BridgeState {
    /// A fresh episode: nothing counted, last action "wait", no commitment.
    pub fn new(codes: ActionCodes) -> (s: BridgeState)
        ensures
            !s.game_over,
            s.last_action == codes.wait,
            s.action_counts@.len() == codes.size,
            forall|k: int| 0 <= k < codes.size ==> s.action_counts@[k] == 0,
            s.committed is None,
    {
        let mut counts: Vec<u32> = Vec::new();
        let mut i: u32 = 0;
        while i < codes.size
            invariant
                i <= codes.size,
                counts@.len() == i,
                forall|k: int| 0 <= k < i ==> counts@[k] == 0,
            decreases codes.size - i,
        {
            counts.push(0);
            i = i + 1;
        }
        BridgeState { game_over: false, last_action: codes.wait, action_counts: counts, committed: None }
    }

    /// Whether the simulation advances this frame.
    pub fn should_step(&self, paused: bool) -> (b: bool)
        ensures
            b == (!paused && !self.game_over),
    {
        !paused && !self.game_over
    }

    /// Take `action`: remember it and count it.
    pub fn record(&mut self, action: u32)
        requires
            (action as int) < old(self).action_counts@.len(),
            old(self).action_counts@[action as int] < u32::MAX,
        ensures
            final(self).last_action == action,
            final(self).action_counts@ == counts_after(old(self).action_counts@, seq![action]),
            final(self).action_counts@ == old(self).action_counts@.update(
                action as int,
                (old(self).action_counts@[action as int] + 1) as u32,
            ),
            final(self).game_over == old(self).game_over,
            final(self).committed == old(self).committed,
    {
        self.last_action = action;
        record_action(&mut self.action_counts, action);
        proof {
            reveal_with_fuel(counts_after, 2);
            assert(seq![action].drop_last() =~= Seq::<u32>::empty());
        }
    }

    /// After a simulation step: a finished episode ends the run of steps.
    /// Returns whether stepping may go on this frame.
    pub fn finish_step(&mut self, done: bool) -> (go_on: bool)
        ensures
            final(self).game_over == (old(self).game_over || done),
            go_on == !done,
            final(self).last_action == old(self).last_action,
            final(self).action_counts@ == old(self).action_counts@,
            final(self).committed == old(self).committed,
    {
        if done {
            self.game_over = true;
        }
        !done
    }

    /// One frame's run of steps, given what each step took and whether it
    /// ended the episode: every step is recorded and finished in order, and
    /// the run stops after the first step that ends the episode. Returns how
    /// many steps were taken.
    pub fn record_steps(&mut self, steps: &Vec<(u32, bool)>) -> (m: usize)
        requires
            forall|j: int| 0 <= j < steps@.len() ==> ((#[trigger] steps@[j]).0 as int) < old(self).action_counts@.len(),
            forall|i: int|
                0 <= i < old(self).action_counts@.len() ==> #[trigger] old(self).action_counts@[i] + occurrences(
                    step_actions(steps@),
                    i,
                ) <= u32::MAX,
        ensures
            m <= steps@.len(),
            forall|j: int| 0 <= j < m - 1 ==> !(#[trigger] steps@[j]).1,
            m < steps@.len() ==> m > 0 && steps@[m - 1].1,
            final(self).action_counts@ == counts_after(
                old(self).action_counts@,
                step_actions(steps@).take(m as int),
            ),
            count_sum(final(self).action_counts@) == count_sum(old(self).action_counts@) + m,
            m > 0 ==> final(self).last_action == steps@[m - 1].0,
            m == 0 ==> final(self).last_action == old(self).last_action,
            final(self).game_over == (old(self).game_over || (m > 0 && steps@[m - 1].1)),
            final(self).committed == old(self).committed,
    {
        let ghost c0 = old(self).action_counts@;
        let ghost acts = step_actions(steps@);
        let n: usize = steps.len();
        let mut i: usize = 0;
        let mut stopped: bool = false;
        while !stopped && i < n
            invariant
                n == steps@.len(),
                i <= n,
                acts == step_actions(steps@),
                c0 == old(self).action_counts@,
                forall|j: int| 0 <= j < n ==> ((#[trigger] steps@[j]).0 as int) < c0.len(),
                forall|q: int| 0 <= q < c0.len() ==> #[trigger] c0[q] + occurrences(acts, q) <= u32::MAX,
                stopped ==> i > 0 && steps@[i - 1].1,
                forall|j: int| 0 <= j < i - 1 ==> !(#[trigger] steps@[j]).1,
                !stopped ==> forall|j: int| 0 <= j < i ==> !(#[trigger] steps@[j]).1,
                self.action_counts@ == counts_after(c0, acts.take(i as int)),
                i > 0 ==> self.last_action == steps@[i - 1].0,
                i == 0 ==> self.last_action == old(self).last_action,
                self.game_over == (old(self).game_over || stopped),
                self.committed == old(self).committed,
            decreases n - i,
        {
            let (a, done) = steps[i];
            proof {
                assert(acts.take(i + 1) =~= acts.take(i as int).push(a));
                assert(acts.take(i + 1).drop_last() =~= acts.take(i as int));
                assert forall|q: int| 0 <= q < c0.len() implies #[trigger] c0[q] + occurrences(acts.take(i as int), q) <= u32::MAX by {
                    lemma_occurrences_prefix(acts, i as int, q);
                    assert(c0[q] + occurrences(acts, q) <= u32::MAX);
                }
                law_counts_track_actions(c0, acts.take(i as int));
                lemma_occurrences_prefix(acts, i + 1, a as int);
                assert(occurrences(acts.take(i + 1), a as int) == occurrences(acts.take(i as int), a as int) + 1);
                assert(c0[a as int] + occurrences(acts, a as int) <= u32::MAX);
            }
            self.record(a);
            let go_on = self.finish_step(done);
            i = i + 1;
            if !go_on {
                stopped = true;
            }
        }
        proof {
            assert forall|q: int| 0 <= q < c0.len() implies #[trigger] c0[q] + occurrences(acts.take(i as int), q) <= u32::MAX by {
                lemma_occurrences_prefix(acts, i as int, q);
            }
            law_counts_track_actions(c0, acts.take(i as int));
        }
        i
    }
}

/// Every action a controller can hand over is a valid action number: the
/// fixed actions, the learned policy's pick and the planner's region, and
/// every gold region, lie below `size`.
pub open spec fn picks_in_range(codes: ActionCodes, learned: Option<u32>, goap_nearest: u32, regions: int) -> bool {
    &&& codes.cluster_k + 1 < codes.size
    &&& codes.wait < codes.size
    &&& regions <= codes.size
    &&& goap_nearest < codes.size
    &&& (learned is Some ==> learned->0 < codes.size)
}

/// The action counts after recording `actions` in order, one `record` each.
pub open spec fn counts_after(counts: Seq<u32>, actions: Seq<u32>) -> Seq<u32>
    decreases actions.len(),
{
    if actions.len() == 0 {
        counts
    } else {
        let c = counts_after(counts, actions.drop_last());
        let a = actions.last() as int;
        c.update(a, (c[a] + 1) as u32)
    }
}

/// The actions of a run of steps, in order.
pub open spec fn step_actions(steps: Seq<(u32, bool)>) -> Seq<u32> {
    Seq::new(steps.len(), |j: int| steps[j].0)
}

proof fn lemma_occurrences_prefix(s: Seq<u32>, j: int, i: int)
    requires
        0 <= j <= s.len(),
    ensures
        occurrences(s.take(j), i) <= occurrences(s, i),
    decreases s.len(),
{
    if j == s.len() {
        assert(s.take(j) =~= s);
    } else {
        let p = s.drop_last();
        assert(s.take(j) =~= p.take(j));
        lemma_occurrences_prefix(p, j, i);
    }
}

/// How often action `i` occurs in `actions`.
pub open spec fn occurrences(actions: Seq<u32>, i: int) -> int
    decreases actions.len(),
{
    if actions.len() == 0 {
        0
    } else {
        occurrences(actions.drop_last(), i) + if actions.last() as int == i {
            1int
        } else {
            0int
        }
    }
}

/// The sum of all counts.
pub open spec fn count_sum(c: Seq<u32>) -> int
    decreases c.len(),
{
    if c.len() == 0 {
        0
    } else {
        count_sum(c.drop_last()) + c.last()
    }
}

proof fn lemma_count_sum_update(c: Seq<u32>, a: int, v: u32)
    requires
        0 <= a < c.len(),
    ensures
        count_sum(c.update(a, v)) == count_sum(c) - c[a] + v,
    decreases c.len(),
{
    let u = c.update(a, v);
    if a == c.len() - 1 {
        assert(u.drop_last() =~= c.drop_last());
    } else {
        assert(u.drop_last() =~= c.drop_last().update(a, v));
        lemma_count_sum_update(c.drop_last(), a, v);
    }
}

/// Recording a run of actions counts each exactly: afterwards every action's
/// count has grown by how often it was taken, and the counts together have
/// grown by the number of actions.
pub proof fn law_counts_track_actions(counts: Seq<u32>, actions: Seq<u32>)
    requires
        forall|j: int| 0 <= j < actions.len() ==> (#[trigger] actions[j]) < counts.len(),
        forall|i: int| 0 <= i < counts.len() ==> #[trigger] counts[i] + occurrences(actions, i) <= u32::MAX,
    ensures
        counts_after(counts, actions).len() == counts.len(),
        forall|i: int|
            0 <= i < counts.len() ==> #[trigger] counts_after(counts, actions)[i] == counts[i] + occurrences(
                actions,
                i,
            ),
        count_sum(counts_after(counts, actions)) == count_sum(counts) + actions.len(),
    decreases actions.len(),
{
    if actions.len() > 0 {
        let p = actions.drop_last();
        let a = actions.last() as int;
        assert forall|j: int| 0 <= j < p.len() implies (#[trigger] p[j]) < counts.len() by {
            assert(p[j] == actions[j]);
        }
        assert forall|i: int| 0 <= i < counts.len() implies #[trigger] counts[i] + occurrences(p, i) <= u32::MAX by {
            assert(counts[i] + occurrences(actions, i) <= u32::MAX);
        }
        law_counts_track_actions(counts, p);
        let c = counts_after(counts, p);
        assert(actions[actions.len() - 1] < counts.len());
        assert(c[a] == counts[a] + occurrences(p, a));
        assert(counts[a] + occurrences(actions, a) <= u32::MAX);
        lemma_count_sum_update(c, a, (c[a] + 1) as u32);
    }
}

/// The action agent 0 takes this tick under `mode`, and the behaviour
/// tree's commitment afterwards (left as it was by the other modes).
/// `learned` is the learned policy's pick, `None` when no policy is loaded;
/// `goap_step` is the planner's first step and `goap_nearest` the nearest
/// gold region, both read only in planner mode.
pub fn choose_action(
    mode: PolicyMode,
    tick: u64,
    codes: ActionCodes,
    agents_present: bool,
    learned: Option<u32>,
    bt: &BtInputs,
    goap_step: GoapStep,
    goap_nearest: u32,
) -> (d: BtDecision)
    requires
        codes.size > 0,
        codes.cluster_k < u32::MAX,
        bt.cluster_dists@.len() <= u32::MAX,
        mode == PolicyMode::BehaviorTree && agents_present && bt_reaches_regions(*bt) ==> bt_check_fits(*bt),
    ensures
        mode == PolicyMode::Onnx ==> d == (BtDecision { action: spec_learned_action(learned, codes), committed: bt.committed }),
        mode == PolicyMode::Random ==> d == (BtDecision { action: spec_random_action(tick, codes.size), committed: bt.committed }),
        mode == PolicyMode::BehaviorTree && !agents_present ==> d == (BtDecision { action: codes.wait, committed: bt.committed }),
        mode == PolicyMode::BehaviorTree && agents_present ==> is_bt_decision(*bt, codes, d),
        mode == PolicyMode::Goap ==> d == (BtDecision {
            action: if agents_present {
                spec_goap_step_action(goap_step, goap_nearest, codes)
            } else {
                codes.wait
            },
            committed: bt.committed,
        }),
        picks_in_range(codes, learned, goap_nearest, bt.cluster_dists@.len() as int) ==> d.action
            < codes.size,
{
    match mode {
        PolicyMode::Onnx => {
            let a: u32 = match learned {
                Some(a) => a,
                None => codes.wait,
            };
            BtDecision { action: a, committed: bt.committed }
        },
        PolicyMode::Random => BtDecision {
            action: random_action(tick, codes.size),
            committed: bt.committed,
        },
        PolicyMode::BehaviorTree => {
            if agents_present {
                let d = bt_decide(bt, codes);
                proof {
                    let r = choose|r: u32|
                        {
                            &&& d == spec_bt_decide(*bt, codes, r)
                            &&& (!bt.gold_on_map ==> r == codes.wait)
                            &&& (bt.gold_on_map && (exists|j: int|
                                0 <= j < bt.cluster_dists@.len() && bt.cluster_dists@[j] is Some)
                                ==> is_nearest_cluster(bt.cluster_dists@, r as int))
                            &&& (bt.gold_on_map && !(exists|j: int|
                                0 <= j < bt.cluster_dists@.len() && bt.cluster_dists@[j] is Some) ==> r
                                == codes.wait)
                        };
                    assert(d == spec_bt_decide(*bt, codes, r));
                }
                d
            } else {
                BtDecision { action: codes.wait, committed: bt.committed }
            }
        },
        PolicyMode::Goap => {
            let a: u32 = if agents_present {
                goap_step_action(goap_step, goap_nearest, codes)
            } else {
                codes.wait
            };
            BtDecision { action: a, committed: bt.committed }
        },
    }
}

/// Action `a` ranks above action `b` in the action breakdown: taken more
/// often, or as often with a lower action number.
pub open spec fn ranks_above(counts: Seq<u32>, a: int, b: int) -> bool {
    counts[a] > counts[b] || (counts[a] == counts[b] && a < b)
}

/// The most taken actions, at most five, as (action, count), most taken
/// first and ties by action number; actions never taken are left out.
pub fn top_actions(counts: &Vec<u32>) -> (top: Vec<(usize, u32)>)
    ensures
        top@.len() <= 5,
        forall|k: int| 0 <= k < top@.len() ==> {
            let e = #[trigger] top@[k];
            e.0 < counts@.len() && e.1 == counts@[e.0 as int] && e.1 > 0
        },
        forall|x: int, y: int|
            0 <= x < y < top@.len() ==> ranks_above(counts@, (#[trigger] top@[x]).0 as int, (#[trigger] top@[y]).0 as int),
        forall|j: int|
            0 <= j < counts@.len() && counts@[j] > 0 && !(exists|k: int| 0 <= k < top@.len() && #[trigger] top@[k].0 == j)
                ==> top@.len() == 5 && forall|k: int| 0 <= k < top@.len() ==> ranks_above(counts@, (#[trigger] top@[k]).0 as int, j),
{
    // the actions taken at least once, in action order
    let n: usize = counts.len();
    let mut taken: Vec<usize> = Vec::new();
    let mut keys: Vec<u64> = Vec::new();
    let mut i: usize = 0;
    while i < n
        invariant
            n == counts@.len(),
            i <= n,
            taken@.len() == keys@.len(),
            forall|k: int| 0 <= k < taken@.len() ==> (#[trigger] taken@[k]) < i && counts@[taken@[k] as int] > 0
                && keys@[k] == u32::MAX - counts@[taken@[k] as int],
            forall|a: int, b: int| 0 <= a < b < taken@.len() ==> taken@[a] < taken@[b],
            forall|j: usize| j < i && counts@[j as int] > 0 ==> #[trigger] taken@.contains(j),
        decreases n - i,
    {
        let c: u32 = counts[i];
        if c > 0 {
            let ghost prev = taken@;
            taken.push(i);
            keys.push((u32::MAX - c) as u64);
            proof {
                assert forall|j: usize| j < i + 1 && counts@[j as int] > 0 implies #[trigger] taken@.contains(j) by {
                    if j < i {
                        assert(prev.contains(j));
                        let k = choose|k: int| 0 <= k < prev.len() && prev[k] == j;
                        assert(taken@[k] == j);
                    } else {
                        assert(taken@[prev.len() as int] == j);
                    }
                }
            }
        }
        i = i + 1;
    }
    let order = stable_order_by_key(&keys);
    let m: usize = order.len();
    let limit: usize = if m < 5 { m } else { 5 };
    let mut top: Vec<(usize, u32)> = Vec::new();
    let mut p: usize = 0;
    while p < limit
        invariant
            limit <= m,
            limit <= 5,
            m == order@.len(),
            is_index_permutation(order@, keys@.len() as int),
            taken@.len() == keys@.len(),
            n == counts@.len(),
            forall|k: int| 0 <= k < taken@.len() ==> (#[trigger] taken@[k]) < n,
            p <= limit,
            top@.len() == p,
            forall|k: int| 0 <= k < p ==> (#[trigger] top@[k]).0 == taken@[order@[k] as int] && top@[k].1
                == counts@[top@[k].0 as int],
        decreases limit - p,
    {
        let a: usize = taken[order[p]];
        top.push((a, counts[a]));
        p = p + 1;
    }
    proof {
        // rank of taken rows follows the key order
        assert forall|u: int, v: int|
            0 <= u < taken@.len() && 0 <= v < taken@.len() && key_before(keys@, u, v) implies ranks_above(
            counts@,
            taken@[u] as int,
            taken@[v] as int,
        ) by {
            if u < v {
                assert(taken@[u] < taken@[v]);
            } else if v < u {
                assert(taken@[v] < taken@[u]);
            }
        }
        assert forall|x: int, y: int| 0 <= x < y < top@.len() implies ranks_above(
            counts@,
            (#[trigger] top@[x]).0 as int,
            (#[trigger] top@[y]).0 as int,
        ) by {
            assert(key_before(keys@, order@[x] as int, order@[y] as int));
        }
        assert forall|j: int|
            0 <= j < counts@.len() && counts@[j] > 0 && !(exists|k: int| 0 <= k < top@.len() && #[trigger] top@[k].0 == j)
            implies top@.len() == 5 && forall|k: int| 0 <= k < top@.len() ==> ranks_above(
            counts@,
            (#[trigger] top@[k]).0 as int,
            j,
        ) by {
            assert(taken@.contains(j as usize));
            let t = choose|t: int| 0 <= t < taken@.len() && taken@[t] == j as usize;
            assert(order@.contains(t as usize));
            let q = choose|q: int| 0 <= q < order@.len() && order@[q] == t as usize;
            if q < limit {
                assert(top@[q].0 == j);
            }
            assert(q >= limit);
            assert forall|k: int| 0 <= k < top@.len() implies ranks_above(counts@, (#[trigger] top@[k]).0 as int, j) by {
                assert(key_before(keys@, order@[k] as int, order@[q] as int));
            }
        }
    }
    top
}

} // verus!
