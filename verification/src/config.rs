//! The declarative world description: corners, spawn intents, game modes,
//! and the validation a config must pass before a world is built from it.
//!
//! Fractions and speeds of the on-disk config are floating point; the checks
//! on them arrive here as their boolean outcomes, so that every decision of the
//! validation is made, and proved, in this module.
use vstd::prelude::*;

use std::collections::HashSet;

verus! {

/// A corner of the grid. `(0,0)` is bottom-left; x grows right, y grows up.
#[derive(Clone, Copy, PartialEq, Eq, Debug, Structural)]
pub enum Corner {
    BottomLeft,
    BottomRight,
    TopLeft,
    TopRight,
}

impl Corner {
    /// The tile of this corner, `inset` tiles in from both edges.
    pub open spec fn spec_resolve(self, width: int, height: int, inset: int) -> (int, int) {
        let max_x = width - 1;
        let max_y = height - 1;
        match self {
            Corner::BottomLeft => (inset, inset),
            Corner::BottomRight => (max_x - inset, inset),
            Corner::TopLeft => (inset, max_y - inset),
            Corner::TopRight => (max_x - inset, max_y - inset),
        }
    }

    /// Resolve to a tile coordinate given the grid dimensions and the rounded
    /// inset (margin × shorter side); the inset is at least one tile.
    pub fn resolve(self, width: usize, height: usize, raw_inset: i32) -> (p: (i32, i32))
        requires
            width <= i32::MAX,
            height <= i32::MAX,
        ensures
            (p.0 as int, p.1 as int) == self.spec_resolve(
                width as int,
                height as int,
                if raw_inset >= 1 { raw_inset as int } else { 1 },
            ),
    {
        let inset: i32 = at_least_one_tile(raw_inset);
        let max_x: i32 = width as i32 - 1;
        let max_y: i32 = height as i32 - 1;
        match self {
            Corner::BottomLeft => (inset, inset),
            Corner::BottomRight => (max_x - inset, inset),
            Corner::TopLeft => (inset, max_y - inset),
            Corner::TopRight => (max_x - inset, max_y - inset),
        }
    }
}

/// A corner inset by less than half the shorter side resolves to a tile on
/// the grid, whatever the grid's size.
pub proof fn law_corner_on_grid(c: Corner, width: int, height: int, inset: int)
    requires
        1 <= inset,
        2 * inset < width,
        2 * inset < height,
    ensures
        0 <= c.spec_resolve(width, height, inset).0 < width,
        0 <= c.spec_resolve(width, height, inset).1 < height,
{
}

/// Each corner lies `inset` tiles in from its own two edges: the left
/// corners that far from x = 0, the right ones from x = width - 1, the bottom
/// ones from y = 0 and the top ones from y = height - 1.
pub proof fn law_corner_inset_from_its_edges(c: Corner, width: int, height: int, inset: int)
    ensures
        (c == Corner::BottomLeft || c == Corner::TopLeft) ==> c.spec_resolve(width, height, inset).0 == inset,
        (c == Corner::BottomRight || c == Corner::TopRight) ==> (width - 1) - c.spec_resolve(width, height, inset).0
            == inset,
        (c == Corner::BottomLeft || c == Corner::BottomRight) ==> c.spec_resolve(width, height, inset).1 == inset,
        (c == Corner::TopLeft || c == Corner::TopRight) ==> (height - 1) - c.spec_resolve(width, height, inset).1
            == inset,
{
}

/// Opposite corners mirror each other: the bottom-left and bottom-right
/// x coordinates add up to `width - 1`, the bottom-left and top-left y
/// coordinates to `height - 1`, for any inset.
pub proof fn law_corners_mirror(width: int, height: int, inset: int)
    ensures
        Corner::BottomLeft.spec_resolve(width, height, inset).0 + Corner::BottomRight.spec_resolve(
            width,
            height,
            inset,
        ).0 == width - 1,
        Corner::BottomLeft.spec_resolve(width, height, inset).1 + Corner::TopLeft.spec_resolve(
            width,
            height,
            inset,
        ).1 == height - 1,
        Corner::TopRight.spec_resolve(width, height, inset) == (
            Corner::BottomRight.spec_resolve(width, height, inset).0,
            Corner::TopLeft.spec_resolve(width, height, inset).1,
        ),
{
}

/// A tile distance rounded from a fraction, at least one tile: corner insets
/// and safe-zone radii.
pub fn at_least_one_tile(raw: i32) -> (d: i32)
    ensures
        d == if raw >= 1 { raw } else { 1 },
{
    if raw >= 1 {
        raw
    } else {
        1
    }
}

/// Where an agent spawns.
#[derive(Clone, Copy, PartialEq, Eq, Debug, Structural)]
pub enum SpawnIntent {
    NearBase,
    Centre,
}

impl Default for SpawnIntent {
    fn default() -> (s: Self)
        ensures
            s == SpawnIntent::NearBase,
    {
        SpawnIntent::NearBase
    }
}

/// The shape of procedurally placed obstacles.
#[derive(Clone, Copy, PartialEq, Eq, Debug, Structural)]
pub enum ObstacleProfile {
    Blocks,
    Walls,
    Scatter,
    Mixed,
    /// No procedural obstacles (`None` in config files).
    NoObstacles,
}

impl Default for ObstacleProfile {
    fn default() -> (p: Self)
        ensures
            p == ObstacleProfile::Mixed,
    {
        ObstacleProfile::Mixed
    }
}

/// Which game mode to run; it decides reward, terminal and win conditions.
#[derive(Clone, Copy, PartialEq, Eq, Debug, Structural)]
pub enum GameModeKind {
    GoldRush,
    TeamDeathmatch,
    CaptureTheFlag,
    Conquest,
    FreeForAll,
}

/// The shorter side of a `width` × `height` grid.
pub fn short_side(width: usize, height: usize) -> (s: usize)
    ensures
        s == if width <= height { width } else { height },
{
    if width <= height {
        width
    } else {
        height
    }
}

/// What validation reads of one base.
#[derive(Clone, Copy, PartialEq, Eq, Debug, Structural)]
pub struct BaseCheck {
    pub team: u8,
    /// The base's margin lies strictly between 0.0 and 0.5.
    pub margin_in_range: bool,
}

/// What validation reads of a world config.
pub struct ConfigFacts {
    pub width: usize,
    pub height: usize,
    pub bases: Vec<BaseCheck>,
    /// The team of each agent, in config order.
    pub agent_teams: Vec<u8>,
    /// How many entries `sim_speeds` has.
    pub sim_speed_count: usize,
    /// `sim_speed` is one of `sim_speeds`.
    pub sim_speed_listed: bool,
    pub game_mode: GameModeKind,
    /// The gold item density is above 0.0.
    pub gold_density_positive: bool,
}

/// One reason a config is refused, in the order validation reports them.
#[derive(Clone, Copy, PartialEq, Eq, Debug, Structural)]
pub enum ConfigError {
    /// width must be ≥ 4 (holds the width given)
    WidthTooSmall(usize),
    /// height must be ≥ 4 (holds the height given)
    HeightTooSmall(usize),
    /// at least one base is required
    NoBases,
    /// the base at this index has a margin outside (0.0, 0.5)
    BaseMargin { index: usize, team: u8 },
    /// at least one agent is required
    NoAgents,
    /// the agent at this index is on a team that has no base
    AgentWithoutBase { index: usize, team: u8 },
    /// sim_speeds must not be empty
    SimSpeedsEmpty,
    /// sim_speed is not one of sim_speeds
    SimSpeedNotListed,
    /// GoldRush requires a gold density above 0.0
    GoldRushNeedsGold,
    /// the mode requires agents on at least two different teams
    NeedsTwoTeams(GameModeKind),
    /// FreeForAll requires at least two agents
    FreeForAllNeedsTwoAgents,
}

/// Margin errors of the bases, in order.
pub open spec fn margin_errors(bases: Seq<BaseCheck>) -> Seq<ConfigError>
    decreases bases.len(),
{
    if bases.len() == 0 {
        Seq::empty()
    } else {
        let i = bases.len() - 1;
        margin_errors(bases.drop_last()) + if bases[i].margin_in_range {
            Seq::empty()
        } else {
            seq![ConfigError::BaseMargin { index: i as usize, team: bases[i].team }]
        }
    }
}

/// Some base belongs to `team`.
pub open spec fn has_base(bases: Seq<BaseCheck>, team: u8) -> bool {
    exists|j: int| 0 <= j < bases.len() && #[trigger] bases[j].team == team
}

/// Errors for the agents (a prefix of them) whose team has no base, in order.
pub open spec fn orphan_errors(bases: Seq<BaseCheck>, teams: Seq<u8>) -> Seq<ConfigError>
    decreases teams.len(),
{
    if teams.len() == 0 {
        Seq::empty()
    } else {
        let i = teams.len() - 1;
        orphan_errors(bases, teams.drop_last()) + if has_base(bases, teams[i]) {
            Seq::empty()
        } else {
            seq![ConfigError::AgentWithoutBase { index: i as usize, team: teams[i] }]
        }
    }
}

/// Agents stand on at least two different teams.
pub open spec fn has_two_teams(teams: Seq<u8>) -> bool {
    exists|i: int, j: int| 0 <= i < teams.len() && 0 <= j < teams.len() && teams[i] != teams[j]
}

/// A one-element list when `cond` holds, else empty.
pub open spec fn error_if(cond: bool, e: ConfigError) -> Seq<ConfigError> {
    if cond {
        seq![e]
    } else {
        Seq::empty()
    }
}

/// The errors of the game mode's own constraints.
pub open spec fn mode_errors(f: ConfigFacts) -> Seq<ConfigError> {
    match f.game_mode {
        GameModeKind::GoldRush => error_if(!f.gold_density_positive, ConfigError::GoldRushNeedsGold),
        GameModeKind::FreeForAll => error_if(
            f.agent_teams@.len() < 2,
            ConfigError::FreeForAllNeedsTwoAgents,
        ),
        m => error_if(!has_two_teams(f.agent_teams@), ConfigError::NeedsTwoTeams(m)),
    }
}

/// Every error of a config, in the order they are reported.
pub open spec fn config_errors(f: ConfigFacts) -> Seq<ConfigError> {
    error_if(f.width < 4, ConfigError::WidthTooSmall(f.width)) + error_if(
        f.height < 4,
        ConfigError::HeightTooSmall(f.height),
    ) + error_if(f.bases@.len() == 0, ConfigError::NoBases) + margin_errors(f.bases@) + error_if(
        f.agent_teams@.len() == 0,
        ConfigError::NoAgents,
    ) + orphan_errors(f.bases@, f.agent_teams@) + error_if(f.sim_speed_count == 0, ConfigError::SimSpeedsEmpty) + error_if(
        !f.sim_speed_listed,
        ConfigError::SimSpeedNotListed,
    ) + mode_errors(f)
}

/// A config is valid: every check passes.
pub open spec fn config_valid(f: ConfigFacts) -> bool {
    &&& f.width >= 4
    &&& f.height >= 4
    &&& f.bases@.len() > 0
    &&& forall|j: int| 0 <= j < f.bases@.len() ==> (#[trigger] f.bases@[j]).margin_in_range
    &&& f.agent_teams@.len() > 0
    &&& forall|i: int| 0 <= i < f.agent_teams@.len() ==> has_base(f.bases@, #[trigger] f.agent_teams@[i])
    &&& f.sim_speed_count > 0
    &&& f.sim_speed_listed
    &&& match f.game_mode {
        GameModeKind::GoldRush => f.gold_density_positive,
        GameModeKind::FreeForAll => f.agent_teams@.len() >= 2,
        _ => has_two_teams(f.agent_teams@),
    }
}

fn push_if(errors: &mut Vec<ConfigError>, cond: bool, e: ConfigError)
    ensures
        final(errors)@ == old(errors)@ + error_if(cond, e),
{
    if cond {
        errors.push(e);
    }
    assert(final(errors)@ =~= old(errors)@ + error_if(cond, e));
}

/// The set of teams that have a base.
fn base_team_set(bases: &Vec<BaseCheck>) -> (set: HashSet<u8>)
    ensures
        forall|t: u8| set@.contains(t) <==> has_base(bases@, t),
{
    broadcast use vstd::std_specs::hash::group_hash_axioms;

    let mut set: HashSet<u8> = HashSet::new();
    let n: usize = bases.len();
    let mut j: usize = 0;
    while j < n
        invariant
            n == bases@.len(),
            j <= n,
            forall|t: u8| set@.contains(t) <==> has_base(bases@.subrange(0, j as int), t),
        decreases n - j,
    {
        let t: u8 = bases[j].team;
        set.insert(t);
        proof {
            let pre = bases@.subrange(0, j as int);
            let post = bases@.subrange(0, j + 1);
            assert forall|u: u8| set@.contains(u) <==> has_base(post, u) by {
                if has_base(post, u) && u != t {
                    let k = choose|k: int| 0 <= k < post.len() && #[trigger] post[k].team == u;
                    assert(pre[k].team == u);
                }
                if has_base(pre, u) {
                    let k = choose|k: int| 0 <= k < pre.len() && #[trigger] pre[k].team == u;
                    assert(post[k].team == u);
                }
                if u == t {
                    assert(post[j as int].team == u);
                }
            }
        }
        j = j + 1;
    }
    assert(bases@.subrange(0, n as int) =~= bases@);
    set
}

/// The set of teams agents stand on.
fn agent_team_set(teams: &Vec<u8>) -> (set: HashSet<u8>)
    ensures
        forall|t: u8| set@.contains(t) <==> teams@.contains(t),
        set@.finite(),
{
    broadcast use vstd::std_specs::hash::group_hash_axioms;

    let mut set: HashSet<u8> = HashSet::new();
    let n: usize = teams.len();
    let mut i: usize = 0;
    while i < n
        invariant
            n == teams@.len(),
            i <= n,
            set@.finite(),
            forall|t: u8| set@.contains(t) <==> teams@.subrange(0, i as int).contains(t),
        decreases n - i,
    {
        let t: u8 = teams[i];
        set.insert(t);
        proof {
            let pre = teams@.subrange(0, i as int);
            let post = teams@.subrange(0, i + 1);
            assert(post =~= pre.push(t));
            assert forall|u: u8| set@.contains(u) <==> post.contains(u) by {
                if post.contains(u) && u != t {
                    let k = choose|k: int| 0 <= k < post.len() && post[k] == u;
                    assert(pre[k] == u);
                }
                if pre.contains(u) {
                    let k = choose|k: int| 0 <= k < pre.len() && pre[k] == u;
                    assert(post[k] == u);
                }
                if u == t {
                    assert(post[i as int] == u);
                }
            }
        }
        i = i + 1;
    }
    assert(teams@.subrange(0, n as int) =~= teams@);
    set
}

proof fn lemma_two_teams_iff_set_len(teams: Seq<u8>, set: Set<u8>)
    requires
        set.finite(),
        forall|t: u8| set.contains(t) <==> teams.contains(t),
    ensures
        set.len() >= 2 <==> has_two_teams(teams),
{
    if has_two_teams(teams) {
        let (i, j) = choose|i: int, j: int|
            0 <= i < teams.len() && 0 <= j < teams.len() && teams[i] != teams[j];
        let pair = Set::<u8>::empty().insert(teams[i]).insert(teams[j]);
        assert(teams.contains(teams[i]) && teams.contains(teams[j]));
        assert(pair.subset_of(set));
        vstd::set_lib::lemma_len_subset(pair, set);
    } else if teams.len() == 0 {
        assert(set =~= Set::<u8>::empty());
    } else {
        let one = Set::<u8>::empty().insert(teams[0]);
        assert forall|t: u8| set.contains(t) implies one.contains(t) by {
            let k = choose|k: int| 0 <= k < teams.len() && teams[k] == t;
            assert(teams[0] == teams[k]);
        }
        assert(set.subset_of(one));
        vstd::set_lib::lemma_len_subset(set, one);
    }
}

/// Whether agents stand on at least two different teams.
pub fn two_teams(teams: &Vec<u8>) -> (b: bool)
    ensures
        b == has_two_teams(teams@),
{
    broadcast use vstd::std_specs::hash::group_hash_axioms;

    let set = agent_team_set(teams);
    proof {
        lemma_two_teams_iff_set_len(teams@, set@);
    }
    set.len() >= 2
}

/// Append the game mode's own constraint errors. Add a match arm here when
/// adding a new mode.
pub fn validate_for_game_mode(facts: &ConfigFacts, errors: &mut Vec<ConfigError>)
    ensures
        final(errors)@ == old(errors)@ + mode_errors(*facts),
{
    match facts.game_mode {
        GameModeKind::GoldRush => {
            push_if(errors, !facts.gold_density_positive, ConfigError::GoldRushNeedsGold);
        },
        GameModeKind::TeamDeathmatch => {
            push_if(
                errors,
                !two_teams(&facts.agent_teams),
                ConfigError::NeedsTwoTeams(GameModeKind::TeamDeathmatch),
            );
        },
        GameModeKind::CaptureTheFlag => {
            push_if(
                errors,
                !two_teams(&facts.agent_teams),
                ConfigError::NeedsTwoTeams(GameModeKind::CaptureTheFlag),
            );
        },
        GameModeKind::Conquest => {
            push_if(
                errors,
                !two_teams(&facts.agent_teams),
                ConfigError::NeedsTwoTeams(GameModeKind::Conquest),
            );
        },
        GameModeKind::FreeForAll => {
            push_if(
                errors,
                facts.agent_teams.len() < 2,
                ConfigError::FreeForAllNeedsTwoAgents,
            );
        },
    }
}

/// Every reason the config is refused, in report order; empty when the config
/// is valid.
pub fn validate(facts: &ConfigFacts) -> (errors: Vec<ConfigError>)
    ensures
        errors@ == config_errors(*facts),
{
    broadcast use vstd::std_specs::hash::group_hash_axioms;

    let mut errors: Vec<ConfigError> = Vec::new();
    let ghost f = *facts;

    // grid
    push_if(&mut errors, facts.width < 4, ConfigError::WidthTooSmall(facts.width));
    push_if(&mut errors, facts.height < 4, ConfigError::HeightTooSmall(facts.height));

    // bases
    push_if(&mut errors, facts.bases.len() == 0, ConfigError::NoBases);
    let ghost before_margins = errors@;
    let nb: usize = facts.bases.len();
    let mut j: usize = 0;
    while j < nb
        invariant
            nb == facts.bases@.len(),
            j <= nb,
            errors@ == before_margins + margin_errors(facts.bases@.subrange(0, j as int)),
        decreases nb - j,
    {
        let b: BaseCheck = facts.bases[j];
        proof {
            let next = facts.bases@.subrange(0, j + 1);
            assert(next.drop_last() =~= facts.bases@.subrange(0, j as int));
        }
        push_if(&mut errors, !b.margin_in_range, ConfigError::BaseMargin { index: j, team: b.team });
        j = j + 1;
        assert(errors@ =~= before_margins + margin_errors(facts.bases@.subrange(0, j as int)));
    }
    assert(facts.bases@.subrange(0, nb as int) =~= facts.bases@);

    // agents
    push_if(&mut errors, facts.agent_teams.len() == 0, ConfigError::NoAgents);
    let base_teams = base_team_set(&facts.bases);
    let ghost before_orphans = errors@;
    let na: usize = facts.agent_teams.len();
    let mut i: usize = 0;
    while i < na
        invariant
            na == facts.agent_teams@.len(),
            i <= na,
            errors@ == before_orphans + orphan_errors(facts.bases@, facts.agent_teams@.subrange(0, i as int)),
            forall|u: u8| base_teams@.contains(u) <==> has_base(facts.bases@, u),
        decreases na - i,
    {
        let t: u8 = facts.agent_teams[i];
        proof {
            let next = facts.agent_teams@.subrange(0, i + 1);
            assert(next.drop_last() =~= facts.agent_teams@.subrange(0, i as int));
        }
        let found = base_teams.contains(&t);
        assert(found == has_base(facts.bases@, t));
        push_if(&mut errors, !found, ConfigError::AgentWithoutBase { index: i, team: t });
        i = i + 1;
        assert(errors@ =~= before_orphans + orphan_errors(
            facts.bases@,
            facts.agent_teams@.subrange(0, i as int),
        ));
    }
    assert(facts.agent_teams@.subrange(0, na as int) =~= facts.agent_teams@);

    // sim speeds (an obstacle density above the maximum is clamped, not refused)
    push_if(&mut errors, facts.sim_speed_count == 0, ConfigError::SimSpeedsEmpty);
    push_if(&mut errors, !facts.sim_speed_listed, ConfigError::SimSpeedNotListed);

    // game mode
    validate_for_game_mode(facts, &mut errors);
    assert(errors@ =~= config_errors(f));
    errors
}

proof fn lemma_margin_errors_empty(bases: Seq<BaseCheck>)
    ensures
        margin_errors(bases).len() == 0 <==> forall|j: int|
            0 <= j < bases.len() ==> (#[trigger] bases[j]).margin_in_range,
    decreases bases.len(),
{
    if bases.len() > 0 {
        lemma_margin_errors_empty(bases.drop_last());
        if margin_errors(bases).len() == 0 {
            assert forall|j: int| 0 <= j < bases.len() implies (#[trigger] bases[j]).margin_in_range by {
                if j < bases.len() - 1 {
                    assert(bases.drop_last()[j] == bases[j]);
                }
            }
        }
        if forall|j: int| 0 <= j < bases.len() ==> (#[trigger] bases[j]).margin_in_range {
            assert forall|j: int| 0 <= j < bases.drop_last().len() implies (
            #[trigger] bases.drop_last()[j]).margin_in_range by {
                assert(bases.drop_last()[j] == bases[j]);
            }
            assert(bases[bases.len() - 1].margin_in_range);
        }
    }
}

proof fn lemma_orphan_errors_empty(bases: Seq<BaseCheck>, teams: Seq<u8>)
    ensures
        orphan_errors(bases, teams).len() == 0 <==> forall|i: int|
            0 <= i < teams.len() ==> has_base(bases, #[trigger] teams[i]),
    decreases teams.len(),
{
    if teams.len() > 0 {
        lemma_orphan_errors_empty(bases, teams.drop_last());
        if orphan_errors(bases, teams).len() == 0 {
            assert forall|i: int| 0 <= i < teams.len() implies has_base(bases, #[trigger] teams[i]) by {
                if i < teams.len() - 1 {
                    assert(teams.drop_last()[i] == teams[i]);
                }
            }
        }
        if forall|i: int| 0 <= i < teams.len() ==> has_base(bases, #[trigger] teams[i]) {
            assert forall|i: int| 0 <= i < teams.drop_last().len() implies has_base(
                bases,
                #[trigger] teams.drop_last()[i],
            ) by {
                assert(teams.drop_last()[i] == teams[i]);
            }
            assert(has_base(bases, teams[teams.len() - 1]));
        }
    }
}

/// A config is refused with no error exactly when it is valid: `validate`
/// reports nothing if and only if every check passes.
#[verifier::spinoff_prover]
pub proof fn law_no_errors_iff_valid(f: ConfigFacts)
    ensures
        config_errors(f).len() == 0 <==> config_valid(f),
{
    lemma_margin_errors_empty(f.bases@);
    lemma_orphan_errors_empty(f.bases@, f.agent_teams@);
    let a = error_if(f.width < 4, ConfigError::WidthTooSmall(f.width));
    let b = error_if(f.height < 4, ConfigError::HeightTooSmall(f.height));
    let c = error_if(f.bases@.len() == 0, ConfigError::NoBases);
    let d = margin_errors(f.bases@);
    let e = error_if(f.agent_teams@.len() == 0, ConfigError::NoAgents);
    let g = orphan_errors(f.bases@, f.agent_teams@);
    let k = error_if(f.sim_speed_count == 0, ConfigError::SimSpeedsEmpty);
    let l = error_if(!f.sim_speed_listed, ConfigError::SimSpeedNotListed);
    let m = mode_errors(f);
    assert(config_errors(f) == a + b + c + d + e + g + k + l + m);
    assert(config_errors(f).len() == a.len() + b.len() + c.len() + d.len() + e.len() + g.len()
        + k.len() + l.len() + m.len());
    assert(m.len() == 0 <==> match f.game_mode {
        GameModeKind::GoldRush => f.gold_density_positive,
        GameModeKind::FreeForAll => f.agent_teams@.len() >= 2,
        _ => has_two_teams(f.agent_teams@),
    });
}

proof fn lemma_concat_contains(a: Seq<ConfigError>, b: Seq<ConfigError>, e: ConfigError)
    ensures
        (a + b).contains(e) <==> a.contains(e) || b.contains(e),
{
    if a.contains(e) {
        let k = choose|k: int| 0 <= k < a.len() && a[k] == e;
        assert((a + b)[k] == e);
    }
    if b.contains(e) {
        let k = choose|k: int| 0 <= k < b.len() && b[k] == e;
        assert((a + b)[a.len() + k] == e);
    }
    if (a + b).contains(e) {
        let k = choose|k: int| 0 <= k < (a + b).len() && (a + b)[k] == e;
        if k < a.len() {
            assert(a[k] == e);
        } else {
            assert(b[k - a.len()] == e);
        }
    }
}

proof fn lemma_error_if_contains(c: bool, x: ConfigError, e: ConfigError)
    ensures
        error_if(c, x).contains(e) <==> c && e == x,
{
    if c {
        assert(error_if(c, x)[0] == x);
    }
}

proof fn lemma_margin_errors_contains(bases: Seq<BaseCheck>, e: ConfigError)
    requires
        bases.len() <= usize::MAX,
    ensures
        margin_errors(bases).contains(e) <==> (e matches ConfigError::BaseMargin { index, team } && (index as int)
            < bases.len() && bases[index as int].team == team && !bases[index as int].margin_in_range),
    decreases bases.len(),
{
    if bases.len() > 0 {
        let p = bases.drop_last();
        let i = bases.len() - 1;
        lemma_margin_errors_contains(p, e);
        let tail = if bases[i].margin_in_range {
            Seq::empty()
        } else {
            seq![ConfigError::BaseMargin { index: i as usize, team: bases[i].team }]
        };
        lemma_concat_contains(margin_errors(p), tail, e);
        if !bases[i].margin_in_range {
            assert(tail[0] == ConfigError::BaseMargin { index: i as usize, team: bases[i].team });
        }
        if let ConfigError::BaseMargin { index, team } = e {
            if (index as int) < p.len() {
                assert(p[index as int] == bases[index as int]);
            }
        }
    }
}

proof fn lemma_orphan_errors_contains(bases: Seq<BaseCheck>, teams: Seq<u8>, e: ConfigError)
    requires
        teams.len() <= usize::MAX,
    ensures
        orphan_errors(bases, teams).contains(e) <==> (e matches ConfigError::AgentWithoutBase { index, team }
            && (index as int) < teams.len() && teams[index as int] == team && !has_base(bases, team)),
    decreases teams.len(),
{
    if teams.len() > 0 {
        let p = teams.drop_last();
        let i = teams.len() - 1;
        lemma_orphan_errors_contains(bases, p, e);
        let tail = if has_base(bases, teams[i]) {
            Seq::empty()
        } else {
            seq![ConfigError::AgentWithoutBase { index: i as usize, team: teams[i] }]
        };
        lemma_concat_contains(orphan_errors(bases, p), tail, e);
        if !has_base(bases, teams[i]) {
            assert(tail[0] == ConfigError::AgentWithoutBase { index: i as usize, team: teams[i] });
        }
        if let ConfigError::AgentWithoutBase { index, team } = e {
            if (index as int) < p.len() {
                assert(p[index as int] == teams[index as int]);
            }
        }
    }
}

/// Each check reports its own error exactly when it fails: a width or height
/// under four, no bases, each base whose margin is out of range (by index and
/// team), no agents, each agent whose team has no base (by index and team), no
/// sim speeds, a sim speed that is not listed, and the game mode's own rule
/// (gold for GoldRush, two agents for FreeForAll, agents not all on one team
/// for the team modes).
pub proof fn law_each_check_reports_its_error(f: ConfigFacts, e: ConfigError)
    ensures
        config_errors(f).contains(e) <==> match e {
            ConfigError::WidthTooSmall(w) => w == f.width && f.width < 4,
            ConfigError::HeightTooSmall(h) => h == f.height && f.height < 4,
            ConfigError::NoBases => f.bases@.len() == 0,
            ConfigError::BaseMargin { index, team } => (index as int) < f.bases@.len() && f.bases@[index as int].team
                == team && !f.bases@[index as int].margin_in_range,
            ConfigError::NoAgents => f.agent_teams@.len() == 0,
            ConfigError::AgentWithoutBase { index, team } => (index as int) < f.agent_teams@.len()
                && f.agent_teams@[index as int] == team && forall|j: int|
                0 <= j < f.bases@.len() ==> (#[trigger] f.bases@[j]).team != team,
            ConfigError::SimSpeedsEmpty => f.sim_speed_count == 0,
            ConfigError::SimSpeedNotListed => !f.sim_speed_listed,
            ConfigError::GoldRushNeedsGold => f.game_mode == GameModeKind::GoldRush && !f.gold_density_positive,
            ConfigError::NeedsTwoTeams(m) => f.game_mode == m && m != GameModeKind::GoldRush && m
                != GameModeKind::FreeForAll && forall|i: int, j: int|
                0 <= i < f.agent_teams@.len() && 0 <= j < f.agent_teams@.len() ==> #[trigger] f.agent_teams@[i]
                    == #[trigger] f.agent_teams@[j],
            ConfigError::FreeForAllNeedsTwoAgents => f.game_mode == GameModeKind::FreeForAll
                && f.agent_teams@.len() < 2,
        },
{
    lemma_config_errors_contains(f, e);
    assert(f.bases.len() == f.bases@.len());
    assert(f.agent_teams.len() == f.agent_teams@.len());
    lemma_margin_errors_contains(f.bases@, e);
    lemma_orphan_errors_contains(f.bases@, f.agent_teams@, e);
    lemma_error_if_contains(f.width < 4, ConfigError::WidthTooSmall(f.width), e);
    lemma_error_if_contains(f.height < 4, ConfigError::HeightTooSmall(f.height), e);
    lemma_error_if_contains(f.bases@.len() == 0, ConfigError::NoBases, e);
    lemma_error_if_contains(f.agent_teams@.len() == 0, ConfigError::NoAgents, e);
    lemma_error_if_contains(f.sim_speed_count == 0, ConfigError::SimSpeedsEmpty, e);
    lemma_error_if_contains(!f.sim_speed_listed, ConfigError::SimSpeedNotListed, e);
    lemma_mode_errors_contains(f, e);
    if let ConfigError::AgentWithoutBase { index, team } = e {
        if has_base(f.bases@, team) {
            let j = choose|j: int| 0 <= j < f.bases@.len() && #[trigger] f.bases@[j].team == team;
            assert(f.bases@[j].team == team);
        }
    }
}

proof fn lemma_mode_errors_contains(f: ConfigFacts, e: ConfigError)
    ensures
        mode_errors(f).contains(e) <==> match e {
            ConfigError::GoldRushNeedsGold => f.game_mode == GameModeKind::GoldRush && !f.gold_density_positive,
            ConfigError::NeedsTwoTeams(m) => f.game_mode == m && m != GameModeKind::GoldRush && m
                != GameModeKind::FreeForAll && forall|i: int, j: int|
                0 <= i < f.agent_teams@.len() && 0 <= j < f.agent_teams@.len() ==> #[trigger] f.agent_teams@[i]
                    == #[trigger] f.agent_teams@[j],
            ConfigError::FreeForAllNeedsTwoAgents => f.game_mode == GameModeKind::FreeForAll
                && f.agent_teams@.len() < 2,
            _ => false,
        },
{
    match f.game_mode {
        GameModeKind::GoldRush => {
            lemma_error_if_contains(!f.gold_density_positive, ConfigError::GoldRushNeedsGold, e);
        },
        GameModeKind::FreeForAll => {
            lemma_error_if_contains(f.agent_teams@.len() < 2, ConfigError::FreeForAllNeedsTwoAgents, e);
        },
        md => {
            lemma_error_if_contains(!has_two_teams(f.agent_teams@), ConfigError::NeedsTwoTeams(md), e);
        },
    }
    if has_two_teams(f.agent_teams@) {
        let (i, j) = choose|i: int, j: int|
            0 <= i < f.agent_teams@.len() && 0 <= j < f.agent_teams@.len() && f.agent_teams@[i] != f.agent_teams@[j];
        assert(f.agent_teams@[i] != f.agent_teams@[j]);
    }
}

proof fn lemma_config_errors_contains(f: ConfigFacts, e: ConfigError)
    ensures
        config_errors(f).contains(e) <==> {
            ||| error_if(f.width < 4, ConfigError::WidthTooSmall(f.width)).contains(e)
            ||| error_if(f.height < 4, ConfigError::HeightTooSmall(f.height)).contains(e)
            ||| error_if(f.bases@.len() == 0, ConfigError::NoBases).contains(e)
            ||| margin_errors(f.bases@).contains(e)
            ||| error_if(f.agent_teams@.len() == 0, ConfigError::NoAgents).contains(e)
            ||| orphan_errors(f.bases@, f.agent_teams@).contains(e)
            ||| error_if(f.sim_speed_count == 0, ConfigError::SimSpeedsEmpty).contains(e)
            ||| error_if(!f.sim_speed_listed, ConfigError::SimSpeedNotListed).contains(e)
            ||| mode_errors(f).contains(e)
        },
{
    let a = error_if(f.width < 4, ConfigError::WidthTooSmall(f.width));
    let b = error_if(f.height < 4, ConfigError::HeightTooSmall(f.height));
    let c = error_if(f.bases@.len() == 0, ConfigError::NoBases);
    let d = margin_errors(f.bases@);
    let g = error_if(f.agent_teams@.len() == 0, ConfigError::NoAgents);
    let h = orphan_errors(f.bases@, f.agent_teams@);
    let k = error_if(f.sim_speed_count == 0, ConfigError::SimSpeedsEmpty);
    let l = error_if(!f.sim_speed_listed, ConfigError::SimSpeedNotListed);
    let m = mode_errors(f);
    assert(config_errors(f) == a + b + c + d + g + h + k + l + m);
    lemma_concat_contains(a, b, e);
    lemma_concat_contains(a + b, c, e);
    lemma_concat_contains(a + b + c, d, e);
    lemma_concat_contains(a + b + c + d, g, e);
    lemma_concat_contains(a + b + c + d + g, h, e);
    lemma_concat_contains(a + b + c + d + g + h, k, e);
    lemma_concat_contains(a + b + c + d + g + h + k, l, e);
    lemma_concat_contains(a + b + c + d + g + h + k + l, m, e);
}

} // verus!
