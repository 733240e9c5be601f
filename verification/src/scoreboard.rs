//! Scoreboard and end-screen bookkeeping: row order, per-team tallies, the
//! winner, and what each hit-point cell shows.
use vstd::prelude::*;

use crate::ranking::{is_index_permutation, key_before, stable_order_by_key};
use crate::teams::sorted_unique_teams;
use std::collections::HashMap;

verus! {

/// What the scoreboard reads of one agent.
#[derive(Clone, Copy, PartialEq, Eq, Debug, Structural)]
pub struct AgentStats {
    pub team: u8,
    pub score: u32,
    pub kills: u32,
    pub deaths: u32,
}

/// Scoreboard row order: team ascending, then score descending, then the
/// agents' input order.
pub open spec fn row_before(rows: Seq<AgentStats>, a: int, b: int) -> bool {
    ||| rows[a].team < rows[b].team
    ||| rows[a].team == rows[b].team && rows[a].score > rows[b].score
    ||| rows[a].team == rows[b].team && rows[a].score == rows[b].score && a < b
}

pub open spec fn row_key(a: AgentStats) -> int {
    a.team as int * 0x1_0000_0000 + (0xffff_ffff - a.score as int)
}

/// The order in which agent rows are listed: by team, best score first within
/// a team, and agents with equal team and score in their input order.
pub fn scoreboard_order(rows: &Vec<AgentStats>) -> (order: Vec<usize>)
    ensures
        is_index_permutation(order@, rows@.len() as int),
        forall|x: int, y: int|
            0 <= x < y < order@.len() ==> row_before(
                rows@,
                #[trigger] order@[x] as int,
                #[trigger] order@[y] as int,
            ),
{
    let n: usize = rows.len();
    let mut keys: Vec<u64> = Vec::new();
    let mut i: usize = 0;
    while i < n
        invariant
            n == rows@.len(),
            i <= n,
            keys@.len() == i,
            forall|k: int| 0 <= k < i ==> keys@[k] as int == row_key(#[trigger] rows@[k]),
        decreases n - i,
    {
        let r: AgentStats = rows[i];
        let key: u64 = (r.team as u64) * 0x1_0000_0000u64 + (0xffff_ffffu64 - r.score as u64);
        keys.push(key);
        i = i + 1;
    }
    let order = stable_order_by_key(&keys);
    assert forall|x: int, y: int| 0 <= x < y < order@.len() implies row_before(
        rows@,
        #[trigger] order@[x] as int,
        #[trigger] order@[y] as int,
    ) by {
        let a = order@[x] as int;
        let b = order@[y] as int;
        assert(key_before(keys@, a, b));
        assert(keys@[a] as int == row_key(rows@[a]));
        assert(keys@[b] as int == row_key(rows@[b]));
    }
    order
}

/// What any order meeting `scoreboard_order`'s contract lists: every agent
/// exactly once; teams in ascending order; within a team, no agent below one
/// with a lower score; and agents of equal team and score in input order.
pub proof fn law_scoreboard_rows_sorted(rows: Seq<AgentStats>, order: Seq<usize>)
    requires
        is_index_permutation(order, rows.len() as int),
        forall|x: int, y: int|
            0 <= x < y < order.len() ==> row_before(rows, #[trigger] order[x] as int, #[trigger] order[y] as int),
    ensures
        order.len() == rows.len(),
        forall|x: int| 0 <= x < order.len() ==> (#[trigger] order[x]) < rows.len(),
        forall|x: int, y: int| 0 <= x < y < order.len() ==> #[trigger] order[x] != #[trigger] order[y],
        forall|j: usize| j < rows.len() ==> #[trigger] order.contains(j),
        forall|x: int, y: int|
            0 <= x < y < order.len() ==> {
                let a = rows[#[trigger] order[x] as int];
                let b = rows[#[trigger] order[y] as int];
                &&& a.team <= b.team
                &&& a.team == b.team ==> a.score >= b.score
                &&& a.team == b.team && a.score == b.score ==> order[x] < order[y]
            },
{
}

/// The indices of the agents on `team`, in their input order.
pub fn agents_of_team(rows: &Vec<AgentStats>, team: u8) -> (idx: Vec<usize>)
    ensures
        forall|k: int| 0 <= k < idx@.len() ==> (#[trigger] idx@[k]) < rows@.len() && rows@[idx@[k] as int].team == team,
        forall|a: int, b: int| 0 <= a < b < idx@.len() ==> idx@[a] < idx@[b],
        forall|j: usize| j < rows@.len() && rows@[j as int].team == team ==> #[trigger] idx@.contains(j),
{
    let n: usize = rows.len();
    let mut idx: Vec<usize> = Vec::new();
    let mut i: usize = 0;
    while i < n
        invariant
            n == rows@.len(),
            i <= n,
            forall|k: int| 0 <= k < idx@.len() ==> (#[trigger] idx@[k]) < i && rows@[idx@[k] as int].team == team,
            forall|a: int, b: int| 0 <= a < b < idx@.len() ==> idx@[a] < idx@[b],
            forall|j: usize| j < i && rows@[j as int].team == team ==> #[trigger] idx@.contains(j),
        decreases n - i,
    {
        if rows[i].team == team {
            let ghost prev = idx@;
            idx.push(i);
            proof {
                assert forall|j: usize| j < i + 1 && rows@[j as int].team == team implies #[trigger] idx@.contains(j) by {
                    if j < i {
                        assert(prev.contains(j));
                        let k = choose|k: int| 0 <= k < prev.len() && prev[k] == j;
                        assert(idx@[k] == j);
                    } else {
                        assert(idx@[prev.len() as int] == j);
                    }
                }
            }
        }
        i = i + 1;
    }
    idx
}

/// Totals of one team over all agents.
#[derive(Clone, Copy, PartialEq, Eq, Debug, Structural)]
pub struct TeamTally {
    pub team: u8,
    pub agents: u64,
    pub score: u64,
    pub kills: u64,
    pub deaths: u64,
}

/// `(agents, score, kills, deaths)` of `team` summed over `rows`.
pub open spec fn spec_tally(rows: Seq<AgentStats>, team: u8) -> (int, int, int, int)
    decreases rows.len(),
{
    if rows.len() == 0 {
        (0, 0, 0, 0)
    } else {
        let prev = spec_tally(rows.drop_last(), team);
        let a = rows.last();
        if a.team == team {
            (prev.0 + 1, prev.1 + a.score, prev.2 + a.kills, prev.3 + a.deaths)
        } else {
            prev
        }
    }
}

proof fn lemma_tally_bounds(rows: Seq<AgentStats>, team: u8)
    ensures
        0 <= spec_tally(rows, team).0 <= rows.len(),
        0 <= spec_tally(rows, team).1 <= rows.len() * 0xffff_ffff,
        0 <= spec_tally(rows, team).2 <= rows.len() * 0xffff_ffff,
        0 <= spec_tally(rows, team).3 <= rows.len() * 0xffff_ffff,
    decreases rows.len(),
{
    if rows.len() > 0 {
        lemma_tally_bounds(rows.drop_last(), team);
    }
}

/// A team's totals count each of its agents once: one agent alone gives its
/// own numbers when on the team and nothing otherwise, and the totals of two
/// lists of agents put together are the sums of their totals.
pub proof fn law_tally_counts_each_agent(r1: Seq<AgentStats>, r2: Seq<AgentStats>, a: AgentStats, team: u8)
    ensures
        spec_tally(Seq::empty(), team) == (0int, 0int, 0int, 0int),
        spec_tally(seq![a], team) == if a.team == team {
            (1int, a.score as int, a.kills as int, a.deaths as int)
        } else {
            (0int, 0int, 0int, 0int)
        },
        spec_tally(r1 + r2, team) == (
            spec_tally(r1, team).0 + spec_tally(r2, team).0,
            spec_tally(r1, team).1 + spec_tally(r2, team).1,
            spec_tally(r1, team).2 + spec_tally(r2, team).2,
            spec_tally(r1, team).3 + spec_tally(r2, team).3,
        ),
    decreases r2.len(),
{
    assert(seq![a].drop_last() =~= Seq::<AgentStats>::empty());
    assert(seq![a].last() == a);
    assert(spec_tally(seq![a].drop_last(), team) == (0int, 0int, 0int, 0int));
    if r2.len() > 0 {
        law_tally_counts_each_agent(r1, r2.drop_last(), a, team);
        assert((r1 + r2).drop_last() =~= r1 + r2.drop_last());
    } else {
        assert(r1 + r2 =~= r1);
    }
}

/// The totals of `team`.
pub fn team_tally(rows: &Vec<AgentStats>, team: u8) -> (t: TeamTally)
    requires
        rows@.len() <= 0xffff_ffff,
    ensures
        t.team == team,
        (t.agents as int, t.score as int, t.kills as int, t.deaths as int) == spec_tally(rows@, team),
{
    let n: usize = rows.len();
    let mut t = TeamTally { team, agents: 0, score: 0, kills: 0, deaths: 0 };
    let mut i: usize = 0;
    while i < n
        invariant
            n == rows@.len(),
            n <= 0xffff_ffff,
            i <= n,
            t.team == team,
            (t.agents as int, t.score as int, t.kills as int, t.deaths as int) == spec_tally(
                rows@.subrange(0, i as int),
                team,
            ),
        decreases n - i,
    {
        proof {
            lemma_tally_bounds(rows@.subrange(0, i as int), team);
            assert(rows@.subrange(0, i + 1).drop_last() =~= rows@.subrange(0, i as int));
            assert((i as int) * 0xffff_ffff + 0xffff_ffff <= 0xffff_ffff * 0xffff_ffff);
        }
        let a: AgentStats = rows[i];
        if a.team == team {
            t.agents = t.agents + 1;
            t.score = t.score + a.score as u64;
            t.kills = t.kills + a.kills as u64;
            t.deaths = t.deaths + a.deaths as u64;
        }
        i = i + 1;
    }
    assert(rows@.subrange(0, n as int) =~= rows@);
    t
}

/// The team of every agent, in order.
pub fn teams_of(rows: &Vec<AgentStats>) -> (teams: Vec<u8>)
    ensures
        teams@.len() == rows@.len(),
        forall|k: int| 0 <= k < rows@.len() ==> teams@[k] == (#[trigger] rows@[k]).team,
{
    let n: usize = rows.len();
    let mut teams: Vec<u8> = Vec::new();
    let mut i: usize = 0;
    while i < n
        invariant
            n == rows@.len(),
            i <= n,
            teams@.len() == i,
            forall|k: int| 0 <= k < i ==> teams@[k] == (#[trigger] rows@[k]).team,
        decreases n - i,
    {
        teams.push(rows[i].team);
        i = i + 1;
    }
    teams
}

/// Some agent is on `team`.
pub open spec fn team_present(rows: Seq<AgentStats>, team: u8) -> bool {
    exists|k: int| 0 <= k < rows.len() && #[trigger] rows[k].team == team
}

/// `x` holds the totals of team `t` over `rows`.
pub open spec fn tally_is(x: TeamTally, rows: Seq<AgentStats>, t: u8) -> bool {
    &&& x.team == t
    &&& (x.agents as int, x.score as int, x.kills as int, x.deaths as int) == spec_tally(rows, t)
}

/// `m` maps exactly the teams that have agents to their totals.
pub open spec fn tallies_by_team(m: Map<u8, TeamTally>, rows: Seq<AgentStats>) -> bool {
    forall|t: u8|
        (#[trigger] m.contains_key(t) <==> team_present(rows, t)) && (m.contains_key(t)
            ==> tally_is(m[t], rows, t))
}

proof fn lemma_absent_tally_zero(rows: Seq<AgentStats>, t: u8)
    requires
        !team_present(rows, t),
    ensures
        spec_tally(rows, t) == (0int, 0int, 0int, 0int),
    decreases rows.len(),
{
    if rows.len() > 0 {
        let pre = rows.drop_last();
        if team_present(pre, t) {
            let k = choose|k: int| 0 <= k < pre.len() && #[trigger] pre[k].team == t;
            assert(rows[k].team == t);
        }
        assert(rows[rows.len() - 1].team != t);
        lemma_absent_tally_zero(pre, t);
    }
}

/// Totals per team, gathered in one pass over the rows.
fn tally_map(rows: &Vec<AgentStats>) -> (m: HashMap<u8, TeamTally>)
    requires
        rows@.len() <= 0xffff_ffff,
    ensures
        tallies_by_team(m@, rows@),
{
    broadcast use vstd::std_specs::hash::group_hash_axioms;

    let mut m: HashMap<u8, TeamTally> = HashMap::new();
    let n: usize = rows.len();
    let mut i: usize = 0;
    while i < n
        invariant
            n == rows@.len(),
            n <= 0xffff_ffff,
            i <= n,
            tallies_by_team(m@, rows@.subrange(0, i as int)),
        decreases n - i,
    {
        let a: AgentStats = rows[i];
        let ghost pre = rows@.subrange(0, i as int);
        let ghost post = rows@.subrange(0, i + 1);
        proof {
            assert(post.drop_last() =~= pre);
            assert(post.last() == a);
            lemma_tally_bounds(pre, a.team);
            assert((i as int) * 0xffff_ffff + 0xffff_ffff <= 0xffff_ffff * 0xffff_ffff);
        }
        let prev: TeamTally = match m.get(&a.team) {
            Some(x) => *x,
            None => {
                proof {
                    assert(!m@.contains_key(a.team));
                    lemma_absent_tally_zero(pre, a.team);
                }
                TeamTally { team: a.team, agents: 0, score: 0, kills: 0, deaths: 0 }
            },
        };
        assert(tally_is(prev, pre, a.team));
        let next = TeamTally {
            team: a.team,
            agents: prev.agents + 1,
            score: prev.score + a.score as u64,
            kills: prev.kills + a.kills as u64,
            deaths: prev.deaths + a.deaths as u64,
        };
        m.insert(a.team, next);
        proof {
            assert forall|t: u8|
                (#[trigger] m@.contains_key(t) <==> team_present(post, t)) && (m@.contains_key(t)
                    ==> tally_is(m@[t], post, t)) by {
                lemma_present_after_push(pre, post, t);
                if t != a.team {
                    assert(spec_tally(post, t) == spec_tally(pre, t));
                }
            }
        }
        i = i + 1;
    }
    assert(rows@.subrange(0, n as int) =~= rows@);
    m
}

/// A team is present after one more row exactly when it was before or the row
/// is on it.
proof fn lemma_present_after_push(pre: Seq<AgentStats>, post: Seq<AgentStats>, t: u8)
    requires
        post.len() == pre.len() + 1,
        post.drop_last() == pre,
    ensures
        team_present(post, t) <==> team_present(pre, t) || post.last().team == t,
{
    if team_present(pre, t) {
        let k = choose|k: int| 0 <= k < pre.len() && #[trigger] pre[k].team == t;
        assert(post[k].team == t);
    }
    if team_present(post, t) && post.last().team != t {
        let k = choose|k: int| 0 <= k < post.len() && #[trigger] post[k].team == t;
        assert(pre[k].team == t);
    }
    if post.last().team == t {
        assert(post[post.len() - 1].team == t);
    }
}

/// The totals of team `t` out of the gathered map, zero when it has no agents.
fn tally_from(m: &HashMap<u8, TeamTally>, t: u8, Ghost(rows): Ghost<Seq<AgentStats>>) -> (x: TeamTally)
    requires
        tallies_by_team(m@, rows),
    ensures
        tally_is(x, rows, t),
{
    broadcast use vstd::std_specs::hash::group_hash_axioms;

    match m.get(&t) {
        Some(x) => *x,
        None => {
            proof {
                assert(!m@.contains_key(t));
                lemma_absent_tally_zero(rows, t);
            }
            TeamTally { team: t, agents: 0, score: 0, kills: 0, deaths: 0 }
        },
    }
}

/// One tally per team that has agents, teams ascending.
pub fn team_tallies(rows: &Vec<AgentStats>) -> (out: Vec<TeamTally>)
    requires
        rows@.len() <= 0xffff_ffff,
    ensures
        forall|a: int, b: int| 0 <= a < b < out@.len() ==> out@[a].team < out@[b].team,
        forall|t: u8| team_present(rows@, t) <==> exists|k: int| 0 <= k < out@.len() && #[trigger] out@[k].team == t,
        forall|k: int|
            0 <= k < out@.len() ==> ((#[trigger] out@[k]).agents as int, out@[k].score as int, out@[k].kills as int, out@[k].deaths as int)
                == spec_tally(rows@, out@[k].team),
{
    let map = tally_map(rows);
    let teams = teams_of(rows);
    let ids = sorted_unique_teams(&teams);
    let m: usize = ids.len();
    let mut out: Vec<TeamTally> = Vec::new();
    let mut j: usize = 0;
    while j < m
        invariant
            m == ids@.len(),
            tallies_by_team(map@, rows@),
            j <= m,
            out@.len() == j,
            forall|k: int| 0 <= k < j ==> (#[trigger] out@[k]).team == ids@[k],
            forall|k: int|
                0 <= k < j ==> ((#[trigger] out@[k]).agents as int, out@[k].score as int, out@[k].kills as int, out@[k].deaths as int)
                    == spec_tally(rows@, out@[k].team),
        decreases m - j,
    {
        let t = tally_from(&map, ids[j], Ghost(rows@));
        out.push(t);
        j = j + 1;
    }
    assert forall|t: u8| team_present(rows@, t) <==> exists|k: int| 0 <= k < out@.len() && #[trigger] out@[k].team == t by {
        if team_present(rows@, t) {
            let k = choose|k: int| 0 <= k < rows@.len() && #[trigger] rows@[k].team == t;
            assert(teams@[k] == t);
            assert(ids@.contains(t));
            let q = choose|q: int| 0 <= q < ids@.len() && ids@[q] == t;
            assert(out@[q].team == t);
        }
        if exists|k: int| 0 <= k < out@.len() && #[trigger] out@[k].team == t {
            let k = choose|k: int| 0 <= k < out@.len() && #[trigger] out@[k].team == t;
            assert(ids@[k] == t);
            assert(ids@.contains(t));
            assert(teams@.contains(t));
            let q = choose|q: int| 0 <= q < teams@.len() && teams@[q] == t;
            assert(rows@[q].team == t);
        }
    }
    out
}

/// A team's card on the end screen.
#[derive(Clone, Copy, PartialEq, Eq, Debug, Structural)]
pub struct TeamCard {
    pub team: u8,
    pub kills: u32,
    pub deaths: u32,
}

/// The teams shown on the end screen: every team with agents, plus teams 0
/// and 1 always.
pub open spec fn card_team(rows: Seq<AgentStats>, t: u8) -> bool {
    team_present(rows, t) || t == 0 || t == 1
}

/// End-screen cards: kills and deaths per team, teams ascending, teams 0 and
/// 1 always present (with zero totals when they have no agents).
pub fn end_screen_cards(rows: &Vec<AgentStats>) -> (cards: Vec<TeamCard>)
    requires
        rows@.len() <= 0xffff_ffff,
        forall|t: u8| spec_tally(rows@, t).2 <= u32::MAX && spec_tally(rows@, t).3 <= u32::MAX,
    ensures
        forall|a: int, b: int| 0 <= a < b < cards@.len() ==> cards@[a].team < cards@[b].team,
        forall|t: u8| card_team(rows@, t) <==> exists|k: int| 0 <= k < cards@.len() && #[trigger] cards@[k].team == t,
        forall|k: int|
            0 <= k < cards@.len() ==> (#[trigger] cards@[k]).kills == spec_tally(rows@, cards@[k].team).2
                && cards@[k].deaths == spec_tally(rows@, cards@[k].team).3,
{
    let map = tally_map(rows);
    let mut teams = teams_of(rows);
    teams.push(0);
    teams.push(1);
    let ids = sorted_unique_teams(&teams);
    let m: usize = ids.len();
    let mut cards: Vec<TeamCard> = Vec::new();
    let mut j: usize = 0;
    while j < m
        invariant
            m == ids@.len(),
            tallies_by_team(map@, rows@),
            forall|t: u8| spec_tally(rows@, t).2 <= u32::MAX && spec_tally(rows@, t).3 <= u32::MAX,
            j <= m,
            cards@.len() == j,
            forall|k: int| 0 <= k < j ==> (#[trigger] cards@[k]).team == ids@[k],
            forall|k: int|
                0 <= k < j ==> (#[trigger] cards@[k]).kills == spec_tally(rows@, cards@[k].team).2
                    && cards@[k].deaths == spec_tally(rows@, cards@[k].team).3,
        decreases m - j,
    {
        let t = tally_from(&map, ids[j], Ghost(rows@));
        cards.push(TeamCard { team: t.team, kills: t.kills as u32, deaths: t.deaths as u32 });
        j = j + 1;
    }
    assert forall|t: u8| card_team(rows@, t) <==> exists|k: int| 0 <= k < cards@.len() && #[trigger] cards@[k].team == t by {
        let n = rows@.len() as int;
        if card_team(rows@, t) {
            if team_present(rows@, t) {
                let k = choose|k: int| 0 <= k < rows@.len() && #[trigger] rows@[k].team == t;
                assert(teams@[k] == t);
            } else if t == 0 {
                assert(teams@[n] == t);
            } else {
                assert(teams@[n + 1] == t);
            }
            assert(ids@.contains(t));
            let q = choose|q: int| 0 <= q < ids@.len() && ids@[q] == t;
            assert(cards@[q].team == t);
        }
        if exists|k: int| 0 <= k < cards@.len() && #[trigger] cards@[k].team == t {
            let k = choose|k: int| 0 <= k < cards@.len() && #[trigger] cards@[k].team == t;
            assert(ids@[k] == t);
            assert(teams@.contains(t));
            let q = choose|q: int| 0 <= q < teams@.len() && teams@[q] == t;
            if q < n {
                assert(rows@[q].team == t);
            }
        }
    }
    cards
}

/// How the end screen announces a two-team match.
#[derive(Clone, Copy, PartialEq, Eq, Debug, Structural)]
pub enum MatchOutcome {
    Winner(u8),
    Draw,
}

/// The outcome between team 0 (`red`) and team 1 (`blue`) by team score:
/// the higher score wins; equal scores are a draw.
pub open spec fn spec_match_outcome(red: u32, blue: u32) -> MatchOutcome {
    if red > blue {
        MatchOutcome::Winner(0)
    } else if blue > red {
        MatchOutcome::Winner(1)
    } else {
        MatchOutcome::Draw
    }
}

/// The end screen's announcement for a two-team match.
pub fn match_outcome(red: u32, blue: u32) -> (o: MatchOutcome)
    ensures
        o == spec_match_outcome(red, blue),
{
    // the later of equal maxima leads; a tie is then reported as a draw
    let leader: u8 = if red > blue { 0 } else { 1 };
    let winning: u32 = if leader == 0 { red } else { blue };
    let tied: bool = (red == winning) && (blue == winning);
    if tied {
        MatchOutcome::Draw
    } else {
        MatchOutcome::Winner(leader)
    }
}

/// A strictly higher score wins, for either team, and only equal scores
/// draw.
pub proof fn law_higher_score_wins(red: u32, blue: u32)
    ensures
        red > blue ==> spec_match_outcome(red, blue) == MatchOutcome::Winner(0),
        blue > red ==> spec_match_outcome(red, blue) == MatchOutcome::Winner(1),
        spec_match_outcome(red, blue) == MatchOutcome::Draw <==> red == blue,
        spec_match_outcome(red, blue) matches MatchOutcome::Winner(t) ==> t == 0 || t == 1,
{
}

/// Swapping the two teams' scores swaps the winner; a draw stays a draw.
pub proof fn law_match_outcome_symmetric(red: u32, blue: u32)
    ensures
        spec_match_outcome(red, blue) == MatchOutcome::Draw <==> spec_match_outcome(blue, red)
            == MatchOutcome::Draw,
        spec_match_outcome(red, blue) == MatchOutcome::Winner(0) <==> spec_match_outcome(blue, red)
            == MatchOutcome::Winner(1),
        spec_match_outcome(red, blue) == MatchOutcome::Winner(1) <==> spec_match_outcome(blue, red)
            == MatchOutcome::Winner(0),
{
}

/// The leading team: the team id with the highest score, the last such id
/// when several share it; `None` when there are no teams.
pub fn leading_team(scores: &Vec<u32>) -> (lead: Option<u8>)
    requires
        scores@.len() <= 256,
    ensures
        scores@.len() == 0 <==> lead is None,
        lead matches Some(t) ==> {
            &&& (t as int) < scores@.len()
            &&& forall|k: int| 0 <= k < scores@.len() ==> scores@[k] <= scores@[t as int]
            &&& forall|k: int| t < k < scores@.len() ==> scores@[k] < scores@[t as int]
        },
{
    let n: usize = scores.len();
    if n == 0 {
        return None;
    }
    let mut best: usize = 0;
    let mut i: usize = 1;
    while i < n
        invariant
            n == scores@.len(),
            n <= 256,
            1 <= i <= n,
            best < i,
            forall|k: int| 0 <= k < i ==> scores@[k] <= scores@[best as int],
            forall|k: int| best < k < i ==> scores@[k] < scores@[best as int],
        decreases n - i,
    {
        if scores[i] >= scores[best] {
            best = i;
        }
        i = i + 1;
    }
    Some(best as u8)
}

/// What a hit-point cell shows.
#[derive(Clone, Copy, PartialEq, Eq, Debug, Structural)]
pub enum HpText {
    /// "dead": the agent is waiting to respawn.
    Dead,
    /// "hearts/max".
    Hearts(u8, u8),
}

/// The hit-point cell of an agent with `hearts` of `max_hearts`.
pub fn hp_text(hearts: u8, max_hearts: u8, respawning: bool) -> (t: HpText)
    ensures
        t == if respawning {
            HpText::Dead
        } else {
            HpText::Hearts(hearts, max_hearts)
        },
{
    if respawning {
        HpText::Dead
    } else {
        HpText::Hearts(hearts, max_hearts)
    }
}

/// The colour band of a hit-point cell.
#[derive(Clone, Copy, PartialEq, Eq, Debug, Structural)]
pub enum HpShade {
    /// grey: respawning, or no hearts left
    Dim,
    /// red: one heart
    Critical,
    /// orange: two hearts
    Low,
    /// green: three or more
    Healthy,
}

pub fn hp_shade(hearts: u8, respawning: bool) -> (s: HpShade)
    ensures
        s == if respawning || hearts == 0 {
            HpShade::Dim
        } else if hearts == 1 {
            HpShade::Critical
        } else if hearts == 2 {
            HpShade::Low
        } else {
            HpShade::Healthy
        },
{
    if respawning {
        return HpShade::Dim;
    }
    match hearts {
        0 => HpShade::Dim,
        1 => HpShade::Critical,
        2 => HpShade::Low,
        _ => HpShade::Healthy,
    }
}

/// The summed score of every agent.
pub open spec fn total_score(rows: Seq<AgentStats>) -> int
    decreases rows.len(),
{
    if rows.len() == 0 {
        0
    } else {
        total_score(rows.drop_last()) + rows.last().score
    }
}

/// The team scores of teams `0..n`, added up.
pub open spec fn sum_team_scores(rows: Seq<AgentStats>, n: nat) -> int
    decreases n,
{
    if n == 0 {
        0
    } else {
        sum_team_scores(rows, (n - 1) as nat) + spec_tally(rows, (n - 1) as u8).1
    }
}

/// The number of teams: one more than the highest team id, 0 without agents.
pub open spec fn spec_n_teams(rows: Seq<AgentStats>) -> int
    decreases rows.len(),
{
    if rows.len() == 0 {
        0
    } else {
        let prev = spec_n_teams(rows.drop_last());
        let t = rows.last().team as int + 1;
        if t > prev {
            t
        } else {
            prev
        }
    }
}

/// The team count exceeds every agent's team id, is at most 256, and is one
/// more than some agent's team id when there are agents.
pub proof fn lemma_n_teams_bounds(rows: Seq<AgentStats>)
    ensures
        0 <= spec_n_teams(rows) <= 256,
        forall|k: int| 0 <= k < rows.len() ==> (#[trigger] rows[k]).team < spec_n_teams(rows),
        rows.len() > 0 ==> exists|k: int| 0 <= k < rows.len() && (#[trigger] rows[k]).team + 1 == spec_n_teams(rows),
        rows.len() == 0 ==> spec_n_teams(rows) == 0,
    decreases rows.len(),
{
    if rows.len() > 0 {
        let p = rows.drop_last();
        lemma_n_teams_bounds(p);
        assert forall|k: int| 0 <= k < rows.len() implies (#[trigger] rows[k]).team < spec_n_teams(rows) by {
            if k < rows.len() - 1 {
                assert(p[k] == rows[k]);
            }
        }
        if rows.last().team as int + 1 > spec_n_teams(p) {
            assert(rows[rows.len() - 1].team + 1 == spec_n_teams(rows));
        } else {
            let k = choose|k: int| 0 <= k < p.len() && (#[trigger] p[k]).team + 1 == spec_n_teams(p);
            assert(rows[k] == p[k]);
        }
    }
}

/// The summed score of the agents on `team`.
pub fn team_score(rows: &Vec<AgentStats>, team: u8) -> (s: u32)
    requires
        rows@.len() <= 0xffff_ffff,
        spec_tally(rows@, team).1 <= u32::MAX,
    ensures
        s == spec_tally(rows@, team).1,
{
    let t = team_tally(rows, team);
    t.score as u32
}

/// The number of teams: one more than the highest team id among the agents,
/// or 0 when there are none.
pub fn n_teams(rows: &Vec<AgentStats>) -> (n: u8)
    requires
        forall|k: int| 0 <= k < rows@.len() ==> (#[trigger] rows@[k]).team < 255,
    ensures
        n == spec_n_teams(rows@),
{
    let len: usize = rows.len();
    let mut best: u8 = 0;
    let mut i: usize = 0;
    while i < len
        invariant
            len == rows@.len(),
            i <= len,
            forall|k: int| 0 <= k < rows@.len() ==> (#[trigger] rows@[k]).team < 255,
            best == spec_n_teams(rows@.subrange(0, i as int)),
        decreases len - i,
    {
        proof {
            assert(rows@.subrange(0, i + 1).drop_last() =~= rows@.subrange(0, i as int));
        }
        let t: u8 = rows[i].team + 1;
        if t > best {
            best = t;
        }
        i = i + 1;
    }
    assert(rows@.subrange(0, len as int) =~= rows@);
    best
}

proof fn lemma_sum_team_scores_step(rows: Seq<AgentStats>, n: nat)
    requires
        rows.len() > 0,
        n <= 256,
    ensures
        sum_team_scores(rows, n) == sum_team_scores(rows.drop_last(), n) + if (rows.last().team as int)
            < n {
            rows.last().score as int
        } else {
            0
        },
    decreases n,
{
    if n > 0 {
        lemma_sum_team_scores_step(rows, (n - 1) as nat);
    }
}

/// Every point scored is some team's: the team scores of all teams add up to
/// the agents' total score.
pub proof fn law_team_scores_sum_to_total(rows: Seq<AgentStats>)
    ensures
        sum_team_scores(rows, spec_n_teams(rows) as nat) == total_score(rows),
{
    lemma_n_teams_bounds(rows);
    lemma_sum_below_all(rows, spec_n_teams(rows) as nat);
}

proof fn lemma_sum_below_all(rows: Seq<AgentStats>, n: nat)
    requires
        n <= 256,
        forall|k: int| 0 <= k < rows.len() ==> (#[trigger] rows[k]).team < n,
    ensures
        sum_team_scores(rows, n) == total_score(rows),
    decreases rows.len(),
{
    if rows.len() == 0 {
        lemma_sum_empty(rows, n);
    } else {
        let p = rows.drop_last();
        assert forall|k: int| 0 <= k < p.len() implies (#[trigger] p[k]).team < n by {
            assert(p[k] == rows[k]);
        }
        lemma_sum_below_all(p, n);
        lemma_sum_team_scores_step(rows, n);
        assert(rows[rows.len() - 1].team < n);
    }
}

proof fn lemma_sum_empty(rows: Seq<AgentStats>, n: nat)
    requires
        rows.len() == 0,
    ensures
        sum_team_scores(rows, n) == 0,
    decreases n,
{
    if n > 0 {
        lemma_sum_empty(rows, (n - 1) as nat);
    }
}

/// Whether the scoreboard rows are rebuilt this frame: only while the panel
/// is shown, and only when the row count no longer matches the agent count.
pub fn rows_need_rebuild(panel_visible: bool, rows: usize, agents: usize) -> (b: bool)
    ensures
        b == (panel_visible && rows != agents),
{
    panel_visible && rows != agents
}

/// Whether the end-screen cards are filled this frame: only once the game is
/// over, and only while the cards are not there yet, so a later frame adds
/// nothing.
pub fn should_populate_cards(game_over: bool, populated: bool) -> (b: bool)
    ensures
        b == (game_over && !populated),
{
    game_over && !populated
}

/// What a buff cell shows: the ticks the buff has left, or a dash when the
/// buff is inactive (the cell then takes the dim colour).
#[derive(Clone, Copy, PartialEq, Eq, Debug, Structural)]
pub enum BuffCell {
    Ticks(u16),
    Inactive,
}

pub fn buff_cell(ticks: u16) -> (c: BuffCell)
    ensures
        c == if ticks > 0 {
            BuffCell::Ticks(ticks)
        } else {
            BuffCell::Inactive
        },
{
    if ticks > 0 {
        BuffCell::Ticks(ticks)
    } else {
        BuffCell::Inactive
    }
}

} // verus!
