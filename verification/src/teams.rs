//! Team ids: names, and the sorted set of teams present among agents.
use vstd::prelude::*;

verus! {

/// Strictly increasing, hence free of repeats.
pub open spec fn strictly_increasing(s: Seq<u8>) -> bool {
    forall|i: int, j: int| 0 <= i < j < s.len() ==> s[i] < s[j]
}

/// The distinct ids of `teams`, ascending (sort, then drop repeats).
pub fn sorted_unique_teams(teams: &Vec<u8>) -> (out: Vec<u8>)
    ensures
        strictly_increasing(out@),
        forall|t: u8| out@.contains(t) <==> teams@.contains(t),
{
    let mut out: Vec<u8> = Vec::new();
    let n: usize = teams.len();
    let mut i: usize = 0;
    while i < n
        invariant
            n == teams@.len(),
            i <= n,
            strictly_increasing(out@),
            forall|t: u8| out@.contains(t) <==> teams@.subrange(0, i as int).contains(t),
        decreases n - i,
    {
        let t: u8 = teams[i];
        out = insert_sorted(&out, t);
        proof {
            let pre = teams@.subrange(0, i as int);
            let post = teams@.subrange(0, i as int + 1);
            assert(post =~= pre.push(t));
            assert forall|u: u8| out@.contains(u) <==> post.contains(u) by {
                if post.contains(u) && u != t {
                    let k = choose|k: int| 0 <= k < post.len() && post[k] == u;
                    assert(pre[k] == u);
                }
                if pre.contains(u) {
                    let k = choose|k: int| 0 <= k < pre.len() && pre[k] == u;
                    assert(post[k] == u);
                }
                if u == t {
                    assert(post[post.len() - 1] == u);
                }
            }
        }
        i = i + 1;
    }
    assert(teams@.subrange(0, n as int) =~= teams@);
    out
}

/// `s` with `t` added in order, unless already present.
fn insert_sorted(s: &Vec<u8>, t: u8) -> (out: Vec<u8>)
    requires
        strictly_increasing(s@),
    ensures
        strictly_increasing(out@),
        forall|u: u8| out@.contains(u) <==> (s@.contains(u) || u == t),
{
    let n: usize = s.len();
    let mut out: Vec<u8> = Vec::new();
    let mut i: usize = 0;
    // copy the ids below t
    while i < n && s[i] < t
        invariant
            n == s@.len(),
            i <= n,
            strictly_increasing(s@),
            out@ == s@.subrange(0, i as int),
            forall|k: int| 0 <= k < i ==> s@[k] < t,
        decreases n - i,
    {
        out.push(s[i]);
        i = i + 1;
        assert(out@ =~= s@.subrange(0, i as int));
    }
    let ghost split = i as int;
    out.push(t);
    if i < n && s[i] == t {
        i = i + 1;
    }
    let ghost resume = i as int;
    assert(forall|k: int| resume <= k < n ==> s@[k] > t);
    while i < n
        invariant
            n == s@.len(),
            0 <= split <= resume <= i <= n,
            strictly_increasing(s@),
            forall|k: int| resume <= k < n ==> s@[k] > t,
            forall|k: int| 0 <= k < split ==> s@[k] < t,
            resume == split || (resume == split + 1 && s@[split] == t),
            out@ == s@.subrange(0, split).push(t) + s@.subrange(resume, i as int),
        decreases n - i,
    {
        let ghost a = s@.subrange(0, split).push(t);
        let ghost b = s@.subrange(resume, i as int);
        let v: u8 = s[i];
        out.push(v);
        i = i + 1;
        assert(s@.subrange(resume, i as int) =~= b.push(v));
        assert(out@ =~= a + b.push(v));
    }
    proof {
        let a = s@.subrange(0, split);
        let b = s@.subrange(resume, n as int);
        assert(out@ =~= a.push(t) + b);
        assert forall|x: int, y: int| 0 <= x < y < out@.len() implies out@[x] < out@[y] by {
            if y < split {
            } else if y == split {
            } else if x < split {
                assert(out@[y] == s@[resume + (y - split - 1)]);
            } else if x == split {
                assert(out@[y] == s@[resume + (y - split - 1)]);
            } else {
                assert(out@[y] == s@[resume + (y - split - 1)]);
                assert(out@[x] == s@[resume + (x - split - 1)]);
            }
        }
        assert forall|u: u8| out@.contains(u) <==> (s@.contains(u) || u == t) by {
            if out@.contains(u) {
                let k = choose|k: int| 0 <= k < out@.len() && out@[k] == u;
                if k < split {
                    assert(s@[k] == u);
                } else if k > split {
                    assert(s@[resume + (k - split - 1)] == u);
                }
            }
            if s@.contains(u) {
                let k = choose|k: int| 0 <= k < s@.len() && s@[k] == u;
                if k < split {
                    assert(out@[k] == u);
                } else if k < resume {
                    assert(u == t);
                    assert(out@[split] == u);
                } else {
                    assert(out@[split + 1 + (k - resume)] == u);
                }
            }
            if u == t {
                assert(out@[split] == u);
            }
        }
    }
    out
}

/// The display name of a team id; ids without a name are "Unknown".
pub open spec fn spec_team_name(team: u8) -> Seq<char> {
    if team == 0 {
        "Red"@
    } else if team == 1 {
        "Blue"@
    } else if team == 2 {
        "Green"@
    } else if team == 3 {
        "Yellow"@
    } else {
        "Unknown"@
    }
}

/// A team of the arena, by id.
#[derive(Clone, Copy, PartialEq, Eq, Debug, Hash, Structural)]
pub struct Team(pub u8);

impl Team {
    /// The team's display name.
    pub fn name(self) -> (s: &'static str)
        ensures
            s@ == spec_team_name(self.0),
    {
        if self.0 == 0 {
            "Red"
        } else if self.0 == 1 {
            "Blue"
        } else if self.0 == 2 {
            "Green"
        } else if self.0 == 3 {
            "Yellow"
        } else {
            "Unknown"
        }
    }
}

/// The team of an agent of a hand-made map file: its team number cut to a
/// byte, team 0 when the file names none.
pub fn team_of_map_agent(team: Option<u32>) -> (t: u8)
    ensures
        t == match team {
            Some(n) => (n % 256) as u8,
            None => 0u8,
        },
{
    match team {
        Some(n) => {
            let t: u8 = (n % 256) as u8;
            t
        },
        None => 0,
    }
}

} // verus!
