//! Toolbar and menu state: simulation speed steps, the speed label, pausing,
//! and the load menu that picks a world config and a policy.
use vstd::prelude::*;

verus! {

/// A press of the speed buttons (or arrow keys).
#[derive(Clone, Copy, PartialEq, Eq, Debug, Structural)]
pub enum SpeedStep {
    Down,
    Up,
}

/// The index into the available speeds after a step from the speed at `idx`:
/// one slower or one faster, held at the slowest and fastest speed.
pub open spec fn spec_step_speed_index(idx: int, len: int, step: SpeedStep) -> int {
    match step {
        SpeedStep::Down => if idx > 0 { idx - 1 } else { 0 },
        SpeedStep::Up => if idx + 1 < len { idx + 1 } else { len - 1 },
    }
}

pub fn step_speed_index(idx: usize, len: usize, step: SpeedStep) -> (r: usize)
    requires
        idx < len,
    ensures
        r == spec_step_speed_index(idx as int, len as int, step),
{
    match step {
        SpeedStep::Down => if idx > 0 { idx - 1 } else { 0 },
        SpeedStep::Up => {
            let max: usize = len - 1;
            if idx + 1 < max { idx + 1 } else { max }
        },
    }
}

/// A step keeps the speed among the available ones, never moves it the wrong
/// way, and moves it by at most one place; it moves whenever it can.
pub proof fn law_speed_step_monotone(idx: int, len: int)
    requires
        0 <= idx < len,
    ensures
        ({
            let down = spec_step_speed_index(idx, len, SpeedStep::Down);
            let up = spec_step_speed_index(idx, len, SpeedStep::Up);
            &&& 0 <= down <= idx <= up < len
            &&& idx - down <= 1
            &&& up - idx <= 1
            &&& (idx > 0 ==> down < idx)
            &&& (idx + 1 < len ==> idx < up)
        }),
{
}

/// The speed label: whole ticks per second, in thousands ("5k") from a
/// thousand up, else as a multiplier ("25x").
#[derive(Clone, Copy, PartialEq, Eq, Debug, Structural)]
pub enum SpeedLabel {
    Thousands(u32),
    Times(u32),
}

/// The label for a speed of `whole` ticks per second (the speed with its
/// fraction dropped).
pub fn speed_label(whole: u32) -> (l: SpeedLabel)
    ensures
        l == if whole >= 1000 {
            SpeedLabel::Thousands(whole / 1000)
        } else {
            SpeedLabel::Times(whole)
        },
{
    if whole >= 1000 {
        SpeedLabel::Thousands(whole / 1000)
    } else {
        SpeedLabel::Times(whole)
    }
}

/// The pause state after `toggles` presses of pause (button clicks and the
/// space key each flip it).
pub fn paused_after(paused: bool, toggles: usize) -> (p: bool)
    ensures
        p == if toggles % 2 == 0 {
            paused
        } else {
            !paused
        },
{
    if toggles % 2 == 0 {
        paused
    } else {
        !paused
    }
}

/// A request to load a world config and a policy, picked up by the bridge.
pub struct LoadRequest {
    pub pending: bool,
    pub config_path: String,
    /// Empty: no learned policy, fall back to the behaviour tree.
    pub policy_path: String,
}

impl LoadRequest {
    /// Nothing requested.
    pub fn new() -> (r: LoadRequest)
        ensures
            !r.pending,
            r.config_path@.len() == 0,
            r.policy_path@.len() == 0,
    {
        LoadRequest { pending: false, config_path: String::new(), policy_path: String::new() }
    }
}

/// The load menu: the world configs and policies on offer, as (label, path)
/// pairs, and the current pick of each.
pub struct LoadMenuState {
    pub visible: bool,
    pub configs: Vec<(String, String)>,
    pub policies: Vec<(String, String)>,
    pub sel_config: usize,
    pub sel_policy: usize,
}

/// The path picked from a list, or `fallback` when the pick is off the list.
pub open spec fn picked_path(entries: Seq<(String, String)>, sel: usize, fallback: Seq<char>) -> Seq<
    char,
> {
    if sel < entries.len() {
        entries[sel as int].1@
    } else {
        fallback
    }
}

impl LoadMenuState {
    /// A hidden menu over the given entries, first entry of each picked.
    pub fn new(configs: Vec<(String, String)>, policies: Vec<(String, String)>) -> (s: LoadMenuState)
        ensures
            !s.visible,
            s.configs@ == configs@,
            s.policies@ == policies@,
            s.sel_config == 0,
            s.sel_policy == 0,
    {
        LoadMenuState { visible: false, configs, policies, sel_config: 0, sel_policy: 0 }
    }

    /// The menu key flips visibility; escape then closes an open menu.
    pub fn on_keys(&mut self, menu_key: bool, escape: bool)
        ensures
            final(self).visible == ((if menu_key {
                !old(self).visible
            } else {
                old(self).visible
            }) && !escape),
            final(self).configs@ == old(self).configs@,
            final(self).policies@ == old(self).policies@,
            final(self).sel_config == old(self).sel_config,
            final(self).sel_policy == old(self).sel_policy,
    {
        if menu_key {
            self.visible = !self.visible;
        }
        if escape && self.visible {
            self.visible = false;
        }
    }

    /// A config entry was clicked.
    pub fn select_config(&mut self, index: usize)
        ensures
            final(self).sel_config == index,
            final(self).sel_policy == old(self).sel_policy,
            final(self).visible == old(self).visible,
            final(self).configs@ == old(self).configs@,
            final(self).policies@ == old(self).policies@,
    {
        self.sel_config = index;
    }

    /// A policy entry was clicked.
    pub fn select_policy(&mut self, index: usize)
        ensures
            final(self).sel_policy == index,
            final(self).sel_config == old(self).sel_config,
            final(self).visible == old(self).visible,
            final(self).configs@ == old(self).configs@,
            final(self).policies@ == old(self).policies@,
    {
        self.sel_policy = index;
    }

    /// Confirm: request the picked config (the default config when the pick
    /// is off the list) and the picked policy (none when off the list), and
    /// close the menu.
    pub fn confirm(&mut self, default_config: &str, req: &mut LoadRequest)
        ensures
            final(req).pending,
            final(req).config_path@ == picked_path(old(self).configs@, old(self).sel_config, default_config@),
            final(req).policy_path@ == picked_path(old(self).policies@, old(self).sel_policy, Seq::empty()),
            !final(self).visible,
            final(self).configs@ == old(self).configs@,
            final(self).policies@ == old(self).policies@,
            final(self).sel_config == old(self).sel_config,
            final(self).sel_policy == old(self).sel_policy,
    {
        req.config_path = if self.sel_config < self.configs.len() {
            self.configs[self.sel_config].1.clone()
        } else {
            default_config.to_owned()
        };
        req.policy_path = if self.sel_policy < self.policies.len() {
            self.policies[self.sel_policy].1.clone()
        } else {
            String::new()
        };
        req.pending = true;
        self.visible = false;
    }

    /// Cancel: close the menu.
    pub fn cancel(&mut self)
        ensures
            !final(self).visible,
            final(self).configs@ == old(self).configs@,
            final(self).policies@ == old(self).policies@,
            final(self).sel_config == old(self).sel_config,
            final(self).sel_policy == old(self).sel_policy,
    {
        self.visible = false;
    }
}

/// The heart pips drawn beside an agent: one per possible heart, filled for
/// the hearts it has.
pub fn heart_pips(hearts: u8, max_hearts: u8) -> (pips: Vec<bool>)
    ensures
        pips@.len() == max_hearts,
        forall|i: int| 0 <= i < max_hearts ==> pips@[i] == (i < hearts),
{
    let mut pips: Vec<bool> = Vec::new();
    let mut i: u8 = 0;
    while i < max_hearts
        invariant
            i <= max_hearts,
            pips@.len() == i,
            forall|k: int| 0 <= k < i ==> pips@[k] == (k < hearts),
        decreases max_hearts - i,
    {
        pips.push(i < hearts);
        i = i + 1;
    }
    pips
}

/// A world-config file offered in the load menu: `config_stage<N>.ron`.
pub open spec fn is_stage_file(name: Seq<char>) -> bool {
    &&& name.len() >= 12
    &&& name.subrange(0, 12) == "config_stage"@
    &&& name.len() >= 4
    &&& name.subrange(name.len() - 4, name.len() as int) == ".ron"@
}

/// The menu label of a stage file: "Stage " and what follows the prefix in
/// the file's stem; `None` for any other file.
pub fn stage_label(file_name: &str) -> (label: Option<String>)
    ensures
        label is Some <==> is_stage_file(file_name@),
        label matches Some(l) ==> file_name@.len() >= 16 && l@ == "Stage "@ + file_name@.subrange(
            12,
            file_name@.len() - 4,
        ),
{
    let prefix = "config_stage";
    let suffix = ".ron";
    proof {
        reveal_strlit("config_stage");
        reveal_strlit(".ron");
    }
    let n: usize = file_name.unicode_len();
    if n < 12 || n < 4 {
        return None;
    }
    let mut i: usize = 0;
    while i < 12
        invariant
            n == file_name@.len(),
            12 <= n,
            i <= 12,
            prefix@ == "config_stage"@,
            prefix@.len() == 12,
            forall|k: int| 0 <= k < i ==> file_name@[k] == prefix@[k],
        decreases 12 - i,
    {
        if file_name.get_char(i) != prefix.get_char(i) {
            assert(file_name@.subrange(0, 12)[i as int] != "config_stage"@[i as int]);
            return None;
        }
        i = i + 1;
    }
    assert(file_name@.subrange(0, 12) =~= "config_stage"@);
    let mut j: usize = 0;
    while j < 4
        invariant
            n == file_name@.len(),
            12 <= n,
            j <= 4,
            suffix@ == ".ron"@,
            suffix@.len() == 4,
            forall|k: int| 0 <= k < j ==> file_name@[n - 4 + k] == suffix@[k],
        decreases 4 - j,
    {
        if file_name.get_char(n - 4 + j) != suffix.get_char(j) {
            assert(file_name@.subrange(n - 4, n as int)[j as int] != ".ron"@[j as int]);
            return None;
        }
        j = j + 1;
    }
    assert(file_name@.subrange(n - 4, n as int) =~= ".ron"@);
    // the prefix and the suffix cannot overlap: no '.' in "tage"
    if n < 16 {
        assert(file_name@[n - 4 + 0] == suffix@[0]);
        assert(".ron"@[0] == '.');
        assert(file_name@[n - 4] == '.');
        assert(file_name@[n - 4] == "config_stage"@[n - 4]);
        assert(false);
    }
    let rest: &str = file_name.substring_char(12, n - 4);
    let mut label = String::from_str("Stage ");
    proof {
        reveal_strlit("Stage ");
    }
    label.append(rest);
    Some(label)
}

} // verus!
