use atb::hud::{heart_pips, paused_after, speed_label, step_speed_index, LoadMenuState, LoadRequest, SpeedLabel, SpeedStep};
use atb::items::{initial_item_cells, spawn_configs, ItemCounts, ItemKind, ItemSpawnConfig, ItemSpawnerRon, TimedSpawnConfig};
use atb::grid::Grid;
use atb::items::place_item_cells;
use atb::paths::{normalize_parts, PathPart};

fn n(s: &str) -> PathPart {
    PathPart::Normal(s.to_string())
}

fn show(v: &[PathPart]) -> Vec<String> {
    v.iter()
        .map(|p| match p {
            PathPart::Prefix(s) | PathPart::Normal(s) => s.clone(),
            PathPart::Root => "/".into(),
            PathPart::CurDir => ".".into(),
            PathPart::ParentDir => "..".into(),
        })
        .collect()
}
use atb::teams::{sorted_unique_teams, team_of_map_agent, Team};
use atb::tile::Tile;

#[test]
fn speed_steps_hold_at_the_ends() {
    assert_eq!(step_speed_index(3, 12, SpeedStep::Down), 2);
    assert_eq!(step_speed_index(0, 12, SpeedStep::Down), 0);
    assert_eq!(step_speed_index(3, 12, SpeedStep::Up), 4);
    assert_eq!(step_speed_index(11, 12, SpeedStep::Up), 11);
    assert_eq!(step_speed_index(0, 1, SpeedStep::Up), 0);
}

#[test]
fn speed_labels() {
    assert_eq!(speed_label(25), SpeedLabel::Times(25));
    assert_eq!(speed_label(999), SpeedLabel::Times(999));
    assert_eq!(speed_label(1000), SpeedLabel::Thousands(1));
    assert_eq!(speed_label(2500), SpeedLabel::Thousands(2));
}

#[test]
fn pause_flips_per_toggle() {
    assert!(!paused_after(false, 0));
    assert!(paused_after(false, 1));
    assert!(!paused_after(false, 2));
    assert!(!paused_after(true, 1));
}

#[test]
fn heart_pips_fill_from_the_bottom() {
    assert_eq!(heart_pips(2, 3), vec![true, true, false]);
    assert_eq!(heart_pips(0, 2), vec![false, false]);
    assert_eq!(heart_pips(5, 3), vec![true, true, true]);
}

fn entries(v: &[(&str, &str)]) -> Vec<(String, String)> {
    v.iter().map(|(a, b)| (a.to_string(), b.to_string())).collect()
}

#[test]
fn load_menu_confirm_builds_request() {
    let mut m = LoadMenuState::new(
        entries(&[("Default", "w/default.ron"), ("Stage 1", "w/config_stage1.ron")]),
        entries(&[("None", ""), ("Default", "m/policy.onnx")]),
    );
    assert!(!m.visible);
    m.on_keys(true, false);
    assert!(m.visible);
    m.select_config(1);
    m.select_policy(1);
    let mut req = LoadRequest::new();
    assert!(!req.pending);
    m.confirm("w/fallback.ron", &mut req);
    assert!(req.pending);
    assert_eq!(req.config_path, "w/config_stage1.ron");
    assert_eq!(req.policy_path, "m/policy.onnx");
    assert!(!m.visible);
}

#[test]
fn load_menu_picks_off_the_list_fall_back() {
    let mut m = LoadMenuState::new(entries(&[]), entries(&[]));
    m.select_config(4);
    m.select_policy(2);
    let mut req = LoadRequest::new();
    m.confirm("w/fallback.ron", &mut req);
    assert_eq!(req.config_path, "w/fallback.ron");
    assert_eq!(req.policy_path, "");
}

#[test]
fn load_menu_keys_and_cancel() {
    let mut m = LoadMenuState::new(entries(&[]), entries(&[]));
    m.on_keys(true, true);
    assert!(!m.visible);
    m.on_keys(true, false);
    m.on_keys(false, true);
    assert!(!m.visible);
    m.on_keys(true, false);
    m.cancel();
    assert!(!m.visible);
}

#[test]
fn spawn_configs_skip_empty_kinds() {
    let c = spawn_configs(ItemCounts { gold: 3, health: 0, ammo: 1, speed_boost: 0 });
    assert_eq!(
        c,
        vec![
            ItemSpawnConfig { kind: ItemKind::Gold, max_on_map: 6 },
            ItemSpawnConfig { kind: ItemKind::Ammo, max_on_map: 2 },
        ]
    );
    assert!(spawn_configs(ItemCounts { gold: 0, health: 0, ammo: 0, speed_boost: 0 }).is_empty());
}

#[test]
fn map_file_spawner_entries() {
    let gold = ItemSpawnerRon { kind: "Gold".to_string(), interval_ticks: 30, max_on_map: 4, initial: 2 };
    assert_eq!(
        gold.to_config(),
        Some(TimedSpawnConfig { kind: ItemKind::Gold, interval_ticks: 30, max_on_map: 4 })
    );
    let other = ItemSpawnerRon { kind: "Ammo".to_string(), interval_ticks: 30, max_on_map: 4, initial: 2 };
    assert_eq!(other.to_config(), None);
}

#[test]
fn initial_items_land_on_free_cells() {
    let mut g = Grid::new(6, 4);
    for x in 0..6 {
        g.set(x, 0, Tile::Obstacle);
    }
    g.set(3, 2, Tile::Base(0));
    let cfgs = vec![
        ItemSpawnConfig { kind: ItemKind::Gold, max_on_map: 8 },
        ItemSpawnConfig { kind: ItemKind::Health, max_on_map: 1 },
    ];
    let groups = initial_item_cells(&g, &cfgs);
    assert_eq!(groups.len(), 2);
    assert!(groups[0].len() <= 4);
    assert!(groups[1].len() <= 1);
    for grp in &groups {
        for &(x, y) in grp {
            assert_eq!(g.get(x, y), Some(Tile::Free));
        }
    }
    // with 18 free cells of 24, 200 draws per item place them all in practice
    assert_eq!(groups[0].len(), 4);
    // draws are spread over the grid, not stuck at one cell
    let mut many = Grid::new(50, 50);
    many.set(0, 0, Tile::Free);
    let g2 = initial_item_cells(&many, &vec![ItemSpawnConfig { kind: ItemKind::Gold, max_on_map: 40 }]);
    let first = g2[0][0];
    assert!(g2[0].iter().any(|c| *c != first));
}

#[test]
fn no_free_cell_places_nothing() {
    let mut g = Grid::new(2, 1);
    g.set(0, 0, Tile::Obstacle);
    g.set(1, 0, Tile::Obstacle);
    let groups = initial_item_cells(&g, &vec![ItemSpawnConfig { kind: ItemKind::Gold, max_on_map: 0 }]);
    assert_eq!(groups, vec![Vec::<(i32, i32)>::new()]);
}

#[test]
fn unique_sorted_team_ids() {
    assert_eq!(sorted_unique_teams(&vec![3, 1, 3, 0, 1]), vec![0, 1, 3]);
    assert_eq!(sorted_unique_teams(&vec![]), Vec::<u8>::new());
    assert_eq!(sorted_unique_teams(&vec![7, 7]), vec![7]);
}

#[test]
fn team_names() {
    assert_eq!(Team(0).name(), "Red");
    assert_eq!(Team(1).name(), "Blue");
    assert_eq!(Team(2).name(), "Green");
    assert_eq!(Team(3).name(), "Yellow");
    assert_eq!(Team(4).name(), "Unknown");
}

#[test]
fn map_agent_teams() {
    assert_eq!(team_of_map_agent(None), 0);
    assert_eq!(team_of_map_agent(Some(1)), 1);
    assert_eq!(team_of_map_agent(Some(258)), 2);
}

#[test]
fn placing_drawn_cells() {
    let mut g = Grid::new(3, 3);
    g.set(1, 1, Tile::Obstacle);
    let draws = vec![(1, 1), (0, 0), (5, 5), (2, 2), (0, 0), (2, 1)];
    assert_eq!(place_item_cells(&g, 3, &draws), vec![(0, 0), (2, 2), (0, 0)]);
    assert_eq!(place_item_cells(&g, 1, &draws), vec![(0, 0)]);
    assert_eq!(place_item_cells(&g, 10, &draws), vec![(0, 0), (2, 2), (0, 0), (2, 1)]);
    assert_eq!(place_item_cells(&g, 0, &draws), Vec::<(i32, i32)>::new());
}

#[test]
fn path_components_fold_parent_dirs() {
    let out = normalize_parts(vec![PathPart::Root, n("a"), n("viewer"), PathPart::ParentDir, n("assets")]);
    assert_eq!(show(&out), vec!["/", "a", "assets"]);
    let out = normalize_parts(vec![PathPart::Root, PathPart::ParentDir, n("x")]);
    assert_eq!(show(&out), vec!["/", "x"]);
    let out = normalize_parts(vec![PathPart::CurDir, PathPart::ParentDir, PathPart::ParentDir, n("y")]);
    assert_eq!(show(&out), vec!["y"]);
}
