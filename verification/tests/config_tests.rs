use atb::config::{
    short_side, validate, validate_for_game_mode, BaseCheck, ConfigError, ConfigFacts, Corner, GameModeKind,
    ObstacleProfile, SpawnIntent,
};

fn good() -> ConfigFacts {
    ConfigFacts {
        width: 20,
        height: 15,
        bases: vec![BaseCheck { team: 0, margin_in_range: true }, BaseCheck { team: 1, margin_in_range: true }],
        agent_teams: vec![0, 1],
        sim_speed_count: 13,
        sim_speed_listed: true,
        game_mode: GameModeKind::TeamDeathmatch,
        gold_density_positive: true,
    }
}

#[test]
fn corner_resolve_each_corner() {
    assert_eq!(Corner::BottomLeft.resolve(20, 10, 2), (2, 2));
    assert_eq!(Corner::BottomRight.resolve(20, 10, 2), (17, 2));
    assert_eq!(Corner::TopLeft.resolve(20, 10, 2), (2, 7));
    assert_eq!(Corner::TopRight.resolve(20, 10, 2), (17, 7));
}

#[test]
fn corner_inset_is_at_least_one() {
    assert_eq!(Corner::BottomLeft.resolve(20, 10, 0), (1, 1));
    assert_eq!(Corner::TopRight.resolve(20, 10, -3), (18, 8));
}

#[test]
fn defaults_and_short_side() {
    assert_eq!(SpawnIntent::default(), SpawnIntent::NearBase);
    assert_eq!(ObstacleProfile::default(), ObstacleProfile::Mixed);
    assert_eq!(short_side(20, 15), 15);
    assert_eq!(short_side(7, 9), 7);
}

#[test]
fn valid_config_has_no_errors() {
    assert!(validate(&good()).is_empty());
}

#[test]
fn grid_too_small() {
    let mut f = good();
    f.width = 3;
    f.height = 2;
    assert_eq!(validate(&f), vec![ConfigError::WidthTooSmall(3), ConfigError::HeightTooSmall(2)]);
}

#[test]
fn no_bases_reports_missing_base_and_orphan_agents() {
    let mut f = good();
    f.bases = vec![];
    assert_eq!(
        validate(&f),
        vec![
            ConfigError::NoBases,
            ConfigError::AgentWithoutBase { index: 0, team: 0 },
            ConfigError::AgentWithoutBase { index: 1, team: 1 },
        ]
    );
}

#[test]
fn bad_margin_names_the_base() {
    let mut f = good();
    f.bases[1].margin_in_range = false;
    assert_eq!(validate(&f), vec![ConfigError::BaseMargin { index: 1, team: 1 }]);
}

#[test]
fn no_agents() {
    let mut f = good();
    f.agent_teams = vec![];
    assert_eq!(
        validate(&f),
        vec![ConfigError::NoAgents, ConfigError::NeedsTwoTeams(GameModeKind::TeamDeathmatch)]
    );
}

#[test]
fn agent_without_base() {
    let mut f = good();
    f.agent_teams = vec![0, 2, 1];
    assert_eq!(validate(&f), vec![ConfigError::AgentWithoutBase { index: 1, team: 2 }]);
}

#[test]
fn speed_errors() {
    let mut f = good();
    f.sim_speed_count = 0;
    f.sim_speed_listed = false;
    assert_eq!(validate(&f), vec![ConfigError::SimSpeedsEmpty, ConfigError::SimSpeedNotListed]);
}

#[test]
fn game_mode_constraints() {
    let mut f = good();
    f.game_mode = GameModeKind::GoldRush;
    f.gold_density_positive = false;
    assert_eq!(validate(&f), vec![ConfigError::GoldRushNeedsGold]);

    let mut f = good();
    f.agent_teams = vec![1, 1, 1];
    for m in [GameModeKind::TeamDeathmatch, GameModeKind::CaptureTheFlag, GameModeKind::Conquest] {
        f.game_mode = m;
        assert_eq!(validate(&f), vec![ConfigError::NeedsTwoTeams(m)]);
    }
    f.game_mode = GameModeKind::FreeForAll;
    assert!(validate(&f).is_empty());
    f.agent_teams = vec![1];
    assert_eq!(validate(&f), vec![ConfigError::FreeForAllNeedsTwoAgents]);
}

#[test]
fn mode_check_appends_to_existing_errors() {
    let mut f = good();
    f.game_mode = GameModeKind::FreeForAll;
    f.agent_teams = vec![0];
    let mut errors = vec![ConfigError::NoBases];
    validate_for_game_mode(&f, &mut errors);
    assert_eq!(errors, vec![ConfigError::NoBases, ConfigError::FreeForAllNeedsTwoAgents]);
}

#[test]
fn no_errors_exactly_when_valid() {
    // each single defect makes the list non-empty
    let defects: Vec<fn(&mut ConfigFacts)> = vec![
        |f| f.width = 0,
        |f| f.height = 3,
        |f| f.bases.clear(),
        |f| f.bases[0].margin_in_range = false,
        |f| f.agent_teams.clear(),
        |f| f.agent_teams.push(9),
        |f| f.sim_speed_count = 0,
        |f| f.sim_speed_listed = false,
        |f| f.agent_teams = vec![0, 0],
    ];
    for d in defects {
        let mut f = good();
        d(&mut f);
        assert!(!validate(&f).is_empty());
    }
    assert!(validate(&good()).is_empty());
}

#[test]
fn corners_stay_on_grid_for_small_insets() {
    for (w, h) in [(5usize, 5usize), (20, 7), (64, 48)] {
        let short = w.min(h) as i32;
        for inset in 1..=((short - 1) / 2) {
            for c in [Corner::BottomLeft, Corner::BottomRight, Corner::TopLeft, Corner::TopRight] {
                let (x, y) = c.resolve(w, h, inset);
                assert!(0 <= x && (x as usize) < w && 0 <= y && (y as usize) < h);
            }
        }
    }
}

#[test]
fn opposite_corners_mirror() {
    for inset in [1, 2, 5] {
        let bl = Corner::BottomLeft.resolve(20, 11, inset);
        let br = Corner::BottomRight.resolve(20, 11, inset);
        let tl = Corner::TopLeft.resolve(20, 11, inset);
        let tr = Corner::TopRight.resolve(20, 11, inset);
        assert_eq!(bl.0 + br.0, 19);
        assert_eq!(bl.1 + tl.1, 10);
        assert_eq!(tr, (br.0, tl.1));
    }
}
