use atb::control::{
    bt_check_overflows, bt_decide, choose_action, goap_facts, goap_step_action, nearest_cluster, random_action,
    record_action, top_actions, ActionCodes, BridgeState, BtDecision, BtInputs, GoapInputs, GoapStep, PolicyMode,
    Pos,
};

const CODES: ActionCodes = ActionCodes { cluster_k: 9, wait: 12, size: 13 };

fn bt(carried: u32, hearts: u32, health: bool, committed: Option<u32>, dists: Vec<Option<i32>>) -> BtInputs {
    BtInputs {
        gold_carried: carried,
        max_gold: 5,
        hearts,
        health_on_map: health,
        gold_on_map: dists.iter().any(|d| d.is_some()),
        committed,
        cluster_dists: dists,
    }
}

#[test]
fn policy_modes_cycle() {
    assert_eq!(PolicyMode::default(), PolicyMode::Onnx);
    assert_eq!(PolicyMode::Onnx.next(), PolicyMode::Random);
    assert_eq!(PolicyMode::Random.next(), PolicyMode::BehaviorTree);
    assert_eq!(PolicyMode::BehaviorTree.next(), PolicyMode::Onnx);
    assert_eq!(PolicyMode::Goap.next(), PolicyMode::Onnx);
    for m in [PolicyMode::Onnx, PolicyMode::Random, PolicyMode::BehaviorTree] {
        assert_eq!(m.next().next().next(), m);
        assert_ne!(m.next(), m);
    }
    assert_eq!(PolicyMode::Onnx.label(), "ONNX");
    assert_eq!(PolicyMode::Random.label(), "RANDOM");
    assert_eq!(PolicyMode::BehaviorTree.label(), "BT");
    assert_eq!(PolicyMode::Goap.label(), "GOAP");
    assert_eq!(PolicyMode::after_load(true), PolicyMode::Onnx);
    assert_eq!(PolicyMode::after_load(false), PolicyMode::BehaviorTree);
}

#[test]
fn random_actions_follow_the_lcg() {
    assert_eq!(random_action(0, 12), 0);
    assert_eq!(random_action(1, 12), 8);
    assert_eq!(random_action(2, 12), 5);
    assert_eq!(random_action(100, 12), 2);
    assert_eq!(random_action(12345, 12), 5);
    assert!(random_action(u64::MAX, 13) < 13);
}

#[test]
fn nearest_region_lowest_index_on_ties() {
    assert_eq!(nearest_cluster(&vec![None, Some(4), Some(2), Some(2)], true, 12), 2);
    assert_eq!(nearest_cluster(&vec![None, None], true, 12), 12);
    assert_eq!(nearest_cluster(&vec![Some(1)], false, 12), 12);
}

#[test]
fn behaviour_tree_full_pack_goes_home() {
    let d = bt_decide(&bt(5, 3, true, Some(2), vec![Some(1), None, Some(3)]), CODES);
    assert_eq!(d, BtDecision { action: 9, committed: None });
}

#[test]
fn behaviour_tree_low_health_fetches_health() {
    let d = bt_decide(&bt(0, 1, true, Some(0), vec![Some(1)]), CODES);
    assert_eq!(d, BtDecision { action: 10, committed: None });
    // no health pack on the map: keep collecting
    let d = bt_decide(&bt(0, 1, false, None, vec![Some(7), Some(1)]), CODES);
    assert_eq!(d, BtDecision { action: 1, committed: Some(1) });
}

#[test]
fn behaviour_tree_keeps_commitment_within_hysteresis() {
    // committed region 0 at 6, region 1 at 3: 6 <= 3 + 3 keeps region 0
    let d = bt_decide(&bt(0, 3, false, Some(0), vec![Some(6), Some(3)]), CODES);
    assert_eq!(d, BtDecision { action: 0, committed: Some(0) });
    // region 1 at 2: 6 > 5, switch to the nearest
    let d = bt_decide(&bt(0, 3, false, Some(0), vec![Some(6), Some(2)]), CODES);
    assert_eq!(d, BtDecision { action: 1, committed: Some(1) });
    // committed region emptied
    let d = bt_decide(&bt(0, 3, false, Some(0), vec![None, Some(8)]), CODES);
    assert_eq!(d, BtDecision { action: 1, committed: Some(1) });
    // no gold anywhere
    let d = bt_decide(&bt(0, 3, false, Some(0), vec![None, None]), CODES);
    assert_eq!(d, BtDecision { action: 12, committed: None });
}

#[test]
fn behaviour_tree_overflow_check() {
    // the only region holding gold is the committed one: best other is i32::MAX
    assert!(bt_check_overflows(&bt(0, 3, false, Some(0), vec![Some(4), None])));
    assert!(!bt_check_overflows(&bt(0, 3, false, Some(0), vec![Some(4), Some(9)])));
    assert!(!bt_check_overflows(&bt(0, 3, false, None, vec![Some(4)])));
}

#[test]
fn planner_facts() {
    let inp = GoapInputs {
        gold_carried: 3,
        max_gold: 5,
        hearts: 1,
        pos: Pos { x: 2, y: 2 },
        base: Pos { x: 0, y: 0 },
        gold: vec![Pos { x: 4, y: 5 }, Pos { x: 9, y: 9 }],
        gold_nearby: true,
        enemy_nearby: false,
    };
    let f = goap_facts(&inp);
    assert!(f.has_gold);
    assert!(!f.inventory_full);
    assert!(f.inventory_half);
    assert!(!f.on_own_base);
    assert!(f.gold_nearby);
    assert!(!f.enemy_nearby);
    assert!(f.base_closer); // 4 < 5
    assert!(f.low_health);
    let none = GoapInputs { gold: vec![], pos: Pos { x: 0, y: 0 }, gold_carried: 0, hearts: 3, ..inp };
    let f = goap_facts(&none);
    assert!(f.on_own_base && f.base_closer && !f.has_gold && !f.low_health);
}

#[test]
fn planner_step_actions() {
    assert_eq!(goap_step_action(GoapStep::NavigateToGold, 4, CODES), 4);
    assert_eq!(goap_step_action(GoapStep::CollectGold, 4, CODES), 4);
    assert_eq!(goap_step_action(GoapStep::NavigateToBase, 4, CODES), 9);
    assert_eq!(goap_step_action(GoapStep::DropGold, 4, CODES), 9);
    assert_eq!(goap_step_action(GoapStep::Flee, 4, CODES), 9);
    assert_eq!(goap_step_action(GoapStep::Other, 4, CODES), 12);
}

#[test]
fn action_breakdown_top_five() {
    let counts = vec![0, 5, 2, 5, 0, 9, 1, 2, 3];
    assert_eq!(top_actions(&counts), vec![(5, 9), (1, 5), (3, 5), (8, 3), (2, 2)]);
    assert_eq!(top_actions(&vec![0, 0]), Vec::<(usize, u32)>::new());
    assert_eq!(top_actions(&vec![0, 4]), vec![(1, 4)]);
}

#[test]
fn bridge_bookkeeping() {
    let mut s = BridgeState::new(CODES);
    assert_eq!(s.action_counts, vec![0; 13]);
    assert_eq!(s.last_action, 12);
    assert!(s.should_step(false));
    assert!(!s.should_step(true));
    s.record(3);
    s.record(3);
    assert_eq!(s.last_action, 3);
    assert_eq!(s.action_counts[3], 2);
    assert!(s.finish_step(false));
    assert!(!s.finish_step(true));
    assert!(s.game_over);
    assert!(!s.should_step(false));
    let mut counts = vec![0u32, 1];
    record_action(&mut counts, 1);
    assert_eq!(counts, vec![0, 2]);
}

#[test]
fn choosing_the_action_per_mode() {
    let inputs = bt(0, 3, false, Some(1), vec![Some(6), Some(5)]);
    let c = |m, learned| choose_action(m, 2, CODES, true, learned, &inputs, GoapStep::DropGold, 0);
    assert_eq!(c(PolicyMode::Onnx, Some(7)), BtDecision { action: 7, committed: Some(1) });
    assert_eq!(c(PolicyMode::Onnx, None), BtDecision { action: 12, committed: Some(1) });
    assert_eq!(c(PolicyMode::Random, None), BtDecision { action: random_action(2, 13), committed: Some(1) });
    assert_eq!(c(PolicyMode::BehaviorTree, None), BtDecision { action: 1, committed: Some(1) });
    assert_eq!(c(PolicyMode::Goap, None), BtDecision { action: 9, committed: Some(1) });
    let none = choose_action(PolicyMode::Goap, 2, CODES, false, None, &inputs, GoapStep::DropGold, 0);
    assert_eq!(none.action, 12);
}

#[test]
fn full_pack_or_low_health_decide_even_when_only_committed_region_has_gold() {
    let full = bt(5, 3, false, Some(0), vec![Some(4), None]);
    assert!(!bt_check_overflows(&full));
    assert_eq!(bt_decide(&full, CODES), BtDecision { action: 9, committed: None });
    let hurt = bt(0, 1, true, Some(0), vec![Some(4), None]);
    assert!(!bt_check_overflows(&hurt));
    assert_eq!(bt_decide(&hurt, CODES), BtDecision { action: 10, committed: None });
    let c = choose_action(PolicyMode::BehaviorTree, 0, CODES, true, None, &full, GoapStep::Other, 0);
    assert_eq!(c, BtDecision { action: 9, committed: None });
}

#[test]
fn recorded_counts_track_every_action() {
    let mut s = BridgeState::new(CODES);
    let acts = [3u32, 0, 3, 12, 3];
    for a in acts {
        s.record(a);
    }
    assert_eq!(s.action_counts.iter().sum::<u32>(), acts.len() as u32);
    assert_eq!(s.action_counts[3], 3);
    assert_eq!(s.action_counts[12], 1);
    assert_eq!(s.last_action, 3);
}

#[test]
fn every_chosen_action_is_in_range() {
    for tick in 0..50u64 {
        for m in [PolicyMode::Onnx, PolicyMode::Random, PolicyMode::BehaviorTree, PolicyMode::Goap] {
            let inputs = bt((tick % 7) as u32, (tick % 4) as u32, tick % 3 == 0, Some((tick % 3) as u32), vec![Some(5), Some((tick % 9) as i32), None]);
            let d = choose_action(m, tick, CODES, true, Some(4), &inputs, GoapStep::CollectGold, 2);
            assert!(d.action < CODES.size);
        }
    }
}

#[test]
fn a_frame_of_steps_stops_at_the_first_finished_episode() {
    let mut s = BridgeState::new(CODES);
    let taken = s.record_steps(&vec![(3, false), (3, false), (12, true), (5, false)]);
    assert_eq!(taken, 3);
    assert_eq!(s.action_counts[3], 2);
    assert_eq!(s.action_counts[12], 1);
    assert_eq!(s.action_counts[5], 0);
    assert_eq!(s.action_counts.iter().sum::<u32>(), 3);
    assert_eq!(s.last_action, 12);
    assert!(s.game_over);

    let mut t = BridgeState::new(CODES);
    assert_eq!(t.record_steps(&vec![(1, false), (2, false)]), 2);
    assert_eq!(t.last_action, 2);
    assert!(!t.game_over);
    assert_eq!(t.record_steps(&vec![]), 0);
    assert_eq!(t.last_action, 2);
}
