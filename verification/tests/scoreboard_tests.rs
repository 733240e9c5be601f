use atb::scoreboard::{buff_cell, rows_need_rebuild, should_populate_cards, BuffCell,
    agents_of_team, end_screen_cards, hp_shade, hp_text, leading_team, match_outcome, n_teams, scoreboard_order,
    team_score, team_tallies, team_tally, AgentStats, HpShade, HpText, MatchOutcome, TeamCard,
};

fn a(team: u8, score: u32, kills: u32, deaths: u32) -> AgentStats {
    AgentStats { team, score, kills, deaths }
}

#[test]
fn rows_by_team_then_best_score_then_input_order() {
    let rows = vec![a(1, 5, 0, 0), a(0, 2, 0, 0), a(1, 9, 0, 0), a(0, 7, 0, 0), a(1, 5, 0, 0), a(0, 2, 0, 0)];
    assert_eq!(scoreboard_order(&rows), vec![3, 1, 5, 2, 0, 4]);
    assert_eq!(scoreboard_order(&vec![]), Vec::<usize>::new());
}

#[test]
fn agents_of_one_team_in_order() {
    let rows = vec![a(1, 0, 0, 0), a(0, 0, 0, 0), a(1, 0, 0, 0)];
    assert_eq!(agents_of_team(&rows, 1), vec![0, 2]);
    assert_eq!(agents_of_team(&rows, 3), Vec::<usize>::new());
}

#[test]
fn tallies_per_team() {
    let rows = vec![a(2, 10, 3, 1), a(0, 4, 1, 2), a(2, 6, 0, 0)];
    let t = team_tallies(&rows);
    assert_eq!(t.len(), 2);
    assert_eq!((t[0].team, t[0].agents, t[0].score, t[0].kills, t[0].deaths), (0, 1, 4, 1, 2));
    assert_eq!((t[1].team, t[1].agents, t[1].score, t[1].kills, t[1].deaths), (2, 2, 16, 3, 1));
    let empty = team_tally(&rows, 7);
    assert_eq!((empty.agents, empty.score), (0, 0));
}

#[test]
fn end_screen_always_shows_teams_zero_and_one() {
    let rows = vec![a(3, 0, 2, 5), a(3, 0, 1, 1)];
    assert_eq!(
        end_screen_cards(&rows),
        vec![
            TeamCard { team: 0, kills: 0, deaths: 0 },
            TeamCard { team: 1, kills: 0, deaths: 0 },
            TeamCard { team: 3, kills: 3, deaths: 6 },
        ]
    );
    let rows = vec![a(1, 0, 4, 0), a(0, 0, 1, 2)];
    assert_eq!(
        end_screen_cards(&rows),
        vec![TeamCard { team: 0, kills: 1, deaths: 2 }, TeamCard { team: 1, kills: 4, deaths: 0 }]
    );
}

#[test]
fn winner_or_draw() {
    assert_eq!(match_outcome(5, 3), MatchOutcome::Winner(0));
    assert_eq!(match_outcome(3, 5), MatchOutcome::Winner(1));
    assert_eq!(match_outcome(4, 4), MatchOutcome::Draw);
    assert_eq!(match_outcome(0, 0), MatchOutcome::Draw);
}

#[test]
fn swapping_scores_swaps_the_winner() {
    for (r, b) in [(1u32, 2u32), (7, 3), (5, 5)] {
        let o = match_outcome(r, b);
        let s = match_outcome(b, r);
        match o {
            MatchOutcome::Draw => assert_eq!(s, MatchOutcome::Draw),
            MatchOutcome::Winner(0) => assert_eq!(s, MatchOutcome::Winner(1)),
            MatchOutcome::Winner(_) => assert_eq!(s, MatchOutcome::Winner(0)),
        }
    }
}

#[test]
fn leading_team_takes_last_of_equal_maxima() {
    assert_eq!(leading_team(&vec![]), None);
    assert_eq!(leading_team(&vec![3, 9, 2]), Some(1));
    assert_eq!(leading_team(&vec![4, 4]), Some(1));
    assert_eq!(leading_team(&vec![0]), Some(0));
}

#[test]
fn hit_point_cells() {
    assert_eq!(hp_text(2, 3, false), HpText::Hearts(2, 3));
    assert_eq!(hp_text(2, 3, true), HpText::Dead);
    assert_eq!(hp_shade(3, true), HpShade::Dim);
    assert_eq!(hp_shade(0, false), HpShade::Dim);
    assert_eq!(hp_shade(1, false), HpShade::Critical);
    assert_eq!(hp_shade(2, false), HpShade::Low);
    assert_eq!(hp_shade(5, false), HpShade::Healthy);
}

#[test]
fn team_scores_and_team_count() {
    let rows = vec![a(0, 3, 0, 0), a(2, 4, 0, 0), a(0, 5, 0, 0)];
    assert_eq!(team_score(&rows, 0), 8);
    assert_eq!(team_score(&rows, 1), 0);
    assert_eq!(team_score(&rows, 2), 4);
    assert_eq!(n_teams(&rows), 3);
    assert_eq!(n_teams(&vec![]), 0);
}

#[test]
fn team_scores_add_up_to_total() {
    let rows = vec![a(0, 3, 0, 0), a(2, 4, 0, 0), a(0, 5, 0, 0), a(1, 11, 0, 0)];
    let n = n_teams(&rows);
    let sum: u32 = (0..n).map(|t| team_score(&rows, t)).sum();
    assert_eq!(sum, rows.iter().map(|r| r.score).sum::<u32>());
}

#[test]
fn buff_cells_and_rebuild_guard() {
    assert_eq!(buff_cell(0), BuffCell::Inactive);
    assert_eq!(buff_cell(7), BuffCell::Ticks(7));
    assert!(rows_need_rebuild(true, 2, 3));
    assert!(!rows_need_rebuild(true, 3, 3));
    assert!(!rows_need_rebuild(false, 0, 3));
}

#[test]
fn end_screen_cards_are_filled_once_after_game_over() {
    assert!(!should_populate_cards(false, false));
    assert!(should_populate_cards(true, false));
    assert!(!should_populate_cards(true, true));
    assert!(!should_populate_cards(false, true));
}

#[test]
fn end_screen_cards_sum_kills_and_deaths_per_team() {
    let rows = vec![a(2, 1, 3, 1), a(0, 0, 1, 2), a(2, 4, 2, 5)];
    let cards = end_screen_cards(&rows);
    assert_eq!(
        cards,
        vec![
            TeamCard { team: 0, kills: 1, deaths: 2 },
            TeamCard { team: 1, kills: 0, deaths: 0 },
            TeamCard { team: 2, kills: 5, deaths: 6 },
        ]
    );
}
