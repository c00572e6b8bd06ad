use elimination_pool::pool::pool_matches::PoolMatch;
use elimination_pool::pool::teams::Team;
use elimination_pool::pool::{MinMax, Pool, PoolError, PoolEvent, PoolSettings};

fn settings(players: u32, pool_min: u32, pool_max: u32, m_min: u32, m_max: u32) -> PoolSettings {
    PoolSettings {
        players_in_team: players,
        teams_in_pool: MinMax(pool_min, pool_max),
        teams_in_match: MinMax(m_min, m_max),
    }
}

/// A pool of solo teams named by the given ids, each roster already filled.
fn solo_pool(ids: &[&str], pool_min: u32, pool_max: u32) -> Pool {
    let mut pool = Pool::new(settings(1, pool_min, pool_max, 2, 2));
    for id in ids {
        pool.add_team(id.to_string()).unwrap();
        pool.add_user_to_team(id.to_string(), format!("player-of-{id}")).unwrap();
    }
    pool
}

fn stage_matches(pool: &Pool, stage: u32) -> Vec<usize> {
    pool.matches
        .iter()
        .filter(|m| m.stage == stage)
        .map(|m| m.id)
        .collect()
}

#[test]
fn team_roster_capped_at_capacity() {
    let mut team = Team::new("T".to_string(), 2);
    assert!(!team.is_complete());
    team.add_user("a".to_string()).unwrap();
    assert!(!team.is_complete());
    team.add_user("b".to_string()).unwrap();
    assert!(team.is_complete());
    assert_eq!(team.add_user("c".to_string()), Err(PoolError::CapacityExceeded));
    assert_eq!(team.users, vec!["a".to_string(), "b".to_string()]);
}

#[test]
fn team_add_users_batch_respects_capacity() {
    let mut team = Team::new("T".to_string(), 3);
    team.add_user("a".to_string()).unwrap();
    let too_many = vec!["b".to_string(), "c".to_string(), "d".to_string()];
    assert_eq!(team.add_users(too_many), Err(PoolError::CapacityExceeded));
    assert_eq!(team.users, vec!["a".to_string()]);
    team.add_users(vec!["b".to_string(), "c".to_string()]).unwrap();
    assert!(team.is_complete());
    assert_eq!(team.users.len(), 3);
}

#[test]
fn team_increment_stage_counts_rounds() {
    let mut team = Team::new("T".to_string(), 1);
    assert_eq!(team.stage, 1);
    team.increment_stage();
    assert_eq!(team.stage, 2);
}

#[test]
fn match_rejects_non_rival_and_reassignment() {
    let rivals = vec!["A".to_string(), "B".to_string()];
    let mut m = PoolMatch::new(0, 1, rivals);
    assert_eq!(m.set_winner("C".to_string()), Err(PoolError::TeamNotRival));
    assert_eq!(m.winner, None);
    m.set_winner("A".to_string()).unwrap();
    assert_eq!(m.winner, Some("A".to_string()));
    assert_eq!(m.set_winner("B".to_string()), Err(PoolError::WinnerAlreadySet));
    assert_eq!(m.winner, Some("A".to_string()));
}

#[test]
fn add_team_fails_past_maximum() {
    let mut pool = Pool::new(settings(1, 2, 4, 2, 2));
    for id in ["T1", "T2", "T3", "T4"] {
        pool.add_team(id.to_string()).unwrap();
    }
    assert_eq!(pool.add_team("T5".to_string()), Err(PoolError::TooManyTeams));
    assert_eq!(pool.teams.len(), 4);
}

#[test]
fn add_team_rejected_after_start() {
    let mut pool = solo_pool(&["T1", "T2"], 2, 4);
    pool.start().unwrap();
    assert_eq!(pool.add_team("T9".to_string()), Err(PoolError::PoolAlreadyStarted));
}

#[test]
fn add_user_unknown_team_not_found() {
    let mut pool = Pool::new(settings(1, 2, 4, 2, 2));
    pool.add_team("T1".to_string()).unwrap();
    assert_eq!(
        pool.add_user_to_team("nope".to_string(), "u".to_string()),
        Err(PoolError::TeamNotFound)
    );
}

#[test]
fn add_user_propagates_capacity_error() {
    let mut pool = Pool::new(settings(1, 2, 4, 2, 2));
    pool.add_team("T1".to_string()).unwrap();
    pool.add_user_to_team("T1".to_string(), "u1".to_string()).unwrap();
    assert_eq!(
        pool.add_user_to_team("T1".to_string(), "u2".to_string()),
        Err(PoolError::CapacityExceeded)
    );
}

#[test]
fn completing_a_roster_fires_team_completed() {
    let mut pool = Pool::new(settings(2, 2, 4, 2, 2));
    pool.add_team("T1".to_string()).unwrap();
    pool.add_user_to_team("T1".to_string(), "u1".to_string()).unwrap();
    assert!(pool.events.is_empty());
    pool.add_user_to_team("T1".to_string(), "u2".to_string()).unwrap();
    assert_eq!(pool.events, vec![PoolEvent::TeamCompleted("T1".to_string())]);
}

#[test]
fn start_fails_below_minimum_teams() {
    let mut pool = solo_pool(&["T1"], 2, 4);
    assert_eq!(pool.start(), Err(PoolError::BelowMinimumTeams));
    assert!(!pool.is_started);
    assert!(pool.matches.is_empty());
}

#[test]
fn start_counts_only_complete_teams() {
    let mut pool = solo_pool(&["T1"], 2, 4);
    // the second team never fills its roster, so only one complete team remains
    pool.add_team("T2".to_string()).unwrap();
    assert_eq!(pool.start(), Err(PoolError::BelowMinimumTeams));
}

#[test]
fn start_generates_first_stage() {
    let mut pool = solo_pool(&["T1", "T2"], 2, 4);
    pool.start().unwrap();
    assert!(pool.is_started);
    assert!(!stage_matches(&pool, 1).is_empty());
}

#[test]
fn start_discards_incomplete_teams() {
    let mut pool = solo_pool(&["T1", "T2"], 2, 4);
    pool.add_team("T3".to_string()).unwrap();
    pool.start().unwrap();
    assert_eq!(pool.teams.len(), 2);
    assert!(pool.teams.iter().all(|t| t.is_complete()));
}

#[test]
fn start_twice_rejected() {
    let mut pool = solo_pool(&["T1", "T2"], 2, 4);
    pool.start().unwrap();
    assert_eq!(pool.start(), Err(PoolError::PoolAlreadyStarted));
}

#[test]
fn set_match_winner_requires_started_pool() {
    let mut pool = solo_pool(&["T1", "T2"], 2, 4);
    assert_eq!(
        pool.set_match_winner(0, "T1".to_string()),
        Err(PoolError::PoolNotStarted)
    );
}

#[test]
fn set_match_winner_unknown_match() {
    let mut pool = solo_pool(&["T1", "T2"], 2, 4);
    pool.start().unwrap();
    assert_eq!(
        pool.set_match_winner(7, "T1".to_string()),
        Err(PoolError::MatchNotFound)
    );
}

#[test]
fn set_match_winner_non_rival_changes_nothing() {
    let mut pool = solo_pool(&["T1", "T2", "T3", "T4"], 2, 4);
    pool.start().unwrap();
    let matches_before = pool.matches.len();
    let events_before = pool.events.len();
    assert_eq!(
        pool.set_match_winner(0, "T3".to_string()),
        Err(PoolError::TeamNotRival)
    );
    assert_eq!(pool.matches.len(), matches_before);
    assert_eq!(pool.events.len(), events_before);
    assert_eq!(pool.matches[0].winner, None);
    assert!(pool.teams.iter().all(|t| t.stage == 1));
}

#[test]
fn next_stage_waits_for_all_results() {
    let mut pool = solo_pool(&["T1", "T2", "T3", "T4"], 2, 4);
    pool.start().unwrap();
    pool.set_match_winner(0, "T1".to_string()).unwrap();
    // one stage-1 match is still unresolved: no stage-2 match may exist
    assert!(stage_matches(&pool, 2).is_empty());
    assert_eq!(pool.stage, 1);
    assert!(!pool.is_ended);
}

#[test]
fn four_team_bracket_runs_to_a_winner() {
    let mut pool = solo_pool(&["T1", "T2", "T3", "T4"], 2, 4);
    pool.start().unwrap();
    assert_eq!(pool.matches.len(), 2);
    assert_eq!(pool.matches[0].rivals, vec!["T1".to_string(), "T2".to_string()]);
    assert_eq!(pool.matches[1].rivals, vec!["T3".to_string(), "T4".to_string()]);
    pool.set_match_winner(0, "T1".to_string()).unwrap();
    pool.set_match_winner(1, "T3".to_string()).unwrap();
    let finals = stage_matches(&pool, 2);
    assert_eq!(finals.len(), 1);
    assert_eq!(pool.matches[finals[0]].rivals, vec!["T1".to_string(), "T3".to_string()]);
    pool.set_match_winner(finals[0], "T1".to_string()).unwrap();
    assert!(pool.is_ended);
    assert_eq!(pool.get_winner_id(), Some("T1".to_string()));
}

#[test]
fn three_team_bracket_grants_a_bye() {
    let mut pool = solo_pool(&["T1", "T2", "T3"], 2, 4);
    pool.start().unwrap();
    assert_eq!(pool.matches.len(), 2);
    // the leftover team gets its bye first, auto-resolved in its favour
    assert_eq!(pool.matches[0].rivals, vec!["T3".to_string()]);
    assert_eq!(pool.matches[0].winner, Some("T3".to_string()));
    assert_eq!(pool.matches[1].rivals, vec!["T1".to_string(), "T2".to_string()]);
    pool.set_match_winner(1, "T1".to_string()).unwrap();
    let finals = stage_matches(&pool, 2);
    assert_eq!(finals.len(), 1);
    assert_eq!(pool.matches[finals[0]].rivals, vec!["T3".to_string(), "T1".to_string()]);
    pool.set_match_winner(finals[0], "T3".to_string()).unwrap();
    assert_eq!(pool.get_winner_id(), Some("T3".to_string()));
}

#[test]
fn bye_match_winner_cannot_be_overwritten() {
    let mut pool = solo_pool(&["T1", "T2", "T3"], 2, 4);
    pool.start().unwrap();
    assert_eq!(
        pool.set_match_winner(0, "T3".to_string()),
        Err(PoolError::WinnerAlreadySet)
    );
}

#[test]
fn winner_id_empty_until_ended() {
    let mut pool = solo_pool(&["T1", "T2"], 2, 4);
    assert_eq!(pool.get_winner_id(), None);
    pool.start().unwrap();
    assert_eq!(pool.get_winner_id(), None);
    pool.set_match_winner(0, "T2".to_string()).unwrap();
    assert!(pool.is_ended);
    assert_eq!(pool.get_winner_id(), Some("T2".to_string()));
    assert_eq!(
        pool.set_match_winner(0, "T1".to_string()),
        Err(PoolError::PoolAlreadyEnded)
    );
    assert_eq!(pool.get_winner_id(), Some("T2".to_string()));
}

#[test]
fn scheduling_events_fire_in_order() {
    let mut pool = solo_pool(&["T1", "T2", "T3", "T4"], 2, 4);
    let registration_events = pool.events.len();
    pool.start().unwrap();
    let fired: Vec<&PoolEvent> = pool.events.iter().skip(registration_events).collect();
    assert_eq!(fired.len(), 3);
    assert_eq!(*fired[0], PoolEvent::MatchScheduled(0));
    assert_eq!(*fired[1], PoolEvent::MatchScheduled(1));
    assert_eq!(*fired[2], PoolEvent::StageScheduled(vec![0, 1]));
}

#[test]
fn pool_ended_event_fires_once() {
    let mut pool = solo_pool(&["T1", "T2"], 2, 4);
    pool.start().unwrap();
    pool.set_match_winner(0, "T1".to_string()).unwrap();
    let ended: Vec<&PoolEvent> =
        pool.events.iter().filter(|e| matches!(e, PoolEvent::PoolEnded)).collect();
    assert_eq!(ended.len(), 1);
    assert!(matches!(pool.events.last(), Some(PoolEvent::PoolEnded)));
}

#[test]
fn winning_team_advances_its_round_counter() {
    let mut pool = solo_pool(&["T1", "T2"], 2, 4);
    pool.start().unwrap();
    pool.set_match_winner(0, "T1".to_string()).unwrap();
    let winner = pool.get_team_by_id("T1".to_string()).unwrap();
    assert_eq!(winner.stage, 2);
    let loser = pool.get_team_by_id("T2".to_string()).unwrap();
    assert_eq!(loser.stage, 1);
}

#[test]
fn get_team_by_id_finds_registered_teams() {
    let pool = solo_pool(&["T1", "T2"], 2, 4);
    assert_eq!(pool.get_team_by_id("T2".to_string()).unwrap().id, "T2".to_string());
    assert_eq!(
        pool.get_team_by_id("T9".to_string()).err(),
        Some(PoolError::TeamNotFound)
    );
}

#[test]
fn get_match_by_id_finds_scheduled_matches() {
    let mut pool = solo_pool(&["T1", "T2"], 2, 4);
    assert_eq!(
        pool.get_match_by_id(0).err(),
        Some(PoolError::MatchNotFound)
    );
    pool.start().unwrap();
    let m = pool.get_match_by_id(0).unwrap();
    assert_eq!(m.id, 0);
    assert_eq!(m.stage, 1);
}

#[test]
fn last_ended_stage_tracks_resolution() {
    let mut pool = solo_pool(&["T1", "T2", "T3", "T4"], 2, 4);
    pool.start().unwrap();
    // stage 1 has unresolved matches
    assert_eq!(pool.get_last_ended_stage(), 0);
    pool.set_match_winner(0, "T1".to_string()).unwrap();
    assert_eq!(pool.get_last_ended_stage(), 0);
    pool.set_match_winner(1, "T3".to_string()).unwrap();
    // stage 2 was generated and is still open
    assert_eq!(pool.stage, 2);
    assert_eq!(pool.get_last_ended_stage(), 1);
}

#[test]
fn wide_matches_follow_size_bounds() {
    // matches of three to four teams: six teams make one four-team match
    // and a two-team leftover, each leftover team advancing by bye
    let mut pool = Pool::new(settings(1, 2, 8, 3, 4));
    for id in ["A", "B", "C", "D", "E", "F"] {
        pool.add_team(id.to_string()).unwrap();
        pool.add_user_to_team(id.to_string(), format!("p-{id}")).unwrap();
    }
    pool.start().unwrap();
    let byes: Vec<&PoolMatch> =
        pool.matches.iter().filter(|m| m.rivals.len() == 1).collect();
    let groups: Vec<&PoolMatch> =
        pool.matches.iter().filter(|m| m.rivals.len() > 1).collect();
    assert_eq!(byes.len(), 2);
    assert_eq!(groups.len(), 1);
    assert_eq!(groups[0].rivals.len(), 4);
    for bye in byes {
        assert_eq!(bye.winner.as_ref(), Some(&bye.rivals[0]));
    }
}
