use ranked::system::{Error, Leaderboard, Player};

fn record(score: u32, increase: i32, id: &str) -> Player {
    Player { score, increase, id: id.to_string() }
}

#[test]
fn insert_then_find_each_distinct_id() {
    let mut lb = Leaderboard::new();
    let names = ["alice", "bob", "carol", "dave"];
    for name in names {
        let created = lb.insert_player(name.to_string()).unwrap();
        assert_eq!(created.id, name);
        assert_eq!(created.score, 0);
        assert_eq!(created.increase, 0);
    }
    assert_eq!(lb.len(), names.len());
    for name in names {
        let found = lb.find_player(name.to_string()).unwrap();
        assert_eq!(found.id, name);
        assert_eq!(found.score, 0);
        assert_eq!(found.increase, 0);
    }
    assert!(lb.find_player("erin".to_string()).is_none());
}

#[test]
fn duplicate_insert_reports_already_registered_and_changes_nothing() {
    let mut lb = Leaderboard::new();
    lb.insert_player("alice".to_string()).unwrap();
    lb.insert_player("bob".to_string()).unwrap();
    lb.score("alice".to_string(), "bob".to_string()).unwrap();
    let before: Vec<(String, u32, i32)> =
        lb.all_players().into_iter().map(|p| (p.id, p.score, p.increase)).collect();
    let res = lb.insert_player("alice".to_string());
    assert_eq!(res.unwrap_err(), Error::AlreadyRegistered);
    let after: Vec<(String, u32, i32)> =
        lb.all_players().into_iter().map(|p| (p.id, p.score, p.increase)).collect();
    assert_eq!(before, after);
    let alice = lb.find_player("alice".to_string()).unwrap();
    assert_eq!(alice.score, 10);
    assert_eq!(alice.increase, 10);
}

#[test]
fn score_moves_both_records_by_the_fixed_delta() {
    let mut lb = Leaderboard::new();
    lb.insert_player("winner".to_string()).unwrap();
    lb.insert_player("loser".to_string()).unwrap();
    lb.score("winner".to_string(), "loser".to_string()).unwrap();
    lb.score("winner".to_string(), "loser".to_string()).unwrap();
    lb.score("loser".to_string(), "winner".to_string()).unwrap();
    // winner: +10 +10 -10, clamped never; loser: -10 -10 +10 with clamps
    let w = lb.find_player("winner".to_string()).unwrap();
    assert_eq!(w.score, 10);
    assert_eq!(w.increase, -10);
    let l = lb.find_player("loser".to_string()).unwrap();
    assert_eq!(l.score, 10);
    assert_eq!(l.increase, 10);
}

#[test]
fn clamped_loss_records_the_requested_delta() {
    // prior scores (sw, sl) = (0, 5): new scores (10, 0), deltas (+10, -10)
    let (w, l) = Leaderboard::calculate_scores((record(0, 0, "w"), record(5, 0, "l")));
    assert_eq!(w.score, 10);
    assert_eq!(w.increase, 10);
    assert_eq!(l.score, 0);
    assert_eq!(l.increase, -10);
}

#[test]
fn concrete_scenario_alice_beats_bob() {
    let mut lb = Leaderboard::new();
    lb.insert_player("alice".to_string()).unwrap();
    lb.insert_player("bob".to_string()).unwrap();
    let (alice, bob) = lb.score("alice".to_string(), "bob".to_string()).unwrap();
    assert_eq!(alice.score, 10);
    assert_eq!(alice.increase, 10);
    assert_eq!(bob.score, 0);
    assert_eq!(bob.increase, -10);
    assert_eq!(lb.rank_of(&alice), 1);
    assert_eq!(lb.rank_of(&bob), 2);
}

#[test]
fn score_with_unregistered_id_fails_and_changes_nothing() {
    let mut lb = Leaderboard::new();
    lb.insert_player("alice".to_string()).unwrap();
    lb.insert_player("bob".to_string()).unwrap();
    let before: Vec<(String, u32, i32)> =
        lb.all_players().into_iter().map(|p| (p.id, p.score, p.increase)).collect();
    let res = lb.score("alice".to_string(), "mallory".to_string());
    assert_eq!(res.unwrap_err(), Error::PlayerNotFound);
    let res = lb.score("mallory".to_string(), "alice".to_string());
    assert_eq!(res.unwrap_err(), Error::PlayerNotFound);
    let after: Vec<(String, u32, i32)> =
        lb.all_players().into_iter().map(|p| (p.id, p.score, p.increase)).collect();
    assert_eq!(before, after);
}

#[test]
fn self_match_is_rejected() {
    let mut lb = Leaderboard::new();
    lb.insert_player("alice".to_string()).unwrap();
    let res = lb.score("alice".to_string(), "alice".to_string());
    assert_eq!(res.unwrap_err(), Error::InvalidMatch);
    let alice = lb.find_player("alice".to_string()).unwrap();
    assert_eq!(alice.score, 0);
    assert_eq!(alice.increase, 0);
}

#[test]
fn rank_follows_the_compound_key() {
    let mut lb = Leaderboard::new();
    for name in ["a", "b", "c", "d"] {
        lb.insert_player(name.to_string()).unwrap();
    }
    lb.score("a".to_string(), "b".to_string()).unwrap();
    lb.score("a".to_string(), "c".to_string()).unwrap();
    lb.score("d".to_string(), "c".to_string()).unwrap();
    // a: 20 (+10); d: 10 (+10); b: 0 (-10); c: 0 (-10); ties broken by
    // lastDelta then id, ascending; greater key means smaller rank
    assert_eq!(lb.rank_of(&record(0, 0, "a")), 1);
    assert_eq!(lb.rank_of(&record(0, 0, "d")), 2);
    assert_eq!(lb.rank_of(&record(0, 0, "c")), 3);
    assert_eq!(lb.rank_of(&record(0, 0, "b")), 4);
    let order: Vec<String> = lb.all_players().into_iter().map(|p| p.id).collect();
    assert_eq!(order, vec!["a", "d", "c", "b"]);
}

#[test]
fn absent_id_gets_the_sentinel_rank_one_past_the_size() {
    let mut lb = Leaderboard::new();
    lb.insert_player("alice".to_string()).unwrap();
    lb.insert_player("bob".to_string()).unwrap();
    assert_eq!(lb.rank_of(&record(0, 0, "mallory")), 3);
    assert_eq!(Leaderboard::new().rank_of(&record(0, 0, "anyone")), 1);
}

#[test]
fn disjoint_results_commute() {
    let mut one = Leaderboard::new();
    for name in ["a", "b", "c", "d"] {
        one.insert_player(name.to_string()).unwrap();
    }
    let mut other = Leaderboard::new();
    for name in ["a", "b", "c", "d"] {
        other.insert_player(name.to_string()).unwrap();
    }
    one.score("a".to_string(), "b".to_string()).unwrap();
    one.score("c".to_string(), "d".to_string()).unwrap();
    other.score("c".to_string(), "d".to_string()).unwrap();
    other.score("a".to_string(), "b".to_string()).unwrap();
    let left: Vec<(String, u32, i32)> =
        one.all_players().into_iter().map(|p| (p.id, p.score, p.increase)).collect();
    let right: Vec<(String, u32, i32)> =
        other.all_players().into_iter().map(|p| (p.id, p.score, p.increase)).collect();
    assert_eq!(left, right);
    for name in ["a", "c"] {
        assert_eq!(one.find_player(name.to_string()).unwrap().score, 10);
    }
    for name in ["b", "d"] {
        assert_eq!(one.find_player(name.to_string()).unwrap().score, 0);
    }
}

#[test]
fn from_players_accepts_only_well_formed_standings() {
    let sorted = vec![record(0, -10, "b"), record(10, 10, "a")];
    let lb = Leaderboard::from_players(sorted).unwrap();
    assert_eq!(lb.len(), 2);
    let unsorted = vec![record(10, 10, "a"), record(0, -10, "b")];
    assert!(Leaderboard::from_players(unsorted).is_none());
    let duplicate = vec![record(0, 0, "a"), record(10, 0, "a")];
    assert!(Leaderboard::from_players(duplicate).is_none());
}

#[test]
fn identity_equality_ignores_scores() {
    assert_eq!(record(0, 0, "alice"), record(99, -10, "alice"));
    assert_ne!(record(0, 0, "alice"), record(0, 0, "bob"));
}
