use ranked::registry::Registry;
use ranked::serializing::{decode_snapshot, encode_snapshot};
use ranked::system::{Error, Leaderboard};

fn sample_registry() -> Registry {
    let mut reg = Registry::new();
    assert!(reg.add_community(7));
    assert!(reg.add_community(42));
    reg.register_player(7, "alice".to_string()).unwrap();
    reg.register_player(7, "bob".to_string()).unwrap();
    reg.register_player(7, "zoé".to_string()).unwrap();
    reg.register_player(42, "carol".to_string()).unwrap();
    reg.record_result(7, "alice".to_string(), "bob".to_string()).unwrap();
    reg.record_result(7, "alice".to_string(), "zoé".to_string()).unwrap();
    reg.record_result(42, "carol".to_string(), "carol".to_string()).unwrap_err();
    reg
}

fn standing_of(reg: &Registry, community: u64) -> Vec<(String, u32, i32)> {
    reg.get(community)
        .unwrap()
        .all_players()
        .into_iter()
        .map(|p| (p.id, p.score, p.increase))
        .collect()
}

#[test]
fn unknown_community_is_not_found() {
    let mut reg = Registry::new();
    assert!(reg.get(9).is_none());
    assert_eq!(reg.register_player(9, "alice".to_string()).unwrap_err(), Error::NotFound);
    assert_eq!(
        reg.record_result(9, "alice".to_string(), "bob".to_string()).unwrap_err(),
        Error::NotFound
    );
}

#[test]
fn communities_are_isolated() {
    let mut reg = Registry::new();
    assert!(reg.add_community(1));
    assert!(reg.add_community(2));
    assert!(!reg.add_community(1));
    reg.register_player(1, "alice".to_string()).unwrap();
    reg.register_player(2, "alice".to_string()).unwrap();
    reg.register_player(1, "bob".to_string()).unwrap();
    reg.record_result(1, "alice".to_string(), "bob".to_string()).unwrap();
    let one = standing_of(&reg, 1);
    let two = standing_of(&reg, 2);
    assert_eq!(one[0], ("alice".to_string(), 10, 10));
    assert_eq!(two, vec![("alice".to_string(), 0, 0)]);
}

#[test]
fn registry_mutations_report_player_failures() {
    let mut reg = Registry::new();
    assert!(reg.add_community(5));
    reg.register_player(5, "alice".to_string()).unwrap();
    assert_eq!(
        reg.register_player(5, "alice".to_string()).unwrap_err(),
        Error::AlreadyRegistered
    );
    assert_eq!(
        reg.record_result(5, "alice".to_string(), "ghost".to_string()).unwrap_err(),
        Error::PlayerNotFound
    );
    assert_eq!(
        reg.record_result(5, "alice".to_string(), "alice".to_string()).unwrap_err(),
        Error::InvalidMatch
    );
}

#[test]
fn snapshot_round_trips_exactly() {
    let reg = sample_registry();
    let bytes = encode_snapshot(&reg);
    let loaded = decode_snapshot(&bytes).expect("a saved snapshot must load");
    assert_eq!(loaded.len(), reg.len());
    assert_eq!(standing_of(&loaded, 7), standing_of(&reg, 7));
    assert_eq!(standing_of(&loaded, 42), standing_of(&reg, 42));
    // loading is lossless for clamped scores and non-ASCII ids too
    assert!(standing_of(&reg, 7).iter().any(|(id, score, inc)| id == "zoé" && *score == 0
        && *inc == -10));
    let again = encode_snapshot(&loaded);
    assert_eq!(bytes, again);
}

#[test]
fn empty_snapshot_round_trips() {
    let reg = Registry::new();
    let bytes = encode_snapshot(&reg);
    let loaded = decode_snapshot(&bytes).expect("an empty snapshot must load");
    assert_eq!(loaded.len(), 0);
}

#[test]
fn mangled_snapshots_are_rejected() {
    let reg = sample_registry();
    let bytes = encode_snapshot(&reg);
    let mut truncated = bytes.clone();
    truncated.pop();
    assert!(decode_snapshot(&truncated).is_none());
    let mut trailing = bytes.clone();
    trailing.push(0);
    assert!(decode_snapshot(&trailing).is_none());
    assert!(decode_snapshot(&Vec::new()).is_none());
}

#[test]
fn from_entries_rejects_duplicate_communities() {
    let a = Leaderboard::new();
    let b = Leaderboard::new();
    assert!(Registry::from_entries(vec![(3, a), (3, b)]).is_none());
    let c = Leaderboard::new();
    let reg = Registry::from_entries(vec![(3, c)]).unwrap();
    assert_eq!(reg.len(), 1);
    assert!(reg.get(3).is_some());
}
