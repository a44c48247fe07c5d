use ranked::system::{Leaderboard, Player};
use ranked::view::to_russian_temperature;

#[test]
fn deltas_carry_an_explicit_sign() {
    assert_eq!(to_russian_temperature(10), "+10");
    assert_eq!(to_russian_temperature(-10), "-10");
    assert_eq!(to_russian_temperature(0), "+0");
    assert_eq!(to_russian_temperature(-2147483648), "-2147483648");
    assert_eq!(to_russian_temperature(2147483647), "+2147483647");
}

#[test]
fn one_record_renders_with_rank_score_and_delta() {
    let mut lb = Leaderboard::new();
    lb.insert_player("alice".to_string()).unwrap();
    lb.insert_player("bob".to_string()).unwrap();
    let (alice, bob) = lb.score("alice".to_string(), "bob".to_string()).unwrap();
    assert_eq!(lb.format_player(&alice), "**alice** [#1]: 10 (+10)");
    assert_eq!(lb.format_player(&bob), "**bob** [#2]: 0 (-10)");
    let absent = Player { score: 0, increase: 0, id: "ghost".to_string() };
    assert_eq!(lb.format_player(&absent), "**ghost** [#3]: 0 (+0)");
}

#[test]
fn the_standing_renders_best_first() {
    let mut lb = Leaderboard::new();
    lb.insert_player("alice".to_string()).unwrap();
    lb.insert_player("bob".to_string()).unwrap();
    lb.score("alice".to_string(), "bob".to_string()).unwrap();
    assert_eq!(
        lb.format(),
        "**Leaderboard**: \n**alice** [#1]: 10 (+10)\n**bob** [#2]: 0 (-10)"
    );
}

#[test]
fn an_empty_standing_renders_an_explicit_message() {
    let lb = Leaderboard::new();
    assert_eq!(lb.format(), "**Leaderboard**: \n*No players*");
}
