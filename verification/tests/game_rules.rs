use rabbit_net::game_rules::{game_over, next_player_id};
use rabbit_net::protocol::{EntityId, PlayerId};

#[test]
fn next_player_id_fills_the_first_gap() {
    assert_eq!(next_player_id(&[]), PlayerId(1));
    assert_eq!(next_player_id(&[PlayerId(1), PlayerId(2)]), PlayerId(3));
    assert_eq!(next_player_id(&[PlayerId(1), PlayerId(3)]), PlayerId(2));
    assert_eq!(next_player_id(&[PlayerId(2), PlayerId(3)]), PlayerId(1));
}

#[test]
fn dead_players_lose_and_the_last_one_wins() {
    let players = [(PlayerId(1), EntityId(10)), (PlayerId(2), EntityId(20)), (PlayerId(3), EntityId(30))];
    let (losers, winner) = game_over(&players, &[EntityId(30), EntityId(10)]);
    assert_eq!(losers, vec![PlayerId(1), PlayerId(3)]);
    assert_eq!(winner, Some(PlayerId(2)));
}

#[test]
fn no_winner_while_several_remain() {
    let players = [(PlayerId(1), EntityId(10)), (PlayerId(2), EntityId(20)), (PlayerId(3), EntityId(30))];
    let (losers, winner) = game_over(&players, &[EntityId(20), EntityId(99)]);
    assert_eq!(losers, vec![PlayerId(2)]);
    assert_eq!(winner, None);

    let (losers, winner) = game_over(&players, &[]);
    assert!(losers.is_empty());
    assert_eq!(winner, None);
}

#[test]
fn a_lone_player_who_dies_loses_without_a_winner() {
    let players = [(PlayerId(4), EntityId(1))];
    let (losers, winner) = game_over(&players, &[EntityId(1)]);
    assert_eq!(losers, vec![PlayerId(4)]);
    assert_eq!(winner, None);
}
