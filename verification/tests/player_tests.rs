use carcassonne_backend::domain::player::{Player, STARTING_MEEPLES};

#[test]
fn new_player_has_seven_meeples_and_zero_score() {
    let p = Player::new(0);
    assert_eq!(p.meeples_remaining, 7);
    assert_eq!(p.score, 0);
}

#[test]
fn try_take_meeple_decrements_until_empty() {
    let mut p = Player::new(0);
    for _ in 0..7 {
        assert!(p.try_take_meeple());
    }
    assert!(!p.try_take_meeple());
    assert_eq!(p.meeples_remaining, 0);
}

#[test]
fn return_meeple_increments() {
    let mut p = Player::new(0);
    p.try_take_meeple();
    p.return_meeple();
    assert_eq!(p.meeples_remaining, 7);
}

#[test]
fn add_score_accumulates_and_keeps_id() {
    let mut p = Player::new(3);
    p.add_score(4);
    p.add_score(9);
    assert_eq!(p.score, 13);
    assert_eq!(p.id, 3);
    assert_eq!(p.meeples_remaining, STARTING_MEEPLES);
}
