use poker::entities::player::Player;
use poker::game::betting::Action;
use poker::game::round::{next_street, Street};
use poker::game::Game;

#[test]
fn streets_follow_in_order() {
    assert_eq!(next_street(Street::Preflop), Some(Street::Flop));
    assert_eq!(next_street(Street::Flop), Some(Street::Turn));
    assert_eq!(next_street(Street::Turn), Some(Street::River));
    assert_eq!(next_street(Street::River), None);
}

#[test]
fn a_hand_from_forced_bets_to_a_fresh_table() {
    let mut game = Game::from(vec![Player::default(); 3]);
    game.start_hand();
    // dealer 0: small blind seat 1, big blind seat 2, ante from seat 0
    let bets: Vec<u32> = game.all_players.iter().map(|p| p.get_bet()).collect();
    assert_eq!(bets, vec![5, 10, 20]);
    assert!(game.all_players.iter().all(|p| p.get_hand().len() == 2));
    assert_eq!(game.deck.len(), 46);

    // seat 0 calls: its bet rises to 20, and the turn passes to seat 1
    assert_eq!(game.get_next_player(), Ok(0));
    assert_eq!(game.finish_turn(0, Action::Call), Ok(1));
    assert_eq!(game.get_player(0).get_bet(), 20);
    // seat 1 folds: the order shrinks to seats 0 and 2, and the position wraps to seat 0
    assert_eq!(game.finish_turn(1, Action::Fold), Ok(0));
    assert_eq!(game.finish_turn(0, Action::Check), Ok(2));
    assert_eq!(game.finish_turn(2, Action::Check), Err(String::from("Move on.")));

    game.open_street();
    assert_eq!(game.get_river().len(), 3);
    assert_eq!(game.deck.len(), 42);
    game.open_street();
    game.open_street();
    assert_eq!(game.get_river().len(), 5);

    let total_before: u32 = game.all_players.iter().map(|p| p.get_chips() + p.get_bet()).sum();
    game.betting_handler.set_highest_bet(20);
    game.showdown();
    let total_after: u32 = game.all_players.iter().map(|p| p.get_chips() + p.get_bet()).sum();
    assert_eq!(total_before, total_after);
    assert!(game.all_players.iter().all(|p| p.get_bet() == 0));
    assert_eq!(game.get_river().len(), 5);
    assert_eq!(game.get_current_dealer(), 0);

    let over = game.reset_for_next_hand();
    assert!(!over);
    assert_eq!(game.deck.len(), 52);
    assert_eq!(game.get_river().len(), 0);
    assert!(game.all_players.iter().all(|p| p.get_hand().len() == 0 && !p.has_folded()));
    assert_eq!(game.get_current_players().clone(), vec![0, 1, 2]);
}

#[test]
fn the_game_is_over_when_one_player_is_left() {
    let mut players = vec![Player::default(); 2];
    players[1].chip_stack = 0;
    let mut game = Game::from(players);
    game.all_players[1].is_all_in = true;
    // resetting clears the all-in flag, so both seats are in play again
    assert!(!game.reset_for_next_hand());
    let mut single = Game::from(vec![Player::default(); 1]);
    assert!(single.reset_for_next_hand());
}
