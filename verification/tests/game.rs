use poker::entities::card::Card;
use poker::entities::hand::Hand;
use poker::entities::player::Player;
use poker::entities::suit::Suit;
use poker::entities::value::Value;
use poker::entities::suit::Suit::{Club, Diamond, Heart, Spade};
use poker::entities::value::Value::{Ace, King, Queen, Three, Two, Nine};
use poker::game::betting::Action;
use poker::game::Game;

fn hand_of(cards: &[(Suit, Value)]) -> Hand {
    let mut h = Hand::default();
    for (s, v) in cards {
        h.draw_card(Card::new(*s, *v));
    }
    h
}

fn player(cards: &[(Suit, Value)], chips: u32, bet: u32) -> Player {
    let mut p = Player::from((hand_of(cards), chips));
    p.current_bet = bet;
    p
}

#[test]
fn test_river() {
    let mut game = Game::default();
    assert_eq!(game.get_river().len(), 0);
    game.progress_river();
    assert_eq!(game.get_river().len(), 3);
    game.progress_river();
    assert_eq!(game.get_river().len(), 4);
    game.progress_river();
    assert_eq!(game.get_river().len(), 5);
}

#[test]
fn river_burns_one_card_before_each_street() {
    let mut game = Game::default();
    assert_eq!(game.get_placed_card(), None);
    game.progress_river();
    assert_eq!(game.deck.len(), 48);
    // the ace of clubs is burnt, then the king, queen and jack of clubs are placed
    assert_eq!(
        game.get_river(),
        vec![
            Card::new(Suit::Club, Value::King),
            Card::new(Suit::Club, Value::Queen),
            Card::new(Suit::Club, Value::Jack)
        ]
    );
    game.progress_river();
    assert_eq!(game.deck.len(), 46);
    assert_eq!(game.get_placed_card(), Some(Card::new(Suit::Club, Value::Nine)));
    game.reset_river();
    assert_eq!(game.get_river().len(), 0);
}

#[test]
fn reference_order_starts_at_dealer_and_skips_folded_and_all_in() {
    let mut game = Game::default();
    assert_eq!(game.get_current_players().clone(), vec![0, 1, 2, 3, 4]);
    game.next_dealer();
    game.next_dealer();
    assert_eq!(game.get_current_dealer(), 2);
    game.all_players[3].fold();
    game.all_players[0].is_all_in = true;
    assert_eq!(game.get_current_players().clone(), vec![2, 4, 1]);
    game.reset_folded();
    game.reset_all_in();
    assert_eq!(game.get_current_players().clone(), vec![2, 3, 4, 0, 1]);
}

#[test]
fn dealer_button_wraps_round() {
    let mut game = Game::default();
    for _ in 0..5 {
        game.next_dealer();
    }
    assert_eq!(game.get_current_dealer(), 0);
    game.next_dealer();
    assert_eq!(game.get_small_blind_player(), 2);
    assert_eq!(game.get_big_blind_player(), 3);
    assert_eq!(game.get_ante_players(), vec![0, 1, 4]);
}

#[test]
fn forced_bets_are_collected() {
    let mut game = Game::default();
    assert_eq!(game.get_ante_players(), vec![0, 3, 4]);
    assert!(game.can_collect_forced_bets());
    game.collect_ante_blind();
    let bets: Vec<u32> = game.all_players.iter().map(|p| p.get_bet()).collect();
    let chips: Vec<u32> = game.all_players.iter().map(|p| p.get_chips()).collect();
    assert_eq!(bets, vec![5, 10, 20, 5, 5]);
    assert_eq!(chips, vec![1995, 1990, 1980, 1995, 1995]);
    assert_eq!(game.betting_handler.get_highest_bet(), 20);
}

#[test]
fn a_short_stack_goes_all_in_on_a_forced_bet() {
    let mut players = vec![Player::default(); 3];
    players[2].chip_stack = 15;
    let mut game = Game::from(players);
    // dealer 0: the 20-chip big blind falls on seat 2, which holds only 15
    assert!(game.can_collect_forced_bets());
    game.collect_ante_blind();
    let p2 = game.get_player(2);
    assert!(p2.is_all_in);
    assert_eq!((p2.get_chips(), p2.get_bet()), (0, 15));
    assert_eq!((game.get_player(1).get_chips(), game.get_player(1).get_bet()), (1990, 10));
    assert_eq!(game.betting_handler.get_highest_bet(), 20);

    // exactly the blind: the player is left with nothing and is all in too
    let mut exact = vec![Player::default(); 3];
    exact[2].chip_stack = 20;
    let mut game = Game::from(exact);
    game.collect_ante_blind();
    assert!(game.get_player(2).is_all_in);
    assert_eq!((game.get_player(2).get_chips(), game.get_player(2).get_bet()), (0, 20));
}

#[test]
fn forced_bets_below_a_bet_already_made_are_reported() {
    let mut players = vec![Player::default(); 3];
    players[2].current_bet = 30;
    let game = Game::from(players);
    assert!(!game.can_collect_forced_bets());
}

#[test]
fn cards_are_dealt_two_each_from_the_end() {
    let mut game = Game::default();
    game.deal_cards();
    assert_eq!(game.deck.len(), 42);
    assert_eq!(
        game.get_player(0).get_hand().get_cards(),
        vec![Card::new(Suit::Club, Value::Ace), Card::new(Suit::Club, Value::King)]
    );
    assert_eq!(
        game.get_player(1).get_hand().get_cards(),
        vec![Card::new(Suit::Club, Value::Queen), Card::new(Suit::Club, Value::Jack)]
    );
    game.clear_hands();
    assert_eq!(game.get_player(0).get_hand().len(), 0);
}

#[test]
fn turns_go_round_until_everyone_has_matched() {
    let mut game = Game::from(vec![Player::default(); 3]);
    assert_eq!(game.get_next_player(), Ok(0));
    assert_eq!(game.execute_player_action(0, Action::Check), Ok(Action::Check));
    assert_eq!(game.go_next_player(), Ok(1));
    assert_eq!(game.get_table_pos(), 1);
    assert_eq!(game.execute_player_action(1, Action::Check), Ok(Action::Check));
    assert_eq!(game.go_next_player(), Ok(2));
    assert_eq!(game.execute_player_action(2, Action::Check), Ok(Action::Check));
    assert!(game.is_round_settled());
    assert_eq!(game.go_next_player(), Err(String::from("Move on.")));
    assert!(game.all_players.iter().all(|p| !p.has_acted));
    assert_eq!(game.get_next_player(), Ok(2));
}

#[test]
fn no_next_player_when_one_is_left() {
    let mut game = Game::from(vec![Player::default(); 3]);
    game.all_players[0].fold();
    game.all_players[1].fold();
    assert_eq!(
        game.get_next_player(),
        Err(String::from("All other players probs folded."))
    );
}

#[test]
fn actions_move_chips_between_stack_and_bet() {
    let mut game = Game::from(vec![Player::default(); 3]);
    game.betting_handler.set_highest_bet(20);
    assert!(game.can_execute(0, Action::Call));
    assert_eq!(game.execute_player_action(0, Action::Call), Ok(Action::Call));
    assert_eq!((game.get_player(0).get_chips(), game.get_player(0).get_bet()), (1980, 20));
    assert!(game.get_player(0).has_acted);

    assert_eq!(game.execute_player_action(1, Action::Raise { value: 100 }), Ok(Action::Raise { value: 100 }));
    assert_eq!((game.get_player(1).get_chips(), game.get_player(1).get_bet()), (1900, 100));
    assert_eq!(game.betting_handler.get_highest_bet(), 100);

    // a check below the highest bet is refused
    assert!(!game.can_execute(0, Action::Check));
    assert_eq!(
        game.validate_player_action(Action::Check, game.get_player(0).clone()),
        Err(String::from("You don't have enough chips bet to check."))
    );

    // betting the whole stack is going all in: the whole stack goes in
    assert_eq!(game.execute_player_action(2, Action::Bet { value: 2000 }), Ok(Action::AllIn));
    let p2 = game.get_player(2);
    assert!(p2.is_all_in && p2.has_acted);
    assert_eq!((p2.get_chips(), p2.get_bet()), (0, 2000));
    assert_eq!(game.betting_handler.get_highest_bet(), 2000);

    assert_eq!(game.execute_player_action(0, Action::Fold), Ok(Action::Fold));
    assert!(game.get_player(0).has_folded());
    for i in 0..3 {
        let p = game.get_player(i);
        assert_eq!(p.get_chips() + p.get_bet(), 2000);
    }
}

#[test]
fn all_in_puts_the_whole_stack_on_top_of_the_bet() {
    let mut game = Game::from(vec![Player::default(); 3]);
    game.collect_ante_blind();
    // seat 2 posted the 20-chip big blind and has 1980 left
    assert_eq!((game.get_player(2).get_chips(), game.get_player(2).get_bet()), (1980, 20));
    assert!(game.can_execute(2, Action::AllIn));
    assert_eq!(game.execute_player_action(2, Action::AllIn), Ok(Action::AllIn));
    let p2 = game.get_player(2);
    assert!(p2.is_all_in && p2.has_acted);
    assert_eq!((p2.get_chips(), p2.get_bet()), (0, 2000));
    assert_eq!(game.betting_handler.get_highest_bet(), 2000);

    // a bet larger than what is left behind: the rest still goes in
    let mut p = Player::default();
    p.chip_stack = 500;
    p.current_bet = 1500;
    let mut game = Game::from(vec![p, Player::default()]);
    game.betting_handler.set_highest_bet(1500);
    assert!(game.can_execute(0, Action::AllIn));
    assert_eq!(game.execute_player_action(0, Action::AllIn), Ok(Action::AllIn));
    assert_eq!((game.get_player(0).get_chips(), game.get_player(0).get_bet()), (0, 2000));
    assert_eq!(game.betting_handler.get_highest_bet(), 2000);

    // a call the stack cannot cover goes all in with what there is
    let mut short = Player::default();
    short.chip_stack = 30;
    short.current_bet = 10;
    let mut game = Game::from(vec![short, Player::default()]);
    game.betting_handler.set_highest_bet(100);
    assert_eq!(game.execute_player_action(0, Action::Call), Ok(Action::AllIn));
    assert_eq!((game.get_player(0).get_chips(), game.get_player(0).get_bet()), (0, 40));
    assert!(game.get_player(0).is_all_in);
    assert_eq!(game.betting_handler.get_highest_bet(), 100);
}

#[test]
fn betting_below_the_stack_raises_the_highest_bet() {
    let mut game = Game::from(vec![Player::default(); 2]);
    assert_eq!(game.execute_player_action(0, Action::Bet { value: 300 }), Ok(Action::Bet { value: 300 }));
    assert_eq!(game.betting_handler.get_highest_bet(), 300);
    assert_eq!((game.get_player(0).get_chips(), game.get_player(0).get_bet()), (1700, 300));
    game.clear_bets();
    assert_eq!(game.get_player(0).get_bet(), 0);
}

#[test]
fn winners_are_the_best_hands_among_the_first_unfolded_seats() {
    let mut players = vec![
        player(&[(Heart, King), (Spade, Two)], 100, 0),
        player(&[(Heart, Ace), (Diamond, Ace)], 100, 0),
        player(&[(Spade, Ace), (Club, Ace)], 100, 0),
        player(&[(Heart, Three), (Club, Three)], 100, 0),
    ];
    players[3].fold();
    let mut game = Game::from(players);
    assert_eq!(game.unfolded_players(), 3);
    assert_eq!(game.get_winning_players(), vec![1, 2]);
    game.all_players[0].fold();
    // two seats not folded: the contenders are seats 0 and 1
    assert_eq!(game.get_winning_players(), vec![1]);
}

#[test]
fn single_pot_goes_to_the_winner() {
    let mut players = vec![
        player(&[(Heart, Ace), (Diamond, Ace)], 100, 50),
        player(&[(Heart, King), (Spade, Two)], 100, 50),
        player(&[(Club, Queen), (Club, Three)], 100, 20),
    ];
    players[2].fold();
    let mut game = Game::from(players);
    game.betting_handler.set_highest_bet(50);
    game.distribute_winnings();
    let chips: Vec<u32> = game.all_players.iter().map(|p| p.get_chips()).collect();
    assert_eq!(chips, vec![220, 100, 100]);
    assert!(game.all_players.iter().all(|p| p.get_bet() == 0));
}

#[test]
fn bets_above_the_highest_are_returned() {
    let players = vec![
        player(&[(Suit::Heart, Value::Ace), (Suit::Diamond, Value::Ace)], 0, 30),
        player(&[(Suit::Heart, Value::King), (Suit::Spade, Value::Two)], 0, 60),
    ];
    let mut game = Game::from(players);
    game.betting_handler.set_highest_bet(30);
    game.distribute_winnings();
    let chips: Vec<u32> = game.all_players.iter().map(|p| p.get_chips()).collect();
    // seat 1 gets back the 30 chips it bet beyond the winner's bet, seat 0 wins 30 + 30
    assert_eq!(chips, vec![60, 30]);
    assert_eq!(chips.iter().sum::<u32>(), 90);
}

#[test]
fn split_pots_are_shared_level_by_level() {
    let players = vec![
        player(&[(Heart, Ace), (Diamond, Ace)], 0, 20),
        player(&[(Spade, Ace), (Club, Ace)], 0, 50),
        player(&[(Heart, King), (Spade, Two)], 0, 50),
    ];
    let mut game = Game::from(players);
    game.betting_handler.set_highest_bet(50);
    game.distribute_winnings();
    let chips: Vec<u32> = game.all_players.iter().map(|p| p.get_chips()).collect();
    // level up to 20: 3 players x 20 = 60, shared by seats 0 and 1 (30 each);
    // level 20..50: 2 players x 30 = 60, for seat 1 alone (seat 0 did not match it)
    assert_eq!(chips, vec![30, 90, 0]);
    assert_eq!(chips.iter().sum::<u32>(), 120);
}

#[test]
fn a_three_way_tie_with_a_short_all_in() {
    let mut g = Game::from(vec![Player::default(); 3]);
    g.all_players[0].chip_stack = 1950;
    g.all_players[0].current_bet = 50;
    g.all_players[0].is_all_in = true;
    for i in 1..3 {
        g.all_players[i].chip_stack = 1900;
        g.all_players[i].current_bet = 100;
    }
    g.betting_handler.set_highest_bet(100);
    assert!(g.showdown_fits());
    g.distribute_winnings();
    // main pot 150 split three ways, side pot 100 split between seats 1 and 2
    let chips: Vec<u32> = g.all_players.iter().map(|p| p.get_chips()).collect();
    assert_eq!(chips, vec![2000, 2000, 2000]);
    assert!(g.all_players.iter().all(|p| p.get_bet() == 0));
}

#[test]
fn a_short_winner_takes_only_what_it_matched() {
    let mut g = Game::from(vec![
        player(&[(Heart, Ace), (Diamond, Ace)], 0, 50),
        player(&[(Heart, King), (Spade, Two)], 0, 100),
        player(&[(Club, Queen), (Club, Three)], 0, 100),
    ]);
    g.all_players[0].is_all_in = true;
    g.betting_handler.set_highest_bet(100);
    g.distribute_winnings();
    let chips: Vec<u32> = g.all_players.iter().map(|p| p.get_chips()).collect();
    // seat 0 wins 50 from each seat; seats 1 and 2 get back the 50 they bet beyond it
    assert_eq!(chips, vec![150, 50, 50]);
    for (i, c) in chips.iter().enumerate() {
        let bet = [50u32, 100, 100][i];
        assert!(*c <= bet * 3);
    }
}

#[test]
fn a_refused_action_changes_nothing() {
    let mut game = Game::from(vec![Player::default(); 2]);
    game.betting_handler.set_highest_bet(50);
    let before: Vec<(u32, u32, bool)> =
        game.all_players.iter().map(|p| (p.get_chips(), p.get_bet(), p.has_acted)).collect();
    assert_eq!(
        game.execute_player_action(0, Action::Check),
        Err(String::from("You don't have enough chips bet to check."))
    );
    assert_eq!(
        game.execute_player_action(1, Action::Bet { value: 5000 }),
        Err(String::from("Bet exceeds current chips."))
    );
    let after: Vec<(u32, u32, bool)> =
        game.all_players.iter().map(|p| (p.get_chips(), p.get_bet(), p.has_acted)).collect();
    assert_eq!(before, after);
    assert_eq!(game.betting_handler.get_highest_bet(), 50);
}

#[test]
fn an_action_is_accepted_only_as_chosen() {
    let mut game = Game::from(vec![Player::default(); 2]);
    let p = game.get_player(0).clone();
    assert!(game.accepts_action(Action::Bet { value: 500 }, &p));
    // betting the whole stack turns into all in
    assert!(!game.accepts_action(Action::Bet { value: 2000 }, &p));
    assert!(game.accepts_action(Action::AllIn, &p));
    game.betting_handler.set_highest_bet(50);
    assert!(!game.accepts_action(Action::Check, &p));
    assert!(game.accepts_action(Action::Call, &p));
}

#[test]
fn the_button_comes_back_after_a_full_turn_of_the_table() {
    let mut game = Game::default();
    game.dealer_pos = 3;
    let mut seen = Vec::new();
    for _ in 0..5 {
        game.next_dealer();
        seen.push(game.get_current_dealer());
    }
    assert_eq!(seen, vec![4, 0, 1, 2, 3]);
}

#[test]
fn a_cloned_table_is_a_separate_copy() {
    let mut game = Game::from(vec![
        player(&[(Heart, Ace), (Diamond, Ace)], 100, 50),
        player(&[(Heart, King), (Spade, Two)], 200, 20),
    ]);
    game.betting_handler.set_highest_bet(50);
    game.progress_river();
    let copy = game.clone();
    assert_eq!(copy.get_river(), game.get_river());
    assert_eq!(copy.deck.len(), game.deck.len());
    assert_eq!(copy.betting_handler.get_highest_bet(), 50);
    assert_eq!(copy.get_player(1).get_chips(), 200);
    assert_eq!(copy.get_player(0).get_hand().get_cards(), game.get_player(0).get_hand().get_cards());
    game.all_players[1].chip_stack = 0;
    game.betting_handler.set_highest_bet(0);
    assert_eq!(copy.get_player(1).get_chips(), 200);
    assert_eq!(copy.betting_handler.get_highest_bet(), 50);
}

#[test]
fn first_player_is_read_before_the_dealer() {
    let mut game = Game::default();
    game.next_dealer();
    game.create_player_reference_vec();
    assert_eq!(game.get_current_players().clone(), vec![1, 2, 3, 4, 0]);
    assert_eq!(game.get_first_player(), 1);
}

#[test]
fn showdown_checks_its_arithmetic() {
    let mut game = Game::from(vec![
        player(&[(Heart, Ace), (Diamond, Ace)], 100, 50),
        player(&[(Heart, King), (Spade, Two)], 100, 50),
    ]);
    game.betting_handler.set_highest_bet(50);
    assert!(game.showdown_fits());

    // the winner's stack would overflow
    let mut rich = Game::from(vec![
        player(&[(Heart, Ace), (Diamond, Ace)], u32::MAX - 10, 50),
        player(&[(Heart, King), (Spade, Two)], 100, 50),
    ]);
    rich.betting_handler.set_highest_bet(50);
    assert!(!rich.showdown_fits());

    // every player folded: nobody wins
    let mut folded = Game::from(vec![player(&[(Heart, Ace)], 100, 0), player(&[(Club, Two)], 100, 0)]);
    folded.all_players[0].fold();
    folded.all_players[1].fold();
    assert!(!folded.showdown_fits());

    // split pots need the winners' bets to rise seat by seat
    let mut falling = Game::from(vec![
        player(&[(Heart, Ace), (Diamond, Ace)], 0, 50),
        player(&[(Spade, Ace), (Club, Ace)], 0, 20),
    ]);
    falling.betting_handler.set_highest_bet(50);
    assert!(!falling.showdown_fits());
    let mut rising = Game::from(vec![
        player(&[(Heart, Ace), (Diamond, Ace)], 0, 20),
        player(&[(Spade, Ace), (Club, Ace)], 0, 50),
    ]);
    rising.betting_handler.set_highest_bet(50);
    assert!(rising.showdown_fits());
}
