use poker::entities::player::Player;
use poker::game::betting::{action_for_choice, choice_needs_amount, Action, Betting};

#[test]
fn validate_action_test() {
    let mut betting_obj = Betting::from((10, 20, 5));
    // Validate Bet
    let mut betting_player = Player::default();
    betting_player.chip_stack = 2000;
    assert_eq!(
        betting_obj
            .validate_action(Action::Bet { value: 500 }, &betting_player.clone())
            .unwrap(),
        Action::Bet { value: 500 }
    );
    // Validate Bet >> All In
    assert_eq!(
        betting_obj
            .validate_action(Action::Bet { value: 2000 }, &betting_player.clone())
            .unwrap(),
        Action::AllIn
    );
    assert!(betting_obj
        .validate_action(Action::Bet { value: 2005 }, &betting_player.clone())
        .is_err());

    // Validate Raise
    assert_eq!(
        betting_obj
            .validate_action(Action::Raise { value: 500 }, &betting_player.clone())
            .unwrap(),
        Action::Raise { value: 500 }
    );
    // Validate Raise >> All In
    assert_eq!(
        betting_obj
            .validate_action(Action::Raise { value: 2000 }, &betting_player.clone())
            .unwrap(),
        Action::AllIn
    );
    assert_eq!(
        betting_obj
            .validate_action(Action::Raise { value: 2500 }, &betting_player.clone())
            .unwrap(),
        Action::AllIn
    );

    // Invalid Raise (value not higher than highest_bet)
    betting_obj.set_highest_bet(600); // Set a highest bet
    betting_player.chip_stack = 2000; // Ensure player has enough chips to make the raise valid otherwise
    assert!(betting_obj
        .validate_action(Action::Raise { value: 500 }, &betting_player.clone())
        .is_err());

    // Validate Call
    betting_obj.set_highest_bet(500);
    assert_eq!(
        betting_obj
            .validate_action(Action::Call, &betting_player.clone())
            .unwrap(),
        Action::Call
    );
    // Validate Call >> All In
    betting_obj.set_highest_bet(2000);
    assert_eq!(
        betting_obj
            .validate_action(Action::Call, &betting_player.clone())
            .unwrap(),
        Action::AllIn
    );
    betting_obj.set_highest_bet(2005);
    assert_eq!(
        betting_obj
            .validate_action(Action::Call, &betting_player.clone())
            .unwrap(),
        Action::AllIn
    );
    // Validate Check
    betting_obj.set_highest_bet(500);
    betting_player.current_bet = 500;
    assert_eq!(
        betting_obj
            .validate_action(Action::Check, &betting_player.clone())
            .unwrap(),
        Action::Check
    );
    betting_player.current_bet = 250;

    // Invalid Check
    assert!(betting_obj
        .validate_action(Action::Check, &betting_player.clone())
        .is_err());
    // Validate Fold
    assert_eq!(
        betting_obj
            .validate_action(Action::Fold, &betting_player.clone())
            .unwrap(),
        Action::Fold
    );
    // Validate AllIn
    assert_eq!(
        betting_obj
            .validate_action(Action::AllIn, &betting_player.clone())
            .unwrap(),
        Action::AllIn
    );
}

#[test]
fn a_call_costs_the_difference_to_the_highest_bet() {
    let mut betting = Betting::default();
    betting.set_highest_bet(200);
    let mut p = Player::default();
    p.chip_stack = 150;
    p.current_bet = 100;
    // the call costs 100 chips, and the player has 150
    assert_eq!(betting.validate_action(Action::Call, &p), Ok(Action::Call));
    p.chip_stack = 100;
    assert_eq!(betting.validate_action(Action::Call, &p), Ok(Action::AllIn));
    p.chip_stack = 101;
    assert_eq!(betting.validate_action(Action::Call, &p), Ok(Action::Call));
}

#[test]
fn a_cloned_betting_state_is_a_copy() {
    let mut betting = Betting::from((5, 10, 1));
    betting.set_highest_bet(40);
    let copy = betting.clone();
    assert_eq!(
        (copy.get_small_blind(), copy.get_big_blind(), copy.get_ante(), copy.get_highest_bet()),
        (5, 10, 1, 40)
    );
    betting.set_highest_bet(0);
    assert_eq!(copy.get_highest_bet(), 40);
}

#[test]
fn refusals_give_their_reason() {
    let mut betting = Betting::default();
    let mut p = Player::default();
    p.chip_stack = 100;
    assert_eq!(
        betting.validate_action(Action::Bet { value: 101 }, &p),
        Err(String::from("Bet exceeds current chips."))
    );
    betting.set_highest_bet(50);
    assert_eq!(
        betting.validate_action(Action::Raise { value: 50 }, &p),
        Err(String::from("Invalid Raise"))
    );
    p.current_bet = 10;
    assert_eq!(
        betting.validate_action(Action::Check, &p),
        Err(String::from("You don't have enough chips bet to check."))
    );
}

#[test]
fn defaults_and_getters() {
    let b = Betting::default();
    assert_eq!(b.get_small_blind(), 10);
    assert_eq!(b.get_big_blind(), 20);
    assert_eq!(b.get_ante(), 5);
    assert_eq!(b.get_highest_bet(), 0);
    let c = Betting::from((1, 2, 3));
    assert_eq!((c.get_small_blind(), c.get_big_blind(), c.get_ante()), (1, 2, 3));
}

#[test]
fn validation_only_ever_turns_into_all_in() {
    let mut betting = Betting::default();
    betting.set_highest_bet(100);
    let mut p = Player::default();
    p.chip_stack = 150;
    p.current_bet = 40;
    let actions = [
        Action::Call,
        Action::Check,
        Action::Bet { value: 10 },
        Action::Bet { value: 150 },
        Action::Raise { value: 120 },
        Action::Raise { value: 500 },
        Action::Fold,
        Action::AllIn,
    ];
    for a in actions {
        if let Ok(r) = betting.validate_action(a, &p) {
            assert!(r == a || r == Action::AllIn);
        }
    }
}

#[test]
fn menu_choices() {
    assert_eq!(action_for_choice(0, 7), Some(Action::Fold));
    assert_eq!(action_for_choice(1, 7), Some(Action::Check));
    assert_eq!(action_for_choice(2, 7), Some(Action::Call));
    assert_eq!(action_for_choice(3, 7), Some(Action::Bet { value: 7 }));
    assert_eq!(action_for_choice(4, 9), Some(Action::Raise { value: 9 }));
    assert_eq!(action_for_choice(5, 7), Some(Action::AllIn));
    assert_eq!(action_for_choice(6, 7), None);
    assert!(choice_needs_amount(3));
    assert!(choice_needs_amount(4));
    assert!(!choice_needs_amount(2));
}
