use poker::entities::pot::Pot;

#[test]
fn add_chips_test() {
    let mut pot_struct = Pot::default();
    let past_pot_val = pot_struct.get_chips();
    pot_struct.add_chips(1000);
    assert_eq!(pot_struct.get_chips() - past_pot_val, 1000);
}

#[test]
fn side_pots_are_kept_in_order_and_emptied() {
    let mut pot = Pot::default();
    pot.add_chips(300);
    pot.create_side_pot(100);
    pot.create_side_pot(50);
    assert_eq!(pot.get_side_pots(), vec![100, 50]);
    assert_eq!(pot.get_chips(), 300);
    pot.empty_pot();
    assert_eq!(pot.get_chips(), 0);
    assert_eq!(pot.get_side_pots(), Vec::<u32>::new());
}
