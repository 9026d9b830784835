# poker

A Texas hold'em table for players sharing one terminal, with its rules verified by Verus.

- `src/` is the library, verified:
  - `entities/`: cards, suits and values; the deck (a fresh deck is laid out suit by suit,
    cards are dealt from its end); hands and their ranking (`Hand::determine_hand`); players
    and the pot.
  - `game/betting.rs`: the actions and the betting rules (`Betting::validate_action`).
  - `game.rs`: the table (`Game`): the betting order from the dealer, turns, blinds and
    antes, dealing and the community cards, performing actions, the showdown.
  - `game/showdown.rs`: who wins a hand and what each player collects, with split pots
    (each level of the pot shared by the winners whose bet reaches it; nobody collects more
    than its bet from each player).
  - `game/payout.rs`: the computation of the showdown payouts.
  - `game/round.rs`: the course of a hand (forced bets and cards, streets, turns, the
    showdown) and what holds over a whole hand.
- `app/` is the terminal program: it reads choices, prints the table and runs the hands.
- `tests/` exercises the library on concrete tables.
