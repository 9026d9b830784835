use vstd::prelude::*;

verus! {

/// The chips in the middle of the table: the main pot and the side pots.
#[derive(Debug)]
pub struct Pot {
    chip_count: u32,
    side_pots: Vec<u32>,
}

impl Pot {
    /// Chips in the main pot.
    pub closed spec fn chips(self) -> nat {
        self.chip_count as nat
    }

    /// The side pots, in the order they were created.
    pub closed spec fn side_pot_list(self) -> Seq<u32> {
        self.side_pots@
    }

    /// An empty pot with no side pots.
    pub fn new() -> (p: Pot)
        ensures
            p.chips() == 0,
            p.side_pot_list() == Seq::<u32>::empty(),
    {
        Pot { chip_count: 0, side_pots: Vec::new() }
    }

    /// Puts chips into the main pot.
    pub fn add_chips(&mut self, arg_chips: u32)
        requires
            old(self).chips() + arg_chips <= u32::MAX,
        ensures
            final(self).chips() == old(self).chips() + arg_chips,
            final(self).side_pot_list() == old(self).side_pot_list(),
    {
        self.chip_count = self.chip_count + arg_chips;
    }

    /// Empties the main pot and removes every side pot.
    pub fn empty_pot(&mut self)
        ensures
            final(self).chips() == 0,
            final(self).side_pot_list() == Seq::<u32>::empty(),
    {
        self.side_pots = Vec::new();
        self.chip_count = 0;
    }

    /// Chips in the main pot.
    pub fn get_chips(&self) -> (c: u32)
        ensures
            c == self.chips(),
    {
        self.chip_count
    }

    /// Opens a side pot holding `value` chips.
    pub fn create_side_pot(&mut self, value: u32)
        ensures
            final(self).chips() == old(self).chips(),
            final(self).side_pot_list() == old(self).side_pot_list().push(value),
    {
        self.side_pots.push(value);
    }

    /// A copy of the side pots.
    pub fn get_side_pots(&self) -> (v: Vec<u32>)
        ensures
            v@ == self.side_pot_list(),
    {
        self.side_pots.clone()
    }
}

impl Clone for Pot {
    /// A pot holding the same chips and side pots.
    fn clone(&self) -> (p: Pot)
        ensures
            p.chips() == self.chips(),
            p.side_pot_list() == self.side_pot_list(),
    {
        Pot { chip_count: self.chip_count, side_pots: self.side_pots.clone() }
    }
}

impl Default for Pot {
    fn default() -> (p: Pot)
        ensures
            p.chips() == 0,
            p.side_pot_list() == Seq::<u32>::empty(),
    {
        Pot::new()
    }
}

} // verus!
