//! A husband searching a labyrinth of a hundred rooms for his wife,
//! following the chain of wives' IDs he has seen (the strategy of the
//! hundred prisoners problem).

use vstd::prelude::*;

verus! {

/// Number of rooms in the labyrinth.
pub const ROOMS: usize = 100;

/// Number of rooms a husband may visit.
pub const VISITS: usize = 50;

/// A husband and what he remembers: the ID of the wife he seeks, and which
/// wife he found in each room.
#[derive(Debug)]
pub struct Husband {
    brain: Vec<usize>,
}

impl Husband {
    /// What he remembers, one entry per room; the first entry starts out as
    /// the ID of the wife he seeks.
    pub closed spec fn memory(&self) -> Seq<usize> {
        self.brain@
    }

    /// A husband looking for the wife with ID `my_wife`.
    pub fn seeking(my_wife: usize) -> (r: Self)
        ensures
            r.memory().len() == ROOMS,
            r.memory()[0] == my_wife,
            forall|i: int| 1 <= i < ROOMS ==> r.memory()[i] == 0,
    {
        let mut brain: Vec<usize> = Vec::new();
        brain.push(my_wife);
        while brain.len() < ROOMS
            invariant
                1 <= brain@.len() <= ROOMS,
                brain@[0] == my_wife,
                forall|i: int| 1 <= i < brain@.len() ==> brain@[i] == 0,
            decreases ROOMS - brain.len(),
        {
            brain.push(0);
        }
        Husband { brain }
    }

    /// A fresh strategy: it visits at most [`VISITS`] rooms.
    pub fn has_devised_a_strategy(&self) -> (r: Strategy)
        ensures
            r.last_room() is None,
            r.remaining() == VISITS,
    {
        Strategy { last_room: None, remaining: VISITS }
    }

    /// Remembers that the wife with ID `wife` is in room `room` (counted
    /// modulo [`ROOMS`]).
    pub fn carefully_checks_whos_inside(&mut self, room: usize, wife: usize)
        requires
            old(self).memory().len() == ROOMS,
        ensures
            final(self).memory() == old(self).memory().update((room % ROOMS) as int, wife),
    {
        let idx = room % ROOMS;
        self.brain.set(idx, wife);
    }
}

/// Where a husband goes next, and how many visits he has left.
#[derive(Debug)]
pub struct Strategy {
    last_room: Option<usize>,
    remaining: usize,
}

impl Strategy {
    pub closed spec fn last_room(&self) -> Option<usize> {
        self.last_room
    }

    pub closed spec fn remaining(&self) -> nat {
        self.remaining as nat
    }

    /// The next room to visit, or `None` once the visits are used up: first
    /// the room named by the wife's ID, then the room named by the ID found
    /// in the last room visited (both modulo [`ROOMS`]).
    pub fn next_room(&mut self, husband: &Husband) -> (r: Option<usize>)
        requires
            husband.memory().len() == ROOMS,
        ensures
            old(self).remaining() == 0 ==> r is None && *final(self) == *old(self),
            old(self).remaining() > 0 ==> {
                let room = match old(self).last_room() {
                    None => husband.memory()[0] % ROOMS,
                    Some(prev) => husband.memory()[(prev % ROOMS) as int] % ROOMS,
                };
                &&& r == Some(room)
                &&& final(self).last_room() == Some(room)
                &&& final(self).remaining() == old(self).remaining() - 1
            },
    {
        if self.remaining == 0 {
            return None;
        }
        let room = match self.last_room {
            None => husband.brain[0] % ROOMS,
            Some(prev) => husband.brain[prev % ROOMS] % ROOMS,
        };
        self.last_room = Some(room);
        self.remaining = self.remaining - 1;
        Some(room)
    }
}

} // verus!
