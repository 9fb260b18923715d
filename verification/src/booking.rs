//! A small ticket-booking counter.
//!
//! A theater starts with a number of available tickets; a booking takes
//! one ticket while any are left and does nothing once they are gone.

use vstd::prelude::*;

verus! {

/// A theater with a count of tickets still available.
pub struct Theater {
    available_tickets: i32,
}

impl Theater {
    /// A theater holding `initial_tickets` tickets.
    pub fn new(initial_tickets: i32) -> (t: Theater)
        ensures
            t.available() == initial_tickets,
    {
        Theater { available_tickets: initial_tickets }
    }

    /// The tickets still available.
    pub closed spec fn available(self) -> int {
        self.available_tickets as int
    }

    /// Books one ticket when any is available; reports whether one was
    /// booked.
    pub fn book_ticket(&mut self) -> (booked: bool)
        ensures
            booked == (old(self).available() > 0),
            booked ==> final(self).available() == old(self).available() - 1,
            !booked ==> final(self).available() == old(self).available(),
    {
        if self.available_tickets > 0 {
            self.available_tickets = self.available_tickets - 1;
            true
        } else {
            false
        }
    }

    /// The number of tickets still available.
    pub fn get_available_tickets(&self) -> (n: i32)
        ensures
            n == self.available(),
    {
        self.available_tickets
    }
}

} // verus!
