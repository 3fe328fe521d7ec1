//! The rule by which a project admits an applicant or turns it away.

use crate::setup::has_room;
use std::cmp::Ordering;
use vstd::prelude::*;

verus! {

/// What becomes of an applicant that asks a project for a seat.
#[derive(Debug, Clone, Copy, PartialEq, Eq, Structural)]
pub enum Admission {
    /// The project has room: the applicant takes a free seat.
    FreeSeat,
    /// The project is full and the applicant is strictly stronger than its
    /// weakest occupant: it takes that occupant's seat.
    SeatOfWeakest,
    /// The project is full and the applicant is not strictly stronger than
    /// its weakest occupant, or the project has no seat at all.
    TurnedAway,
}

/// The rule of admission. `taken` of the project's `seats` are occupied;
/// `answer` is what the comparator says of the applicant against the weakest
/// occupant, `None` where it was not asked. A tie never takes a seat.
pub open spec fn admission_of(taken: usize, seats: i32, answer: Option<Ordering>) -> Admission {
    if taken < seats {
        Admission::FreeSeat
    } else if answer == Some(Ordering::Greater) {
        Admission::SeatOfWeakest
    } else {
        Admission::TurnedAway
    }
}

/// Applies the rule of admission.
pub fn admission(taken: usize, seats: i32, answer: Option<Ordering>) -> (a: Admission)
    ensures
        a == admission_of(taken, seats, answer),
{
    if has_room(taken, seats) {
        Admission::FreeSeat
    } else {
        match answer {
            Some(Ordering::Greater) => Admission::SeatOfWeakest,
            _ => Admission::TurnedAway,
        }
    }
}

} // verus!
