//! The failures that a booking operation reports.

use vstd::prelude::*;

verus! {

/// Why a booking operation did not take effect.
#[derive(Clone, Copy, Debug, PartialEq, Eq, Structural)]
pub enum BookingError {
    /// The session or the token that the caller named is absent.
    NotFound,
    /// The session had no free seat at the moment of the check.
    CapacityExhausted,
    /// The row is already there: the user holds a seat for the session, or
    /// the key of the new row is taken.
    Duplicate,
    /// Any other failure of the persistence layer, handed on as it came.
    StoreError,
}

impl BookingError {
    /// The reason as the user reads it.
    pub open spec fn reason_text(self) -> Seq<char> {
        match self {
            BookingError::NotFound => "The session or confirmation link could not be found."@,
            BookingError::CapacityExhausted => "The session has no places left."@,
            BookingError::Duplicate => "You have already booked this session."@,
            BookingError::StoreError => "The booking could not be saved, please try again."@,
        }
    }

    /// The reason as the user reads it.
    pub fn reason(&self) -> (text: String)
        ensures
            text@ == self.reason_text(),
    {
        match self {
            BookingError::NotFound => "The session or confirmation link could not be found.".to_owned(),
            BookingError::CapacityExhausted => "The session has no places left.".to_owned(),
            BookingError::Duplicate => "You have already booked this session.".to_owned(),
            BookingError::StoreError => "The booking could not be saved, please try again.".to_owned(),
        }
    }
}

} // verus!
