//! The tables themselves, and the row-level steps that every operation is
//! built from.

use vstd::prelude::*;
use crate::error::BookingError;
use crate::model::{
    count_for, lemma_count_bounds, lemma_count_push, lemma_enqueue, lemma_session_at, precedes,
    SessionView, StoreView,
};
use crate::registration::Registration;
use crate::request::Request;
use crate::session::Session;

verus! {

/// The booking tables, held in memory. A store is only ever built through
/// [`Store::new`] and the operations of this crate, which keep it well
/// formed.
pub struct Store {
    pub(crate) sessions: Vec<Session>,
    pub(crate) requests: Vec<Request>,
    pub(crate) registrations: Vec<Registration>,
}

impl View for Store {
    type V = StoreView;

    open(crate) spec fn view(&self) -> StoreView {
        StoreView {
            sessions: self.sessions@.map_values(|s: Session| s@),
            requests: self.requests@.map_values(|r: Request| r@),
            registrations: self.registrations@.map_values(|r: Registration| r@),
        }
    }
}

impl Store {
    /// A store with no rows.
    pub fn new() -> (store: Store)
        ensures
            store@ == StoreView::empty(),
            store@.wf(),
    {
        let store = Store { sessions: Vec::new(), requests: Vec::new(), registrations: Vec::new() };
        assert(store@.sessions =~= Seq::empty());
        assert(store@.requests =~= Seq::empty());
        assert(store@.registrations =~= Seq::empty());
        store
    }

    /// Where the session with this id stands, if it is there.
    pub(crate) fn session_position(&self, id: i32) -> (found: Option<usize>)
        ensures
            match found {
                Some(i) => i < self@.sessions.len() && self@.sessions[i as int].id == id,
                None => !self@.has_session(id as int),
            },
    {
        let mut i: usize = 0;
        while i < self.sessions.len()
            invariant
                i <= self.sessions.len(),
                forall|j: int| 0 <= j < i ==> (#[trigger] self@.sessions[j]).id != id,
            decreases self.sessions.len() - i,
        {
            if self.sessions[i].id == id {
                return Some(i);
            }
            i += 1;
        }
        None
    }

    /// A copy of the session at `i`.
    pub(crate) fn session_at(&self, i: usize) -> (row: Session)
        requires
            i < self@.sessions.len(),
        ensures
            row@ == self@.sessions[i as int],
    {
        self.sessions[i].duplicate()
    }

    /// The free seats of the session at `i`.
    pub(crate) fn remaining_at(&self, i: usize) -> (remaining: i32)
        requires
            i < self@.sessions.len(),
        ensures
            remaining == self@.sessions[i as int].remaining,
    {
        self.sessions[i].remaining
    }

    /// Moves the free-seat counter of the session at `i` to `remaining`.
    pub(crate) fn set_remaining(&mut self, i: usize, remaining: i32)
        requires
            i < old(self)@.sessions.len(),
        ensures
            final(self)@ == (StoreView {
                sessions: old(self)@.sessions.update(
                    i as int,
                    SessionView { remaining: remaining as int, ..old(self)@.sessions[i as int] },
                ),
                ..old(self)@
            }),
    {
        self.sessions[i].remaining = remaining;
        assert(self@.sessions =~= old(self)@.sessions.update(
            i as int,
            SessionView { remaining: remaining as int, ..old(self)@.sessions[i as int] },
        ));
    }

    /// Where the pending request with this token stands, if it is there.
    pub(crate) fn request_position(&self, token: i32) -> (found: Option<usize>)
        ensures
            match found {
                Some(i) => i < self@.requests.len() && self@.requests[i as int].token == token,
                None => !self@.has_token(token as int),
            },
    {
        let mut i: usize = 0;
        while i < self.requests.len()
            invariant
                i <= self.requests.len(),
                forall|j: int| 0 <= j < i ==> (#[trigger] self@.requests[j]).token != token,
            decreases self.requests.len() - i,
        {
            if self.requests[i].token == token {
                return Some(i);
            }
            i += 1;
        }
        None
    }

    /// A copy of the pending request at `i`.
    pub(crate) fn request_at(&self, i: usize) -> (row: Request)
        requires
            i < self@.requests.len(),
        ensures
            row@ == self@.requests[i as int],
    {
        self.requests[i].duplicate()
    }

    /// Appends a pending request.
    pub(crate) fn push_request(&mut self, request: Request)
        ensures
            final(self)@ == old(self)@.enqueue(request@),
    {
        self.requests.push(request);
        assert(self@.requests =~= old(self)@.requests.push(request@));
    }

    /// Takes the pending request at `i` out.
    pub(crate) fn remove_request(&mut self, i: usize) -> (row: Request)
        requires
            i < old(self)@.requests.len(),
        ensures
            row@ == old(self)@.requests[i as int],
            final(self)@ == (StoreView {
                requests: old(self)@.requests.remove(i as int),
                ..old(self)@
            }),
    {
        let row = self.requests.remove(i);
        assert(self@.requests =~= old(self)@.requests.remove(i as int));
        row
    }

    /// Where the user's seat for the session stands, if there is one.
    pub(crate) fn seat_position(&self, session_id: i32, user_id: i32) -> (found: Option<usize>)
        ensures
            match found {
                Some(i) => self@.is_seat(i as int, session_id as int, user_id as int),
                None => !self@.has_registration(session_id as int, user_id as int),
            },
    {
        let mut i: usize = 0;
        while i < self.registrations.len()
            invariant
                i <= self.registrations.len(),
                forall|j: int|
                    0 <= j < i ==> !(#[trigger] self@.is_seat(j, session_id as int, user_id as int)),
            decreases self.registrations.len() - i,
        {
            if self.registrations[i].session_id == session_id && self.registrations[i].user_id
                == user_id {
                return Some(i);
            }
            i += 1;
        }
        None
    }

    /// Appends a seat.
    pub(crate) fn push_seat(&mut self, seat: Registration)
        ensures
            final(self)@ == (StoreView {
                registrations: old(self)@.registrations.push(seat@),
                ..old(self)@
            }),
    {
        self.registrations.push(seat);
        assert(self@.registrations =~= old(self)@.registrations.push(seat@));
    }

    /// Takes the seat at `i` out.
    pub(crate) fn remove_seat(&mut self, i: usize) -> (row: Registration)
        requires
            i < old(self)@.registrations.len(),
        ensures
            row@ == old(self)@.registrations[i as int],
            final(self)@ == (StoreView {
                registrations: old(self)@.registrations.remove(i as int),
                ..old(self)@
            }),
    {
        let row = self.registrations.remove(i);
        assert(self@.registrations =~= old(self)@.registrations.remove(i as int));
        row
    }

    /// Whether the user is verified: whether any seat of theirs is on the ledger.
    pub fn is_verified(&self, user_id: i32) -> (verified: bool)
        ensures
            verified == self@.is_verified(user_id as int),
    {
        let mut i: usize = 0;
        while i < self.registrations.len()
            invariant
                i <= self.registrations.len(),
                forall|j: int| 0 <= j < i ==> (#[trigger] self@.registrations[j]).user_id != user_id,
            decreases self.registrations.len() - i,
        {
            if self.registrations[i].user_id == user_id {
                assert(self@.registrations[i as int].user_id == user_id);
                return true;
            }
            i += 1;
        }
        false
    }

    /// Adds a session, as an administrator does, at its place in listing
    /// order. An id that is taken is refused as `Duplicate`, a negative
    /// number of free seats as `StoreError`; a refusal changes nothing.
    /// The place is the one that keeps the sessions in listing order.
    pub fn add_session(&mut self, session: Session) -> (added: Result<usize, BookingError>)
        requires
            old(self)@.wf(),
        ensures
            final(self)@.wf(),
            match added {
                Ok(n) => {
                    &&& n == 1
                    &&& !old(self)@.has_session(session.id as int)
                    &&& session.remaining >= 0
                    &&& exists|p: int|
                        0 <= p <= old(self)@.sessions.len() && final(self)@ == (StoreView {
                            sessions: #[trigger] old(self)@.sessions.insert(p, session@),
                            ..old(self)@
                        })
                },
                Err(e) => {
                    &&& final(self)@ == old(self)@
                    &&& e == (if old(self)@.has_session(session.id as int) {
                        BookingError::Duplicate
                    } else {
                        BookingError::StoreError
                    })
                    &&& old(self)@.has_session(session.id as int) || session.remaining < 0
                },
            },
    {
        if self.session_position(session.id).is_some() {
            return Err(BookingError::Duplicate);
        }
        if session.remaining < 0 {
            return Err(BookingError::StoreError);
        }
        let mut p: usize = 0;
        while p < self.sessions.len() && (self.sessions[p].start_time < session.start_time || (
        self.sessions[p].start_time == session.start_time && self.sessions[p].id < session.id))
            invariant
                p <= self.sessions.len(),
                forall|j: int| 0 <= j < p ==> precedes(#[trigger] self@.sessions[j], session@),
            decreases self.sessions.len() - p,
        {
            p += 1;
        }
        let ghost before = self@;
        let ghost row = session@;
        self.sessions.insert(p, session);
        proof {
            let after = self@;
            assert(after.sessions =~= before.sessions.insert(p as int, row));
            assert(after.requests == before.requests);
            assert(after.registrations == before.registrations);
            assert forall|j: int| p <= j < before.sessions.len() implies precedes(
                row,
                #[trigger] before.sessions[j],
            ) by {
                assert(before.sessions[j].id != row.id);
                if j > p {
                    assert(precedes(before.sessions[p as int], before.sessions[j]));
                }
            }
            assert forall|i: int, j: int| 0 <= i < j < after.sessions.len() implies precedes(
                #[trigger] after.sessions[i],
                #[trigger] after.sessions[j],
            ) by {
                let a = if i < p { i } else { i - 1 };
                let b = if j < p { j } else { j - 1 };
                if i != p && j != p {
                    assert(precedes(before.sessions[a], before.sessions[b]));
                } else if i == p {
                    assert(precedes(row, before.sessions[b]));
                } else {
                    assert(precedes(before.sessions[a], row));
                }
            }
            assert forall|i: int, j: int| 0 <= i < j < after.sessions.len() implies (
            #[trigger] after.sessions[i]).id != (#[trigger] after.sessions[j]).id by {
                let a = if i < p { i } else { i - 1 };
                let b = if j < p { j } else { j - 1 };
                if i != p && j != p {
                    assert(before.sessions[a].id != before.sessions[b].id);
                } else if i == p {
                    assert(before.sessions[b].id != row.id);
                } else {
                    assert(before.sessions[a].id != row.id);
                }
            }
            assert forall|i: int| 0 <= i < after.sessions.len() implies 0 <= (
            #[trigger] after.sessions[i]).remaining && after.sessions[i].remaining + count_for(
                after.registrations,
                after.sessions[i].id,
            ) <= i32::MAX by {
                if i == p {
                    lemma_count_bounds(before.registrations, row.id);
                    if count_for(before.registrations, row.id) > 0 {
                        let k = choose|k: int|
                            0 <= k < before.registrations.len() && (
                            #[trigger] before.registrations[k]).session_id == row.id;
                        assert(before.has_session(before.registrations[k].session_id));
                    }
                } else {
                    let a = if i < p { i } else { i - 1 };
                    assert(0 <= before.sessions[a].remaining);
                }
            }
            assert forall|i: int| 0 <= i < after.registrations.len() implies after.has_session(
                (#[trigger] after.registrations[i]).session_id,
            ) by {
                let x = before.registrations[i].session_id;
                assert(before.has_session(x));
                let k = before.session_index(x);
                let k2 = if k < p { k } else { k + 1 };
                assert(after.sessions[k2].id == x);
            }
        }
        Ok(1)
    }

    /// Writes a pending request into its table, as it is: a token that is
    /// in use is refused as `Duplicate`, and nothing else is asked. No
    /// capacity is looked at or changed here.
    pub fn insert_request(&mut self, request: Request) -> (written: Result<usize, BookingError>)
        requires
            old(self)@.wf(),
        ensures
            final(self)@.wf(),
            match written {
                Ok(n) => {
                    &&& n == 1
                    &&& !old(self)@.has_token(request.token as int)
                    &&& final(self)@ == old(self)@.enqueue(request@)
                },
                Err(e) => {
                    &&& e == BookingError::Duplicate
                    &&& old(self)@.has_token(request.token as int)
                    &&& final(self)@ == old(self)@
                },
            },
    {
        if self.request_position(request.token).is_some() {
            return Err(BookingError::Duplicate);
        }
        proof {
            lemma_enqueue(self@, request@);
        }
        self.push_request(request);
        Ok(1)
    }

    /// Writes a seat into the ledger, as it is, without touching the
    /// counter of free seats: the session's capacity grows by the seat. A
    /// session that is absent is refused as `NotFound`, a seat that the
    /// user holds already as `Duplicate`, and a seat that would take the
    /// session's capacity beyond what an `i32` holds as `StoreError`.
    pub fn insert_registration(&mut self, seat: Registration) -> (written: Result<
        usize,
        BookingError,
    >)
        requires
            old(self)@.wf(),
        ensures
            final(self)@.wf(),
            match written {
                Ok(n) => {
                    &&& n == 1
                    &&& old(self)@.ledger_refusal(seat@) is None
                    &&& final(self)@ == (StoreView {
                        registrations: old(self)@.registrations.push(seat@),
                        ..old(self)@
                    })
                },
                Err(e) => {
                    &&& old(self)@.ledger_refusal(seat@) == Some(e)
                    &&& final(self)@ == old(self)@
                },
            },
    {
        let p: usize = match self.session_position(seat.session_id) {
            Some(p) => p,
            None => {
                return Err(BookingError::NotFound);
            },
        };
        proof {
            lemma_session_at(self@, p as int);
        }
        if self.seat_position(seat.session_id, seat.user_id).is_some() {
            return Err(BookingError::Duplicate);
        }
        let taken: i64 = self.seats_taken(seat.session_id);
        let free: i64 = self.remaining_at(p) as i64;
        if free + taken >= i32::MAX as i64 {
            return Err(BookingError::StoreError);
        }
        let ghost before = self@;
        let ghost row = seat@;
        self.push_seat(seat);
        proof {
            let after = self@;
            assert forall|i: int| 0 <= i < after.sessions.len() implies 0 <= (
            #[trigger] after.sessions[i]).remaining && after.sessions[i].remaining + count_for(
                after.registrations,
                after.sessions[i].id,
            ) <= i32::MAX by {
                lemma_count_push(before.registrations, row, before.sessions[i].id);
                lemma_session_at(before, i);
                assert(0 <= before.sessions[i].remaining);
            }
            assert forall|i: int, j: int| 0 <= i < j < after.registrations.len() implies !((
            #[trigger] after.registrations[i]).session_id == (
            #[trigger] after.registrations[j]).session_id && after.registrations[i].user_id
                == after.registrations[j].user_id) by {
                if j == before.registrations.len() {
                    if before.registrations[i].session_id == row.session_id
                        && before.registrations[i].user_id == row.user_id {
                        assert(before.is_seat(i, row.session_id, row.user_id));
                    }
                } else {
                    assert(!(before.registrations[i].session_id == before.registrations[j].session_id
                        && before.registrations[i].user_id == before.registrations[j].user_id));
                }
            }
            assert forall|i: int| 0 <= i < after.registrations.len() implies after.has_session(
                (#[trigger] after.registrations[i]).session_id,
            ) by {
                let x = after.registrations[i].session_id;
                if i < before.registrations.len() {
                    assert(before.has_session(before.registrations[i].session_id));
                }
                assert(before.has_session(x));
                assert(after.sessions[before.session_index(x)].id == x);
            }
        }
        Ok(1)
    }

    /// The number of seats taken at a session.
    pub(crate) fn seats_taken(&self, session_id: i32) -> (seats: i64)
        requires
            self@.wf(),
        ensures
            seats == self@.count_registrations(session_id as int),
            0 <= seats <= i32::MAX,
    {
        let mut seats: i64 = 0;
        let mut i: usize = 0;
        proof {
            crate::model::lemma_count_limit(self@, session_id as int);
        }
        while i < self.registrations.len()
            invariant
                i <= self.registrations.len(),
                seats == count_for(self@.registrations.take(i as int), session_id as int),
                self@.count_registrations(session_id as int) <= i32::MAX,
            decreases self.registrations.len() - i,
        {
            proof {
                crate::model::lemma_count_prefix(self@.registrations, i + 1, session_id as int);
                lemma_count_push(
                    self@.registrations.take(i as int),
                    self@.registrations[i as int],
                    session_id as int,
                );
                assert(self@.registrations.take(i as int).push(self@.registrations[i as int])
                    =~= self@.registrations.take(i + 1));
            }
            if self.registrations[i].session_id == session_id {
                seats += 1;
            }
            i += 1;
        }
        assert(self@.registrations.take(i as int) =~= self@.registrations);
        seats
    }
}

} // verus!
