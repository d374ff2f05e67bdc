//! Sessions and the registry operations on them.

use vstd::prelude::*;
use crate::error::BookingError;
use crate::model::{lemma_adjust, lemma_session_at, precedes, SessionView};
use crate::store::Store;

verus! {

/// A scheduled event with a finite number of seats.
#[derive(Clone, Debug, PartialEq, Eq)]
pub struct Session {
    /// Primary key.
    pub id: i32,
    /// What the session is about.
    pub title: String,
    /// Start of the session, in seconds since the epoch.
    pub start_time: i64,
    /// Seats that are still free.
    pub remaining: i32,
}

impl View for Session {
    type V = SessionView;

    open spec fn view(&self) -> SessionView {
        SessionView {
            id: self.id as int,
            title: self.title@,
            start_time: self.start_time as int,
            remaining: self.remaining as int,
        }
    }
}

/// The rows of a list of sessions.
pub open spec fn session_views(rows: Seq<Session>) -> Seq<SessionView> {
    rows.map_values(|s: Session| s@)
}

/// A range of start times, closed below and open above.
#[derive(Clone, Copy, Debug)]
pub struct SessionWindow {
    /// The first start time inside the window.
    pub start: i64,
    /// The first start time after the window.
    pub end: i64,
}

impl SessionWindow {
    /// Whether a start time lies in the window.
    pub open spec fn holds(self, start_time: int) -> bool {
        self.start <= start_time < self.end
    }

    /// Whether a start time lies in the window.
    pub fn contains(&self, start_time: i64) -> (inside: bool)
        ensures
            inside == self.holds(start_time as int),
    {
        self.start <= start_time && start_time < self.end
    }
}

impl Session {
    /// A copy of this row.
    pub fn duplicate(&self) -> (copy: Session)
        ensures
            copy == *self,
    {
        Session {
            id: self.id,
            title: self.title.clone(),
            start_time: self.start_time,
            remaining: self.remaining,
        }
    }

    /// All sessions, earliest start first and, among equal starts, lowest id first.
    pub fn get_results(store: &Store) -> (rows: Vec<Session>)
        requires
            store@.wf(),
        ensures
            session_views(rows@) == store@.sessions,
            forall|i: int, j: int|
                0 <= i < j < rows.len() ==> precedes(#[trigger] rows[i]@, #[trigger] rows[j]@),
    {
        let mut rows: Vec<Session> = Vec::new();
        let mut i: usize = 0;
        while i < store.sessions.len()
            invariant
                i <= store.sessions.len(),
                session_views(rows@) == store@.sessions.take(i as int),
            decreases store.sessions.len() - i,
        {
            let row = store.session_at(i);
            let ghost before = rows@;
            rows.push(row);
            assert(session_views(rows@) =~= session_views(before).push(row@));
            assert(store@.sessions.take(i as int).push(store@.sessions[i as int])
                =~= store@.sessions.take(i + 1));
            i += 1;
        }
        assert(store@.sessions.take(i as int) =~= store@.sessions);
        assert forall|a: int, b: int| 0 <= a < b < rows.len() implies precedes(
            #[trigger] rows[a]@,
            #[trigger] rows[b]@,
        ) by {
            assert(session_views(rows@)[a] == rows[a]@);
            assert(session_views(rows@)[b] == rows[b]@);
            assert(precedes(store@.sessions[a], store@.sessions[b]));
        }
        rows
    }

    /// The session with this id, or `NotFound`.
    pub fn find(id: i32, store: &Store) -> (found: Result<Session, BookingError>)
        requires
            store@.wf(),
        ensures
            match found {
                Ok(row) => store@.has_session(id as int) && row@ == store@.session(id as int),
                Err(e) => e == BookingError::NotFound && !store@.has_session(id as int),
            },
    {
        match store.session_position(id) {
            Some(p) => {
                proof {
                    lemma_session_at(store@, p as int);
                }
                Ok(store.session_at(p))
            },
            None => Err(BookingError::NotFound),
        }
    }

    /// Takes one free seat from the session: `NotFound` where there is no
    /// such session, `CapacityExhausted` where no seat is free, and then
    /// nothing changes. This is the counter alone: the session's capacity
    /// goes down by one unless a seat is written with it.
    pub fn decrement_remaining(id: i32, store: &mut Store) -> (done: Result<usize, BookingError>)
        requires
            old(store)@.wf(),
        ensures
            final(store)@.wf(),
            match done {
                Ok(n) => {
                    &&& n == 1
                    &&& old(store)@.has_session(id as int)
                    &&& old(store)@.session(id as int).remaining > 0
                    &&& final(store)@ == old(store)@.with_remaining(id as int, -1)
                },
                Err(e) => {
                    &&& final(store)@ == old(store)@
                    &&& if old(store)@.has_session(id as int) {
                        e == BookingError::CapacityExhausted && old(store)@.session(
                            id as int,
                        ).remaining == 0
                    } else {
                        e == BookingError::NotFound
                    }
                },
            },
    {
        let p: usize = match store.session_position(id) {
            Some(p) => p,
            None => {
                return Err(BookingError::NotFound);
            },
        };
        proof {
            lemma_session_at(store@, p as int);
        }
        let remaining: i32 = store.remaining_at(p);
        if remaining <= 0 {
            return Err(BookingError::CapacityExhausted);
        }
        proof {
            lemma_adjust(store@, id as int, -1);
        }
        store.set_remaining(p, remaining - 1);
        Ok(1)
    }

    /// Gives one free seat back to the session, or reports `NotFound`. This
    /// is the counter alone: the session's capacity goes up by one unless a
    /// seat is removed with it, so the capacity must leave room for that.
    pub fn increment_remaining(id: i32, store: &mut Store) -> (done: Result<usize, BookingError>)
        requires
            old(store)@.wf(),
            old(store)@.has_session(id as int) ==> old(store)@.capacity(id as int) < i32::MAX,
        ensures
            final(store)@.wf(),
            match done {
                Ok(n) => {
                    &&& n == 1
                    &&& old(store)@.has_session(id as int)
                    &&& final(store)@ == old(store)@.with_remaining(id as int, 1)
                },
                Err(e) => {
                    &&& final(store)@ == old(store)@
                    &&& e == BookingError::NotFound
                    &&& !old(store)@.has_session(id as int)
                },
            },
    {
        let p: usize = match store.session_position(id) {
            Some(p) => p,
            None => {
                return Err(BookingError::NotFound);
            },
        };
        proof {
            lemma_session_at(store@, p as int);
            lemma_adjust(store@, id as int, 1);
        }
        let remaining: i32 = store.remaining_at(p);
        store.set_remaining(p, remaining + 1);
        Ok(1)
    }
}

} // verus!
