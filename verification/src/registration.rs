//! Confirmed registrations: the ledger of seats.

use vstd::prelude::*;
use crate::error::BookingError;
use crate::forms::RegisterForm;
use crate::model::{
    in_listing_order, lemma_book, lemma_bookings_ordered,
    lemma_listing_ordered, lemma_release, lemma_seat_at, lemma_session_at, precedes, seats_upto,
    step, ListingRow, Operation, RegistrationView, StoreView,
};
use crate::session::{session_views, Session, SessionWindow};
use crate::store::Store;
use crate::request::Request;

verus! {

/// A confirmed seat of one user at one session.
#[derive(Clone, Debug, PartialEq, Eq)]
pub struct Registration {
    /// The session that the seat belongs to.
    pub session_id: i32,
    /// Who holds it.
    pub user_id: i32,
    /// The user's name.
    pub name: String,
}

/// The rows of a list of seats.
pub open spec fn registration_views(rows: Seq<Registration>) -> Seq<RegistrationView> {
    rows.map_values(|r: Registration| r@)
}

impl View for Registration {
    type V = RegistrationView;

    open spec fn view(&self) -> RegistrationView {
        RegistrationView {
            session_id: self.session_id as int,
            user_id: self.user_id as int,
            name: self.name@,
        }
    }
}

/// The line of the registration list that a tuple stands for: session id,
/// start time, session title, user name.
pub open spec fn listing_row(line: (i32, i64, String, String)) -> ListingRow {
    ListingRow {
        session_id: line.0 as int,
        start_time: line.1 as int,
        title: line.2@,
        name: line.3@,
    }
}

/// The lines that a list of tuples stands for.
pub open spec fn listing_rows(lines: Seq<(i32, i64, String, String)>) -> Seq<ListingRow> {
    lines.map_values(|line: (i32, i64, String, String)| listing_row(line))
}

impl Registration {
    /// A copy of this row.
    pub fn duplicate(&self) -> (copy: Registration)
        ensures
            copy == *self,
    {
        Registration {
            session_id: self.session_id,
            user_id: self.user_id,
            name: self.name.clone(),
        }
    }

    /// The seat that a redeemed request turns into.
    pub fn create(data: Request) -> (seat: Registration)
        ensures
            seat@ == StoreView::promoted(data@),
    {
        Registration { session_id: data.session_id, user_id: data.user_id, name: data.name }
    }

    /// Books the seat directly, for a user who needs no verification.
    ///
    /// In one step the seat is written and one free seat is taken, or
    /// nothing happens: `NotFound` where the session is absent, `Duplicate`
    /// where the user holds a seat for it already, `CapacityExhausted`
    /// where no seat is free. The capacity of every session stays as it was.
    pub fn insert(&self, store: &mut Store) -> (booked: Result<usize, BookingError>)
        requires
            old(store)@.wf(),
        ensures
            final(store)@.wf(),
            final(store)@.requests == old(store)@.requests,
            final(store)@ == step(old(store)@, Operation::SubmitDirect { seat: self@ }),
            match booked {
                Ok(n) => {
                    &&& n == 1
                    &&& old(store)@.booking_refusal(self.session_id as int, self.user_id as int)
                        is None
                    &&& final(store)@ == old(store)@.book(self@)
                },
                Err(e) => {
                    &&& old(store)@.booking_refusal(self.session_id as int, self.user_id as int)
                        == Some(e)
                    &&& final(store)@ == old(store)@
                },
            },
            forall|x: int|
                old(store)@.has_session(x) ==> final(store)@.has_session(x) && final(store)@.capacity(x) == old(store)@.capacity(x),
    {
        let p: usize = match store.session_position(self.session_id) {
            Some(p) => p,
            None => {
                return Err(BookingError::NotFound);
            },
        };
        proof {
            lemma_session_at(store@, p as int);
        }
        if store.seat_position(self.session_id, self.user_id).is_some() {
            return Err(BookingError::Duplicate);
        }
        let remaining: i32 = store.remaining_at(p);
        if remaining <= 0 {
            return Err(BookingError::CapacityExhausted);
        }
        proof {
            lemma_book(store@, self@);
        }
        store.push_seat(self.duplicate());
        store.set_remaining(p, remaining - 1);
        Ok(1)
    }

    /// Cancels the user's seat for the session: the seat is removed and one
    /// free seat is given back, in one step. Where the user holds no such
    /// seat, `NotFound`, and nothing changes. The capacity of every session
    /// stays as it was.
    pub fn cancel(user_id: i32, session_id: i32, store: &mut Store) -> (cancelled: Result<
        usize,
        BookingError,
    >)
        requires
            old(store)@.wf(),
        ensures
            final(store)@.wf(),
            final(store)@.requests == old(store)@.requests,
            final(store)@ == step(
                old(store)@,
                Operation::Cancel { session_id: session_id as int, user_id: user_id as int },
            ),
            match cancelled {
                Ok(n) => {
                    &&& n == 1
                    &&& old(store)@.has_registration(session_id as int, user_id as int)
                    &&& final(store)@ == old(store)@.release(session_id as int, user_id as int)
                },
                Err(e) => {
                    &&& e == BookingError::NotFound
                    &&& !old(store)@.has_registration(session_id as int, user_id as int)
                    &&& final(store)@ == old(store)@
                },
            },
            forall|x: int|
                old(store)@.has_session(x) ==> final(store)@.has_session(x) && final(store)@.capacity(x) == old(store)@.capacity(x),
    {
        let q: usize = match store.seat_position(session_id, user_id) {
            Some(q) => q,
            None => {
                return Err(BookingError::NotFound);
            },
        };
        proof {
            lemma_seat_at(store@, q as int);
            lemma_release(store@, session_id as int, user_id as int);
        }
        let p: usize = match store.session_position(session_id) {
            Some(p) => p,
            None => {
                return Err(BookingError::NotFound);
            },
        };
        proof {
            lemma_session_at(store@, p as int);
        }
        let remaining: i32 = store.remaining_at(p);
        let _ = store.remove_seat(q);
        store.set_remaining(p, remaining + 1);
        Ok(1)
    }

    /// The registration list of the sessions that start in the window: one
    /// line per seat, as (session id, start time, session title, user
    /// name), ordered by start time and then by session id; the seats of
    /// one session come in the order in which they were booked.
    pub fn get_registration_list(store: &Store, window: SessionWindow) -> (lines: Vec<
        (i32, i64, String, String),
    >)
        requires
            store@.wf(),
        ensures
            listing_rows(lines@) == store@.listing(window.start as int, window.end as int),
            forall|a: int, b: int|
                0 <= a < b < lines.len() ==> in_listing_order(
                    #[trigger] listing_row(lines[a]),
                    #[trigger] listing_row(lines[b]),
                ),
    {
        let mut lines: Vec<(i32, i64, String, String)> = Vec::new();
        let mut i: usize = 0;
        assert(listing_rows(lines@) =~= Seq::empty());
        while i < store.sessions.len()
            invariant
                i <= store.sessions.len(),
                listing_rows(lines@) == store@.listing_upto(
                    i as int,
                    window.start as int,
                    window.end as int,
                ),
            decreases store.sessions.len() - i,
        {
            if window.contains(store.sessions[i].start_time) {
                let ghost done = listing_rows(lines@);
                let ghost session = store@.sessions[i as int];
                let mut j: usize = 0;
                assert(done + seats_upto(store@.registrations, 0, session) =~= done);
                while j < store.registrations.len()
                    invariant
                        i < store.sessions.len(),
                        j <= store.registrations.len(),
                        session == store@.sessions[i as int],
                        listing_rows(lines@) == done + seats_upto(
                            store@.registrations,
                            j as int,
                            session,
                        ),
                    decreases store.registrations.len() - j,
                {
                    if store.registrations[j].session_id == store.sessions[i].id {
                        let line: (i32, i64, String, String) = (
                            store.sessions[i].id,
                            store.sessions[i].start_time,
                            store.sessions[i].title.clone(),
                            store.registrations[j].name.clone(),
                        );
                        let ghost before = lines@;
                        lines.push(line);
                        assert(listing_rows(lines@) =~= listing_rows(before).push(
                            listing_row(line),
                        ));
                        assert(listing_rows(lines@) =~= done + seats_upto(
                            store@.registrations,
                            j + 1,
                            session,
                        ));
                    }
                    j += 1;
                }
            }
            i += 1;
        }
        proof {
            lemma_listing_ordered(
                store@,
                store@.sessions.len() as int,
                window.start as int,
                window.end as int,
            );
            let whole = store@.listing(window.start as int, window.end as int);
            assert forall|a: int, b: int| 0 <= a < b < lines.len() implies in_listing_order(
                #[trigger] listing_row(lines[a]),
                #[trigger] listing_row(lines[b]),
            ) by {
                assert(listing_rows(lines@)[a] == listing_row(lines[a]));
                assert(listing_rows(lines@)[b] == listing_row(lines[b]));
                assert(in_listing_order(whole[a], whole[b]));
            }
        }
        lines
    }

    /// The sessions in the window at which the user holds a seat, in
    /// listing order: earliest start first, ties broken by id.
    pub fn get_user_bookings(id: i32, window: SessionWindow, store: &Store) -> (rows: Vec<Session>)
        requires
            store@.wf(),
        ensures
            session_views(rows@) == store@.bookings_of(
                id as int,
                window.start as int,
                window.end as int,
            ),
            forall|a: int, b: int|
                0 <= a < b < rows.len() ==> precedes(#[trigger] rows[a]@, #[trigger] rows[b]@),
    {
        let mut rows: Vec<Session> = Vec::new();
        let mut i: usize = 0;
        assert(session_views(rows@) =~= Seq::empty());
        while i < store.sessions.len()
            invariant
                i <= store.sessions.len(),
                session_views(rows@) == store@.bookings_upto(
                    i as int,
                    id as int,
                    window.start as int,
                    window.end as int,
                ),
            decreases store.sessions.len() - i,
        {
            if window.contains(store.sessions[i].start_time) && store.seat_position(
                store.sessions[i].id,
                id,
            ).is_some() {
                let row: Session = store.session_at(i);
                let ghost before = rows@;
                rows.push(row);
                assert(session_views(rows@) =~= session_views(before).push(row@));
            }
            i += 1;
        }
        proof {
            lemma_bookings_ordered(
                store@,
                store@.sessions.len() as int,
                id as int,
                window.start as int,
                window.end as int,
            );
            let whole = store@.bookings_of(id as int, window.start as int, window.end as int);
            assert forall|a: int, b: int| 0 <= a < b < rows.len() implies precedes(
                #[trigger] rows[a]@,
                #[trigger] rows[b]@,
            ) by {
                assert(session_views(rows@)[a] == rows[a]@);
                assert(session_views(rows@)[b] == rows[b]@);
                assert(precedes(whole[a], whole[b]));
            }
        }
        rows
    }

    /// Every seat on the ledger, in the order in which they were booked.
    pub fn get_results(store: &Store) -> (rows: Vec<Registration>)
        ensures
            registration_views(rows@) == store@.registrations,
    {
        let mut rows: Vec<Registration> = Vec::new();
        let mut i: usize = 0;
        while i < store.registrations.len()
            invariant
                i <= store.registrations.len(),
                registration_views(rows@) == store@.registrations.take(i as int),
            decreases store.registrations.len() - i,
        {
            let row: Registration = store.registrations[i].duplicate();
            let ghost before = rows@;
            rows.push(row);
            assert(registration_views(rows@) =~= registration_views(before).push(row@));
            assert(store@.registrations.take(i as int).push(store@.registrations[i as int])
                =~= store@.registrations.take(i + 1));
            i += 1;
        }
        assert(store@.registrations.take(i as int) =~= store@.registrations);
        rows
    }

    /// The number of seats taken at a session.
    pub fn count(session_id: i32, store: &Store) -> (seats: i64)
        requires
            store@.wf(),
        ensures
            seats == store@.count_registrations(session_id as int),
    {
        store.seats_taken(session_id)
    }
}

impl From<RegisterForm> for Registration {
    /// The seat that the form becomes for a user who needs no verification.
    fn from(data: RegisterForm) -> (seat: Registration) {
        Registration { session_id: data.session_id, user_id: data.user_id, name: data.name }
    }
}

impl vstd::std_specs::convert::FromSpecImpl<RegisterForm> for Registration {
    open spec fn obeys_from_spec() -> bool {
        true
    }

    open spec fn from_spec(data: RegisterForm) -> Registration {
        Registration { session_id: data.session_id, user_id: data.user_id, name: data.name }
    }
}

} // verus!
