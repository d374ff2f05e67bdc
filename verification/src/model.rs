//! The mathematical model of the booking tables.
//!
//! A store is three sequences of rows. Sessions are kept in listing order
//! (start time ascending, then id); requests and registrations are kept in
//! the order in which they were written.

use vstd::prelude::*;
use crate::error::BookingError;

verus! {

/// A session row: a scheduled event with a counter of free seats.
pub struct SessionView {
    pub id: int,
    pub title: Seq<char>,
    pub start_time: int,
    pub remaining: int,
}

/// A pending booking, waiting for its token to be redeemed.
pub struct RequestView {
    pub session_id: int,
    pub user_id: int,
    pub name: Seq<char>,
    pub email: Seq<char>,
    pub token: int,
}

/// A confirmed seat.
pub struct RegistrationView {
    pub session_id: int,
    pub user_id: int,
    pub name: Seq<char>,
}

/// The three booking tables.
pub struct StoreView {
    pub sessions: Seq<SessionView>,
    pub requests: Seq<RequestView>,
    pub registrations: Seq<RegistrationView>,
}

/// One line of the registration list: a seat joined with its session.
pub struct ListingRow {
    pub session_id: int,
    pub start_time: int,
    pub title: Seq<char>,
    pub name: Seq<char>,
}

/// Listing order of the registration list: by start time, then by session.
pub open spec fn in_listing_order(a: ListingRow, b: ListingRow) -> bool {
    a.start_time < b.start_time || (a.start_time == b.start_time && a.session_id <= b.session_id)
}

/// The seats of `session` among the first `n` rows of the ledger, in ledger order.
pub open spec fn seats_upto(rows: Seq<RegistrationView>, n: int, session: SessionView) -> Seq<
    ListingRow,
>
    decreases n,
{
    if n <= 0 {
        Seq::empty()
    } else {
        let rest = seats_upto(rows, n - 1, session);
        if rows[n - 1].session_id == session.id {
            rest.push(
                ListingRow {
                    session_id: session.id,
                    start_time: session.start_time,
                    title: session.title,
                    name: rows[n - 1].name,
                },
            )
        } else {
            rest
        }
    }
}

/// Listing order of sessions: earlier start first, ties broken by id.
pub open spec fn precedes(a: SessionView, b: SessionView) -> bool {
    a.start_time < b.start_time || (a.start_time == b.start_time && a.id < b.id)
}

/// How many of `rows` are seats of session `session_id`.
pub open spec fn count_for(rows: Seq<RegistrationView>, session_id: int) -> nat
    decreases rows.len(),
{
    if rows.len() == 0 {
        0
    } else {
        let rest: nat = count_for(rows.drop_last(), session_id);
        if rows.last().session_id == session_id {
            rest + 1
        } else {
            rest
        }
    }
}

impl StoreView {
    /// The store with no rows at all.
    pub open spec fn empty() -> StoreView {
        StoreView { sessions: Seq::empty(), requests: Seq::empty(), registrations: Seq::empty() }
    }

    /// Whether a session with this id is there.
    pub open spec fn has_session(self, id: int) -> bool {
        exists|i: int| 0 <= i < self.sessions.len() && (#[trigger] self.sessions[i]).id == id
    }

    /// Where the session with this id stands; meaningful when `has_session(id)`.
    pub open spec fn session_index(self, id: int) -> int {
        choose|i: int| 0 <= i < self.sessions.len() && (#[trigger] self.sessions[i]).id == id
    }

    /// The session with this id; meaningful when `has_session(id)`.
    pub open spec fn session(self, id: int) -> SessionView {
        self.sessions[self.session_index(id)]
    }

    /// Whether a pending request uses this token.
    pub open spec fn has_token(self, token: int) -> bool {
        exists|i: int| 0 <= i < self.requests.len() && (#[trigger] self.requests[i]).token == token
    }

    /// Where the request with this token stands; meaningful when `has_token(token)`.
    pub open spec fn request_index(self, token: int) -> int {
        choose|i: int| 0 <= i < self.requests.len() && (#[trigger] self.requests[i]).token == token
    }

    /// The pending request with this token; meaningful when `has_token(token)`.
    pub open spec fn request(self, token: int) -> RequestView {
        self.requests[self.request_index(token)]
    }

    /// Whether the `i`-th row of the ledger is the user's seat for the session.
    pub open spec fn is_seat(self, i: int, session_id: int, user_id: int) -> bool {
        &&& 0 <= i < self.registrations.len()
        &&& self.registrations[i].session_id == session_id
        &&& self.registrations[i].user_id == user_id
    }

    /// Whether the user holds a seat for the session.
    pub open spec fn has_registration(self, session_id: int, user_id: int) -> bool {
        exists|i: int| #[trigger] self.is_seat(i, session_id, user_id)
    }

    /// Where the user's seat for the session stands; meaningful when
    /// `has_registration(session_id, user_id)`.
    pub open spec fn registration_index(self, session_id: int, user_id: int) -> int {
        choose|i: int| #[trigger] self.is_seat(i, session_id, user_id)
    }

    /// A user counts as verified once any seat of theirs is on the ledger.
    pub open spec fn is_verified(self, user_id: int) -> bool {
        exists|i: int|
            0 <= i < self.registrations.len() && (#[trigger] self.registrations[i]).user_id
                == user_id
    }

    /// Confirmed seats of a session.
    pub open spec fn count_registrations(self, session_id: int) -> nat {
        count_for(self.registrations, session_id)
    }

    /// Total seats of a session: free ones plus taken ones.
    pub open spec fn capacity(self, session_id: int) -> int {
        self.session(session_id).remaining + self.count_registrations(session_id)
    }

    /// The invariant of the tables.
    pub open spec fn wf(self) -> bool {
        &&& forall|i: int, j: int|
            0 <= i < j < self.sessions.len() ==> precedes(
                #[trigger] self.sessions[i],
                #[trigger] self.sessions[j],
            )
        &&& forall|i: int, j: int|
            0 <= i < j < self.sessions.len() ==> (#[trigger] self.sessions[i]).id != (
            #[trigger] self.sessions[j]).id
        &&& forall|i: int|
            0 <= i < self.sessions.len() ==> 0 <= (#[trigger] self.sessions[i]).remaining
                && self.sessions[i].remaining + count_for(
                self.registrations,
                self.sessions[i].id,
            ) <= i32::MAX
        &&& forall|i: int, j: int|
            0 <= i < j < self.requests.len() ==> (#[trigger] self.requests[i]).token != (
            #[trigger] self.requests[j]).token
        &&& forall|i: int, j: int|
            0 <= i < j < self.registrations.len() ==> !((#[trigger] self.registrations[i]).session_id
                == (#[trigger] self.registrations[j]).session_id && self.registrations[i].user_id
                == self.registrations[j].user_id)
        &&& forall|i: int|
            0 <= i < self.registrations.len() ==> self.has_session(
                (#[trigger] self.registrations[i]).session_id,
            )
    }

    /// The store with the free-seat counter of session `id` moved by `delta`.
    pub open spec fn with_remaining(self, id: int, delta: int) -> StoreView {
        let i = self.session_index(id);
        let row = self.sessions[i];
        StoreView {
            sessions: self.sessions.update(
                i,
                SessionView { remaining: row.remaining + delta, ..row },
            ),
            ..self
        }
    }

    /// The registration list over the first `n` sessions: for each session
    /// that starts in `[start, end)`, in listing order, its seats in ledger order.
    pub open spec fn listing_upto(self, n: int, start: int, end: int) -> Seq<ListingRow>
        decreases n,
    {
        if n <= 0 {
            Seq::empty()
        } else {
            let rest = self.listing_upto(n - 1, start, end);
            let session = self.sessions[n - 1];
            if start <= session.start_time < end {
                rest + seats_upto(self.registrations, self.registrations.len() as int, session)
            } else {
                rest
            }
        }
    }

    /// The registration list of the sessions that start in `[start, end)`.
    pub open spec fn listing(self, start: int, end: int) -> Seq<ListingRow> {
        self.listing_upto(self.sessions.len() as int, start, end)
    }

    /// Among the first `n` sessions, those that start in `[start, end)` and
    /// at which the user holds a seat, in listing order.
    pub open spec fn bookings_upto(self, n: int, user_id: int, start: int, end: int) -> Seq<
        SessionView,
    >
        decreases n,
    {
        if n <= 0 {
            Seq::empty()
        } else {
            let rest = self.bookings_upto(n - 1, user_id, start, end);
            let session = self.sessions[n - 1];
            if start <= session.start_time < end && self.has_registration(session.id, user_id) {
                rest.push(session)
            } else {
                rest
            }
        }
    }

    /// The sessions in `[start, end)` that the user has booked.
    pub open spec fn bookings_of(self, user_id: int, start: int, end: int) -> Seq<SessionView> {
        self.bookings_upto(self.sessions.len() as int, user_id, start, end)
    }

    /// The seat that redeeming a request yields.
    pub open spec fn promoted(req: RequestView) -> RegistrationView {
        RegistrationView { session_id: req.session_id, user_id: req.user_id, name: req.name }
    }

    /// Why a pending request is not accepted, if it is not.
    pub open spec fn request_refusal(self, req: RequestView) -> Option<BookingError> {
        if !self.has_session(req.session_id) {
            Some(BookingError::NotFound)
        } else if self.session(req.session_id).remaining <= 0 {
            Some(BookingError::CapacityExhausted)
        } else if self.has_token(req.token) {
            Some(BookingError::Duplicate)
        } else {
            None
        }
    }

    /// The store with one more pending request. No seat is taken.
    pub open spec fn enqueue(self, req: RequestView) -> StoreView {
        StoreView { requests: self.requests.push(req), ..self }
    }

    /// The store without the pending request of this token.
    pub open spec fn dequeue(self, token: int) -> StoreView {
        StoreView { requests: self.requests.remove(self.request_index(token)), ..self }
    }

    /// Whether the session that a request asks for has started by `now`.
    pub open spec fn has_started(self, req: RequestView, now: int) -> bool {
        self.has_session(req.session_id) && self.session(req.session_id).start_time <= now
    }

    /// Among the first `n` pending requests, those whose session has not
    /// started by `now`, in their order.
    pub open spec fn waiting_upto(self, n: int, now: int) -> Seq<RequestView>
        decreases n,
    {
        if n <= 0 {
            Seq::empty()
        } else {
            let rest = self.waiting_upto(n - 1, now);
            if self.has_started(self.requests[n - 1], now) {
                rest
            } else {
                rest.push(self.requests[n - 1])
            }
        }
    }

    /// The store without the pending requests whose session has started by `now`.
    pub open spec fn sweep(self, now: int) -> StoreView {
        StoreView { requests: self.waiting_upto(self.requests.len() as int, now), ..self }
    }

    /// Why a seat is not written into the ledger as it is, if it is not.
    pub open spec fn ledger_refusal(self, seat: RegistrationView) -> Option<BookingError> {
        if !self.has_session(seat.session_id) {
            Some(BookingError::NotFound)
        } else if self.has_registration(seat.session_id, seat.user_id) {
            Some(BookingError::Duplicate)
        } else if self.capacity(seat.session_id) >= i32::MAX {
            Some(BookingError::StoreError)
        } else {
            None
        }
    }

    /// Why a seat is not given to the user, if it is not. A seat that the
    /// user already holds is reported before a full session is.
    pub open spec fn booking_refusal(self, session_id: int, user_id: int) -> Option<BookingError> {
        if !self.has_session(session_id) {
            Some(BookingError::NotFound)
        } else if self.has_registration(session_id, user_id) {
            Some(BookingError::Duplicate)
        } else if self.session(session_id).remaining <= 0 {
            Some(BookingError::CapacityExhausted)
        } else {
            None
        }
    }

    /// The store with the seat written and one free seat fewer.
    pub open spec fn book(self, seat: RegistrationView) -> StoreView {
        StoreView { registrations: self.registrations.push(seat), ..self }.with_remaining(
            seat.session_id,
            -1,
        )
    }

    /// The store with the user's seat removed and one more free seat.
    pub open spec fn release(self, session_id: int, user_id: int) -> StoreView {
        StoreView {
            registrations: self.registrations.remove(
                self.registration_index(session_id, user_id),
            ),
            ..self
        }.with_remaining(session_id, 1)
    }

    /// What redeeming a token reports: the number of seats written (one, or
    /// none where the user holds the seat already), or the failure.
    pub open spec fn redeem_result(self, token: int) -> Result<nat, BookingError> {
        if !self.has_token(token) {
            Err(BookingError::NotFound)
        } else {
            let req = self.request(token);
            match self.booking_refusal(req.session_id, req.user_id) {
                None => Ok(1),
                Some(BookingError::Duplicate) => Ok(0),
                Some(e) => Err(e),
            }
        }
    }

    /// The store after redeeming a token. A failure changes nothing; a
    /// success removes the request, and writes the seat unless the user
    /// holds it already.
    pub open spec fn redeem(self, token: int) -> StoreView {
        match self.redeem_result(token) {
            Err(_) => self,
            Ok(n) => if n == 0 {
                self.dequeue(token)
            } else {
                self.dequeue(token).book(Self::promoted(self.request(token)))
            },
        }
    }
}

/// One booking operation, as the coordinator applies it.
pub enum Operation {
    /// An unverified user submits: the request is filed as pending.
    SubmitPending { request: RequestView },
    /// A verified user submits: the seat is booked at once.
    SubmitDirect { seat: RegistrationView },
    /// A token is redeemed.
    Redeem { token: int },
    /// A pending request is withdrawn.
    Withdraw { token: int },
    /// A user cancels a seat.
    Cancel { session_id: int, user_id: int },
    /// The requests for sessions that have started by `now` are dropped.
    Sweep { now: int },
}

/// The store after one operation. An operation that is refused changes nothing.
pub open spec fn step(s: StoreView, op: Operation) -> StoreView {
    match op {
        Operation::SubmitPending { request } => if s.request_refusal(request) is None {
            s.enqueue(request)
        } else {
            s
        },
        Operation::SubmitDirect { seat } => if s.booking_refusal(seat.session_id, seat.user_id)
            is None {
            s.book(seat)
        } else {
            s
        },
        Operation::Redeem { token } => s.redeem(token),
        Operation::Withdraw { token } => if s.has_token(token) {
            s.dequeue(token)
        } else {
            s
        },
        Operation::Cancel { session_id, user_id } => if s.has_registration(session_id, user_id) {
            s.release(session_id, user_id)
        } else {
            s
        },
        Operation::Sweep { now } => s.sweep(now),
    }
}

/// The store after a run of operations, applied in order.
pub open spec fn run(s: StoreView, ops: Seq<Operation>) -> StoreView
    decreases ops.len(),
{
    if ops.len() == 0 {
        s
    } else {
        step(run(s, ops.drop_last()), ops.last())
    }
}

/// In a well-formed store a session is found at exactly one place.
pub proof fn lemma_session_at(s: StoreView, i: int)
    requires
        s.wf(),
        0 <= i < s.sessions.len(),
    ensures
        s.has_session(s.sessions[i].id),
        s.session_index(s.sessions[i].id) == i,
        s.session(s.sessions[i].id) == s.sessions[i],
{
    let id = s.sessions[i].id;
    let j = s.session_index(id);
    assert(0 <= j < s.sessions.len() && s.sessions[j].id == id);
    if i < j {
        assert(s.sessions[i].id != s.sessions[j].id);
    } else if j < i {
        assert(s.sessions[j].id != s.sessions[i].id);
    }
}

/// In a well-formed store a token names exactly one pending request.
pub proof fn lemma_request_at(s: StoreView, i: int)
    requires
        s.wf(),
        0 <= i < s.requests.len(),
    ensures
        s.has_token(s.requests[i].token),
        s.request_index(s.requests[i].token) == i,
        s.request(s.requests[i].token) == s.requests[i],
{
    let token = s.requests[i].token;
    let j = s.request_index(token);
    assert(0 <= j < s.requests.len() && s.requests[j].token == token);
    if i < j {
        assert(s.requests[i].token != s.requests[j].token);
    } else if j < i {
        assert(s.requests[j].token != s.requests[i].token);
    }
}

/// In a well-formed store a user's seat for a session stands at exactly one place.
pub proof fn lemma_seat_at(s: StoreView, i: int)
    requires
        s.wf(),
        0 <= i < s.registrations.len(),
    ensures
        s.has_registration(s.registrations[i].session_id, s.registrations[i].user_id),
        s.registration_index(s.registrations[i].session_id, s.registrations[i].user_id) == i,
{
    let sid = s.registrations[i].session_id;
    let uid = s.registrations[i].user_id;
    assert(s.is_seat(i, sid, uid));
    let j = s.registration_index(sid, uid);
    assert(s.is_seat(j, sid, uid));
    if i < j {
        assert(!(s.registrations[i].session_id == s.registrations[j].session_id
            && s.registrations[i].user_id == s.registrations[j].user_id));
    } else if j < i {
        assert(!(s.registrations[j].session_id == s.registrations[i].session_id
            && s.registrations[j].user_id == s.registrations[i].user_id));
    }
}

/// A new row adds one to the count of its own session and nothing to the others.
pub proof fn lemma_count_push(rows: Seq<RegistrationView>, row: RegistrationView, session_id: int)
    ensures
        count_for(rows.push(row), session_id) == count_for(rows, session_id) + (if row.session_id
            == session_id {
            1nat
        } else {
            0nat
        }),
{
    assert(rows.push(row).drop_last() =~= rows);
}

/// Taking a row out takes one from the count of its own session and nothing from the others.
pub proof fn lemma_count_remove(rows: Seq<RegistrationView>, i: int, session_id: int)
    requires
        0 <= i < rows.len(),
    ensures
        count_for(rows.remove(i), session_id) + (if rows[i].session_id == session_id {
            1nat
        } else {
            0nat
        }) == count_for(rows, session_id),
    decreases rows.len(),
{
    if i == rows.len() - 1 {
        assert(rows.remove(i) =~= rows.drop_last());
    } else {
        assert(rows.remove(i).drop_last() =~= rows.drop_last().remove(i));
        assert(rows.remove(i).last() == rows.last());
        lemma_count_remove(rows.drop_last(), i, session_id);
    }
}

/// A session has no seats counted unless some row names it, and never more than there are rows.
pub proof fn lemma_count_bounds(rows: Seq<RegistrationView>, session_id: int)
    ensures
        count_for(rows, session_id) <= rows.len(),
        count_for(rows, session_id) > 0 ==> exists|i: int|
            0 <= i < rows.len() && (#[trigger] rows[i]).session_id == session_id,
    decreases rows.len(),
{
    if rows.len() > 0 {
        lemma_count_bounds(rows.drop_last(), session_id);
        if rows.last().session_id == session_id {
            assert(rows[rows.len() - 1].session_id == session_id);
        } else if count_for(rows, session_id) > 0 {
            let i = choose|i: int|
                0 <= i < rows.drop_last().len() && (#[trigger] rows.drop_last()[i]).session_id
                    == session_id;
            assert(rows[i].session_id == session_id);
        }
    }
}

/// The count over a prefix never exceeds the count over the whole.
pub proof fn lemma_count_prefix(rows: Seq<RegistrationView>, n: int, session_id: int)
    requires
        0 <= n <= rows.len(),
    ensures
        count_for(rows.take(n), session_id) <= count_for(rows, session_id),
    decreases rows.len() - n,
{
    if n == rows.len() {
        assert(rows.take(n) =~= rows);
    } else {
        assert(rows.take(n + 1).drop_last() =~= rows.take(n));
        lemma_count_prefix(rows, n + 1, session_id);
    }
}

/// Moving a counter keeps every session where it stands.
pub proof fn lemma_with_remaining(s: StoreView, id: int, delta: int)
    requires
        s.wf(),
        s.has_session(id),
    ensures
        ({
            let t = s.with_remaining(id, delta);
            &&& t.sessions.len() == s.sessions.len()
            &&& t.requests == s.requests
            &&& t.registrations == s.registrations
            &&& forall|k: int|
                0 <= k < s.sessions.len() ==> (#[trigger] t.sessions[k]).id == s.sessions[k].id
                    && t.sessions[k].start_time == s.sessions[k].start_time && t.sessions[k].title
                    == s.sessions[k].title && t.sessions[k].remaining == s.sessions[k].remaining
                    + (if s.sessions[k].id == id {
                    delta
                } else {
                    0
                })
            &&& forall|x: int| t.has_session(x) <==> s.has_session(x)
        }),
{
    let t = s.with_remaining(id, delta);
    let i = s.session_index(id);
    assert(0 <= i < s.sessions.len() && s.sessions[i].id == id);
    assert forall|k: int| 0 <= k < s.sessions.len() implies (#[trigger] t.sessions[k]).id
        == s.sessions[k].id && t.sessions[k].start_time == s.sessions[k].start_time
        && t.sessions[k].title == s.sessions[k].title && t.sessions[k].remaining
        == s.sessions[k].remaining + (if s.sessions[k].id == id {
        delta
    } else {
        0
    }) by {
        lemma_session_at(s, k);
    }
    assert forall|x: int| t.has_session(x) <==> s.has_session(x) by {
        if s.has_session(x) {
            let k = s.session_index(x);
            assert(t.sessions[k].id == x);
        }
        if t.has_session(x) {
            let k = t.session_index(x);
            assert(s.sessions[k].id == t.sessions[k].id);
        }
    }
}

/// Two stores with the same sessions and seats agree on every session.
pub proof fn lemma_same_sessions(s: StoreView, t: StoreView, id: int)
    requires
        s.wf(),
        s.sessions == t.sessions,
        s.registrations == t.registrations,
        s.has_session(id),
    ensures
        t.has_session(id),
        t.session_index(id) == s.session_index(id),
        t.session(id) == s.session(id),
        t.capacity(id) == s.capacity(id),
{
    let k = s.session_index(id);
    assert(t.sessions[k].id == id);
    let j = t.session_index(id);
    assert(0 <= j < t.sessions.len() && t.sessions[j].id == id);
    if j < k {
        assert(s.sessions[j].id != s.sessions[k].id);
    } else if k < j {
        assert(s.sessions[k].id != s.sessions[j].id);
    }
}

/// Accepting a pending request keeps the store well formed and touches no session.
pub proof fn lemma_enqueue(s: StoreView, req: RequestView)
    requires
        s.wf(),
        !s.has_token(req.token),
    ensures
        s.enqueue(req).wf(),
        s.enqueue(req).sessions == s.sessions,
        s.enqueue(req).registrations == s.registrations,
        forall|x: int|
            s.has_session(x) ==> s.enqueue(req).has_session(x) && s.enqueue(req).session(x)
                == s.session(x) && s.enqueue(req).capacity(x) == s.capacity(x),
{
    let t = s.enqueue(req);
    assert forall|x: int| s.has_session(x) implies t.has_session(x) && t.session(x) == s.session(
        x,
    ) && t.capacity(x) == s.capacity(x) by {
        lemma_same_sessions(s, t, x);
    }
    assert forall|i: int, j: int| 0 <= i < j < t.requests.len() implies (
    #[trigger] t.requests[i]).token != (#[trigger] t.requests[j]).token by {
        if j == s.requests.len() {
            assert(s.requests[i].token != req.token);
        }
    }
    assert forall|i: int| 0 <= i < t.registrations.len() implies t.has_session(
        (#[trigger] t.registrations[i]).session_id,
    ) by {
        let x = s.registrations[i].session_id;
        assert(s.has_session(x));
        assert(t.sessions[s.session_index(x)].id == x);
    }
}

/// Dropping a pending request keeps the store well formed and touches no session.
pub proof fn lemma_dequeue(s: StoreView, token: int)
    requires
        s.wf(),
        s.has_token(token),
    ensures
        s.dequeue(token).wf(),
        s.dequeue(token).sessions == s.sessions,
        s.dequeue(token).registrations == s.registrations,
        !s.dequeue(token).has_token(token),
        forall|x: int| x != token ==> (s.dequeue(token).has_token(x) <==> s.has_token(x)),
        forall|x: int|
            s.has_session(x) ==> s.dequeue(token).has_session(x) && s.dequeue(token).session(x)
                == s.session(x) && s.dequeue(token).capacity(x) == s.capacity(x),
{
    let t = s.dequeue(token);
    assert forall|x: int| s.has_session(x) implies t.has_session(x) && t.session(x) == s.session(
        x,
    ) && t.capacity(x) == s.capacity(x) by {
        lemma_same_sessions(s, t, x);
    }
    let p = s.request_index(token);
    assert(0 <= p < s.requests.len() && s.requests[p].token == token);
    assert forall|i: int| 0 <= i < t.requests.len() implies (#[trigger] t.requests[i])
        == s.requests[if i < p { i } else { i + 1 }] by {}
    assert forall|i: int, j: int| 0 <= i < j < t.requests.len() implies (
    #[trigger] t.requests[i]).token != (#[trigger] t.requests[j]).token by {
        let a = if i < p { i } else { i + 1 };
        let b = if j < p { j } else { j + 1 };
        assert(s.requests[a].token != s.requests[b].token);
    }
    assert forall|i: int| 0 <= i < t.registrations.len() implies t.has_session(
        (#[trigger] t.registrations[i]).session_id,
    ) by {
        let x = s.registrations[i].session_id;
        assert(s.has_session(x));
        assert(t.sessions[s.session_index(x)].id == x);
    }
    if t.has_token(token) {
        let i = t.request_index(token);
        let a = if i < p { i } else { i + 1 };
        assert(t.requests[i] == s.requests[a]);
        if a < p {
            assert(s.requests[a].token != s.requests[p].token);
        } else {
            assert(s.requests[p].token != s.requests[a].token);
        }
    }
    assert forall|x: int| x != token implies (t.has_token(x) <==> s.has_token(x)) by {
        if s.has_token(x) {
            let a = s.request_index(x);
            let i = if a < p { a } else { a - 1 };
            assert(t.requests[i] == s.requests[a]);
        }
        if t.has_token(x) {
            let i = t.request_index(x);
            let a = if i < p { i } else { i + 1 };
            assert(t.requests[i] == s.requests[a]);
        }
    }
}

/// Writing a seat and taking one free seat keeps the store well formed and
/// every session's capacity as it was.
pub proof fn lemma_book(s: StoreView, seat: RegistrationView)
    requires
        s.wf(),
        s.booking_refusal(seat.session_id, seat.user_id) is None,
    ensures
        s.book(seat).wf(),
        s.book(seat).requests == s.requests,
        s.book(seat).registrations == s.registrations.push(seat),
        s.book(seat).has_registration(seat.session_id, seat.user_id),
        forall|a: int, b: int|
            #[trigger] s.book(seat).has_registration(a, b) <==> s.has_registration(a, b) || (a
                == seat.session_id && b == seat.user_id),
        forall|x: int| s.book(seat).has_session(x) <==> s.has_session(x),
        forall|x: int|
            s.has_session(x) ==> s.book(seat).capacity(x) == s.capacity(x) && s.book(
                seat,
            ).session(x).remaining == s.session(x).remaining - (if x == seat.session_id {
                1int
            } else {
                0int
            }),
{
    let mid = StoreView { registrations: s.registrations.push(seat), ..s };
    let t = s.book(seat);
    let sid = seat.session_id;
    let p = s.session_index(sid);
    assert(0 <= p < s.sessions.len() && s.sessions[p].id == sid);
    assert(mid.sessions == s.sessions);
    assert(mid.session_index(sid) == p);
    assert(t.sessions =~= s.sessions.update(
        p,
        SessionView { remaining: s.sessions[p].remaining - 1, ..s.sessions[p] },
    ));
    assert(t.registrations == s.registrations.push(seat));
    assert forall|i: int, j: int| 0 <= i < j < t.sessions.len() implies precedes(
        #[trigger] t.sessions[i],
        #[trigger] t.sessions[j],
    ) by {
        assert(precedes(s.sessions[i], s.sessions[j]));
    }
    assert forall|i: int, j: int| 0 <= i < j < t.sessions.len() implies (
    #[trigger] t.sessions[i]).id != (#[trigger] t.sessions[j]).id by {
        assert(s.sessions[i].id != s.sessions[j].id);
    }
    assert forall|i: int| 0 <= i < t.sessions.len() implies 0 <= (
    #[trigger] t.sessions[i]).remaining && t.sessions[i].remaining + count_for(
        t.registrations,
        t.sessions[i].id,
    ) <= i32::MAX by {
        lemma_count_push(s.registrations, seat, s.sessions[i].id);
        lemma_session_at(s, i);
        assert(0 <= s.sessions[i].remaining);
    }
    assert forall|i: int, j: int| 0 <= i < j < t.registrations.len() implies !((
    #[trigger] t.registrations[i]).session_id == (#[trigger] t.registrations[j]).session_id
        && t.registrations[i].user_id == t.registrations[j].user_id) by {
        if j == s.registrations.len() {
            if s.registrations[i].session_id == seat.session_id && s.registrations[i].user_id
                == seat.user_id {
                assert(s.is_seat(i, seat.session_id, seat.user_id));
            }
        } else {
            assert(!(s.registrations[i].session_id == s.registrations[j].session_id
                && s.registrations[i].user_id == s.registrations[j].user_id));
        }
    }
    assert forall|x: int| t.has_session(x) <==> s.has_session(x) by {
        if s.has_session(x) {
            let k = s.session_index(x);
            assert(t.sessions[k].id == x);
        }
        if t.has_session(x) {
            let k = t.session_index(x);
            assert(s.sessions[k].id == x);
        }
    }
    assert forall|i: int| 0 <= i < t.registrations.len() implies t.has_session(
        (#[trigger] t.registrations[i]).session_id,
    ) by {
        if i < s.registrations.len() {
            assert(s.has_session(s.registrations[i].session_id));
        }
    }
    assert(t.wf());
    assert(t.is_seat(s.registrations.len() as int, seat.session_id, seat.user_id));
    assert forall|a: int, b: int| #[trigger]
        t.has_registration(a, b) <==> s.has_registration(a, b) || (a == seat.session_id && b
            == seat.user_id) by {
        if s.has_registration(a, b) {
            let i = s.registration_index(a, b);
            assert(s.is_seat(i, a, b));
            assert(t.is_seat(i, a, b));
        }
        if t.has_registration(a, b) {
            let i = t.registration_index(a, b);
            assert(t.is_seat(i, a, b));
            if i < s.registrations.len() {
                assert(s.is_seat(i, a, b));
            }
        }
    }
    assert forall|x: int| s.has_session(x) implies t.capacity(x) == s.capacity(x) && t.session(
        x,
    ).remaining == s.session(x).remaining - (if x == seat.session_id {
        1int
    } else {
        0int
    }) by {
        let k = s.session_index(x);
        lemma_session_at(s, k);
        lemma_session_at(t, k);
        lemma_count_push(s.registrations, seat, x);
    }
}

/// Removing a seat and giving one free seat back keeps the store well
/// formed and every session's capacity as it was.
pub proof fn lemma_release(s: StoreView, session_id: int, user_id: int)
    requires
        s.wf(),
        s.has_registration(session_id, user_id),
    ensures
        s.has_session(session_id),
        s.release(session_id, user_id).wf(),
        s.release(session_id, user_id).requests == s.requests,
        !s.release(session_id, user_id).has_registration(session_id, user_id),
        forall|x: int| s.release(session_id, user_id).has_session(x) <==> s.has_session(x),
        forall|x: int|
            s.has_session(x) ==> s.release(session_id, user_id).capacity(x) == s.capacity(x)
                && s.release(session_id, user_id).session(x).remaining == s.session(x).remaining
                + (if x == session_id {
                1int
            } else {
                0int
            }),
{
    let q = s.registration_index(session_id, user_id);
    assert(s.is_seat(q, session_id, user_id));
    assert(s.has_session(s.registrations[q].session_id));
    let t = s.release(session_id, user_id);
    let p = s.session_index(session_id);
    assert(0 <= p < s.sessions.len() && s.sessions[p].id == session_id);
    let mid = StoreView { registrations: s.registrations.remove(q), ..s };
    assert(mid.session_index(session_id) == p);
    assert(t.sessions =~= s.sessions.update(
        p,
        SessionView { remaining: s.sessions[p].remaining + 1, ..s.sessions[p] },
    ));
    assert(t.registrations == s.registrations.remove(q));
    assert forall|i: int| 0 <= i < t.registrations.len() implies (#[trigger] t.registrations[i])
        == s.registrations[if i < q { i } else { i + 1 }] by {}
    assert forall|i: int, j: int| 0 <= i < j < t.sessions.len() implies precedes(
        #[trigger] t.sessions[i],
        #[trigger] t.sessions[j],
    ) by {
        assert(precedes(s.sessions[i], s.sessions[j]));
    }
    assert forall|i: int, j: int| 0 <= i < j < t.sessions.len() implies (
    #[trigger] t.sessions[i]).id != (#[trigger] t.sessions[j]).id by {
        assert(s.sessions[i].id != s.sessions[j].id);
    }
    assert forall|i: int| 0 <= i < t.sessions.len() implies 0 <= (
    #[trigger] t.sessions[i]).remaining && t.sessions[i].remaining + count_for(
        t.registrations,
        t.sessions[i].id,
    ) <= i32::MAX by {
        lemma_count_remove(s.registrations, q, s.sessions[i].id);
        lemma_session_at(s, i);
        assert(0 <= s.sessions[i].remaining);
    }
    assert forall|i: int, j: int| 0 <= i < j < t.registrations.len() implies !((
    #[trigger] t.registrations[i]).session_id == (#[trigger] t.registrations[j]).session_id
        && t.registrations[i].user_id == t.registrations[j].user_id) by {
        let a = if i < q { i } else { i + 1 };
        let b = if j < q { j } else { j + 1 };
        assert(!(s.registrations[a].session_id == s.registrations[b].session_id
            && s.registrations[a].user_id == s.registrations[b].user_id));
    }
    assert forall|x: int| t.has_session(x) <==> s.has_session(x) by {
        if s.has_session(x) {
            let k = s.session_index(x);
            assert(t.sessions[k].id == x);
        }
        if t.has_session(x) {
            let k = t.session_index(x);
            assert(s.sessions[k].id == x);
        }
    }
    assert forall|i: int| 0 <= i < t.registrations.len() implies t.has_session(
        (#[trigger] t.registrations[i]).session_id,
    ) by {
        let a = if i < q { i } else { i + 1 };
        assert(s.has_session(s.registrations[a].session_id));
    }
    assert(t.wf());
    if t.has_registration(session_id, user_id) {
        let i = t.registration_index(session_id, user_id);
        assert(t.is_seat(i, session_id, user_id));
        let a = if i < q { i } else { i + 1 };
        assert(t.registrations[i] == s.registrations[a]);
        if a < q {
            assert(!(s.registrations[a].session_id == s.registrations[q].session_id
                && s.registrations[a].user_id == s.registrations[q].user_id));
        } else {
            assert(!(s.registrations[q].session_id == s.registrations[a].session_id
                && s.registrations[q].user_id == s.registrations[a].user_id));
        }
    }
    assert forall|x: int| s.has_session(x) implies t.capacity(x) == s.capacity(x) && t.session(
        x,
    ).remaining == s.session(x).remaining + (if x == session_id {
        1int
    } else {
        0int
    }) by {
        let k = s.session_index(x);
        lemma_session_at(s, k);
        lemma_session_at(t, k);
        lemma_count_remove(s.registrations, q, x);
    }
}

/// Moving one counter within its bounds keeps the store well formed.
pub proof fn lemma_adjust(s: StoreView, id: int, delta: int)
    requires
        s.wf(),
        s.has_session(id),
        0 <= s.session(id).remaining + delta,
        s.capacity(id) + delta <= i32::MAX,
    ensures
        s.with_remaining(id, delta).wf(),
        s.with_remaining(id, delta).has_session(id),
        s.with_remaining(id, delta).session(id).remaining == s.session(id).remaining + delta,
        s.with_remaining(id, delta).capacity(id) == s.capacity(id) + delta,
        forall|x: int|
            s.has_session(x) && x != id ==> s.with_remaining(id, delta).capacity(x) == s.capacity(
                x,
            ),
{
    let t = s.with_remaining(id, delta);
    lemma_with_remaining(s, id, delta);
    let p = s.session_index(id);
    lemma_session_at(s, p);
    assert forall|i: int, j: int| 0 <= i < j < t.sessions.len() implies precedes(
        #[trigger] t.sessions[i],
        #[trigger] t.sessions[j],
    ) by {
        assert(precedes(s.sessions[i], s.sessions[j]));
    }
    assert forall|i: int, j: int| 0 <= i < j < t.sessions.len() implies (
    #[trigger] t.sessions[i]).id != (#[trigger] t.sessions[j]).id by {
        assert(s.sessions[i].id != s.sessions[j].id);
    }
    assert forall|i: int| 0 <= i < t.sessions.len() implies 0 <= (
    #[trigger] t.sessions[i]).remaining && t.sessions[i].remaining + count_for(
        t.registrations,
        t.sessions[i].id,
    ) <= i32::MAX by {
        lemma_session_at(s, i);
        assert(0 <= s.sessions[i].remaining);
    }
    assert forall|i: int| 0 <= i < t.registrations.len() implies t.has_session(
        (#[trigger] t.registrations[i]).session_id,
    ) by {
        assert(s.has_session(s.registrations[i].session_id));
    }
    assert(t.wf());
    assert forall|x: int| s.has_session(x) implies t.capacity(x) == s.capacity(x) + (if x == id {
        delta
    } else {
        0
    }) && t.session(x).remaining == s.session(x).remaining + (if x == id {
        delta
    } else {
        0
    }) by {
        let k = s.session_index(x);
        lemma_session_at(s, k);
        lemma_session_at(t, k);
    }
}

/// Every line that `seats_upto` gives carries the session's own id and start time.
pub proof fn lemma_seats_keys(rows: Seq<RegistrationView>, n: int, session: SessionView)
    requires
        n <= rows.len(),
    ensures
        forall|k: int|
            0 <= k < seats_upto(rows, n, session).len() ==> (#[trigger] seats_upto(
                rows,
                n,
                session,
            )[k]).session_id == session.id && seats_upto(rows, n, session)[k].start_time
                == session.start_time,
    decreases n,
{
    if n > 0 {
        lemma_seats_keys(rows, n - 1, session);
        let rest = seats_upto(rows, n - 1, session);
        let whole = seats_upto(rows, n, session);
        assert forall|k: int| 0 <= k < whole.len() implies (#[trigger] whole[k]).session_id
            == session.id && whole[k].start_time == session.start_time by {
            if k < rest.len() {
                assert(whole[k] == rest[k]);
            }
        }
    }
}

/// The registration list is ordered by start time and then by session, and
/// each of its lines belongs to one of the sessions it was drawn from.
pub proof fn lemma_listing_ordered(s: StoreView, n: int, start: int, end: int)
    requires
        s.wf(),
        n <= s.sessions.len(),
    ensures
        forall|k: int|
            0 <= k < s.listing_upto(n, start, end).len() ==> exists|m: int|
                0 <= m < n && (#[trigger] s.sessions[m]).id == (#[trigger] s.listing_upto(
                    n,
                    start,
                    end,
                )[k]).session_id && s.sessions[m].start_time == s.listing_upto(
                    n,
                    start,
                    end,
                )[k].start_time,
        forall|a: int, b: int|
            0 <= a < b < s.listing_upto(n, start, end).len() ==> in_listing_order(
                #[trigger] s.listing_upto(n, start, end)[a],
                #[trigger] s.listing_upto(n, start, end)[b],
            ),
    decreases n,
{
    if n > 0 {
        lemma_listing_ordered(s, n - 1, start, end);
        let rest = s.listing_upto(n - 1, start, end);
        let session = s.sessions[n - 1];
        let whole = s.listing_upto(n, start, end);
        let seats = seats_upto(s.registrations, s.registrations.len() as int, session);
        lemma_seats_keys(s.registrations, s.registrations.len() as int, session);
        assert forall|k: int| 0 <= k < whole.len() implies exists|m: int|
            0 <= m < n && (#[trigger] s.sessions[m]).id == (#[trigger] whole[k]).session_id
                && s.sessions[m].start_time == whole[k].start_time by {
            if k < rest.len() {
                assert(whole[k] == rest[k]);
                let m = choose|m: int|
                    0 <= m < n - 1 && (#[trigger] s.sessions[m]).id == rest[k].session_id
                        && s.sessions[m].start_time == rest[k].start_time;
                assert(s.sessions[m].id == whole[k].session_id);
            } else {
                assert(whole[k] == seats[k - rest.len()]);
                assert(s.sessions[n - 1].id == whole[k].session_id);
            }
        }
        assert forall|a: int, b: int| 0 <= a < b < whole.len() implies in_listing_order(
            #[trigger] whole[a],
            #[trigger] whole[b],
        ) by {
            if b < rest.len() {
                assert(whole[a] == rest[a] && whole[b] == rest[b]);
            } else if a >= rest.len() {
                assert(whole[a] == seats[a - rest.len()]);
                assert(whole[b] == seats[b - rest.len()]);
            } else {
                assert(whole[a] == rest[a]);
                assert(whole[b] == seats[b - rest.len()]);
                let m = choose|m: int|
                    0 <= m < n - 1 && (#[trigger] s.sessions[m]).id == rest[a].session_id
                        && s.sessions[m].start_time == rest[a].start_time;
                assert(precedes(s.sessions[m], s.sessions[n - 1]));
            }
        }
    }
}

/// A user's bookings come out in listing order, each one a session of the store.
pub proof fn lemma_bookings_ordered(s: StoreView, n: int, user_id: int, start: int, end: int)
    requires
        s.wf(),
        n <= s.sessions.len(),
    ensures
        forall|k: int|
            0 <= k < s.bookings_upto(n, user_id, start, end).len() ==> exists|m: int|
                0 <= m < n && #[trigger] s.sessions[m] == #[trigger] s.bookings_upto(
                    n,
                    user_id,
                    start,
                    end,
                )[k],
        forall|a: int, b: int|
            0 <= a < b < s.bookings_upto(n, user_id, start, end).len() ==> precedes(
                #[trigger] s.bookings_upto(n, user_id, start, end)[a],
                #[trigger] s.bookings_upto(n, user_id, start, end)[b],
            ),
    decreases n,
{
    if n > 0 {
        lemma_bookings_ordered(s, n - 1, user_id, start, end);
        let rest = s.bookings_upto(n - 1, user_id, start, end);
        let whole = s.bookings_upto(n, user_id, start, end);
        assert forall|k: int| 0 <= k < whole.len() implies exists|m: int|
            0 <= m < n && #[trigger] s.sessions[m] == #[trigger] whole[k] by {
            if k < rest.len() {
                assert(whole[k] == rest[k]);
                let m = choose|m: int| 0 <= m < n - 1 && #[trigger] s.sessions[m] == rest[k];
                assert(s.sessions[m] == whole[k]);
            } else {
                assert(s.sessions[n - 1] == whole[k]);
            }
        }
        assert forall|a: int, b: int| 0 <= a < b < whole.len() implies precedes(
            #[trigger] whole[a],
            #[trigger] whole[b],
        ) by {
            if b < rest.len() {
                assert(whole[a] == rest[a] && whole[b] == rest[b]);
            } else {
                assert(whole[a] == rest[a]);
                let m = choose|m: int| 0 <= m < n - 1 && #[trigger] s.sessions[m] == rest[a];
                assert(precedes(s.sessions[m], s.sessions[n - 1]));
            }
        }
    }
}

/// The seats taken at any one session fit an `i32`.
pub proof fn lemma_count_limit(s: StoreView, session_id: int)
    requires
        s.wf(),
    ensures
        s.count_registrations(session_id) <= i32::MAX,
{
    lemma_count_bounds(s.registrations, session_id);
    if s.count_registrations(session_id) > 0 {
        let k = choose|k: int|
            0 <= k < s.registrations.len() && (#[trigger] s.registrations[k]).session_id
                == session_id;
        assert(s.has_session(s.registrations[k].session_id));
        let p = s.session_index(session_id);
        assert(0 <= s.sessions[p].remaining);
    }
}

/// What is left of the pending requests after a sweep are requests of the
/// store, in their order, each under its own token.
pub proof fn lemma_waiting(s: StoreView, n: int, now: int)
    requires
        s.wf(),
        n <= s.requests.len(),
    ensures
        s.waiting_upto(n, now).len() <= if n < 0 { 0 } else { n },
        forall|a: int|
            0 <= a < s.waiting_upto(n, now).len() ==> !s.has_started(
                #[trigger] s.waiting_upto(n, now)[a],
                now,
            ) && exists|k: int| 0 <= k < n && #[trigger] s.requests[k] == s.waiting_upto(n, now)[a],
        forall|a: int, b: int|
            0 <= a < b < s.waiting_upto(n, now).len() ==> (#[trigger] s.waiting_upto(
                n,
                now,
            )[a]).token != (#[trigger] s.waiting_upto(n, now)[b]).token,
    decreases n,
{
    if n > 0 {
        lemma_waiting(s, n - 1, now);
        let rest = s.waiting_upto(n - 1, now);
        let whole = s.waiting_upto(n, now);
        assert forall|a: int| 0 <= a < whole.len() implies !s.has_started(#[trigger] whole[a], now)
            && exists|k: int| 0 <= k < n && #[trigger] s.requests[k] == whole[a] by {
            if a < rest.len() {
                assert(whole[a] == rest[a]);
                let k = choose|k: int| 0 <= k < n - 1 && #[trigger] s.requests[k] == rest[a];
                assert(s.requests[k] == whole[a]);
            } else {
                assert(s.requests[n - 1] == whole[a]);
            }
        }
        assert forall|a: int, b: int| 0 <= a < b < whole.len() implies (#[trigger] whole[a]).token
            != (#[trigger] whole[b]).token by {
            if b < rest.len() {
                assert(whole[a] == rest[a] && whole[b] == rest[b]);
            } else {
                assert(whole[a] == rest[a]);
                let k = choose|k: int| 0 <= k < n - 1 && #[trigger] s.requests[k] == rest[a];
                assert(s.requests[k].token != s.requests[n - 1].token);
            }
        }
    }
}

/// A sweep keeps the store well formed and touches neither a session nor a seat.
pub proof fn lemma_sweep(s: StoreView, now: int)
    requires
        s.wf(),
    ensures
        s.sweep(now).wf(),
        s.sweep(now).sessions == s.sessions,
        s.sweep(now).registrations == s.registrations,
        s.sweep(now).requests.len() <= s.requests.len(),
        forall|x: int|
            s.has_session(x) ==> s.sweep(now).has_session(x) && s.sweep(now).session(x)
                == s.session(x) && s.sweep(now).capacity(x) == s.capacity(x),
{
    let t = s.sweep(now);
    lemma_waiting(s, s.requests.len() as int, now);
    assert forall|i: int| 0 <= i < t.registrations.len() implies t.has_session(
        (#[trigger] t.registrations[i]).session_id,
    ) by {
        let x = s.registrations[i].session_id;
        assert(s.has_session(x));
        assert(t.sessions[s.session_index(x)].id == x);
    }
    assert forall|x: int| s.has_session(x) implies t.has_session(x) && t.session(x) == s.session(
        x,
    ) && t.capacity(x) == s.capacity(x) by {
        lemma_same_sessions(s, t, x);
    }
}

} // verus!
