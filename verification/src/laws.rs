//! What holds of the booking operations taken together.
//!
//! Every operation takes the tables by exclusive reference, so operations
//! that callers issue at the same time take effect one after another, in
//! some order. What is shown here of every run of operations therefore
//! holds of every concurrent execution.

use vstd::prelude::*;
use crate::error::BookingError;
use crate::model::{
    lemma_book, lemma_dequeue, lemma_enqueue, lemma_release, lemma_request_at, lemma_same_sessions,
    lemma_seat_at, lemma_session_at, lemma_sweep, run, step, Operation, RegistrationView,
    RequestView, StoreView,
};

verus! {

/// One operation keeps the store well formed, keeps every session, never
/// lets a counter of free seats fall below zero, and leaves the capacity of
/// every session (free seats plus seats taken) as it was.
pub proof fn law_step_conserves_capacity(s: StoreView, op: Operation)
    requires
        s.wf(),
    ensures
        step(s, op).wf(),
        forall|id: int|
            s.has_session(id) ==> step(s, op).has_session(id) && step(s, op).session(id).remaining
                >= 0 && step(s, op).capacity(id) == s.capacity(id),
{
    let t = step(s, op);
    match op {
        Operation::SubmitPending { request } => {
            if s.request_refusal(request) is None {
                lemma_enqueue(s, request);
            }
        },
        Operation::SubmitDirect { seat } => {
            if s.booking_refusal(seat.session_id, seat.user_id) is None {
                lemma_book(s, seat);
            }
        },
        Operation::Redeem { token } => {
            lemma_redeem(s, token);
        },
        Operation::Withdraw { token } => {
            if s.has_token(token) {
                lemma_dequeue(s, token);
            }
        },
        Operation::Cancel { session_id, user_id } => {
            if s.has_registration(session_id, user_id) {
                lemma_release(s, session_id, user_id);
            }
        },
        Operation::Sweep { now } => {
            lemma_sweep(s, now);
        },
    }
    assert(t.wf());
    assert forall|id: int| s.has_session(id) implies t.has_session(id) && t.session(id).remaining
        >= 0 && t.capacity(id) == s.capacity(id) by {
        if t.has_session(id) {
            let k = t.session_index(id);
            lemma_session_at(t, k);
            assert(0 <= t.sessions[k].remaining);
        }
    }
}

/// At every point of every run of operations, each session of the store
/// has a counter of free seats that is not negative, and free seats plus
/// seats taken make the capacity that the session started with.
pub proof fn law_capacity_conserved(s: StoreView, ops: Seq<Operation>, id: int)
    requires
        s.wf(),
        s.has_session(id),
    ensures
        run(s, ops).wf(),
        run(s, ops).has_session(id),
        run(s, ops).session(id).remaining >= 0,
        run(s, ops).session(id).remaining + run(s, ops).count_registrations(id) == s.capacity(id),
    decreases ops.len(),
{
    if ops.len() == 0 {
        let k = s.session_index(id);
        lemma_session_at(s, k);
        assert(0 <= s.sessions[k].remaining);
    } else {
        law_capacity_conserved(s, ops.drop_last(), id);
        law_step_conserves_capacity(run(s, ops.drop_last()), ops.last());
    }
}

/// Redeeming a token keeps the store well formed and the capacity of every
/// session; pending requests of other tokens stay.
pub proof fn lemma_redeem(s: StoreView, token: int)
    requires
        s.wf(),
    ensures
        s.redeem(token).wf(),
        s.redeem_result(token) is Ok ==> !s.redeem(token).has_token(token),
        s.redeem_result(token) is Err ==> s.redeem(token) == s,
        forall|x: int|
            s.has_session(x) ==> s.redeem(token).has_session(x) && s.redeem(token).capacity(x)
                == s.capacity(x),
{
    if s.redeem_result(token) is Ok {
        let request = s.request(token);
        let seat = StoreView::promoted(request);
        lemma_dequeue(s, token);
        let mid = s.dequeue(token);
        if s.redeem_result(token) != Ok::<nat, BookingError>(0) {
            lemma_same_sessions(s, mid, seat.session_id);
            assert(!mid.has_registration(seat.session_id, seat.user_id)) by {
                if mid.has_registration(seat.session_id, seat.user_id) {
                    let i = mid.registration_index(seat.session_id, seat.user_id);
                    assert(mid.is_seat(i, seat.session_id, seat.user_id));
                    assert(s.is_seat(i, seat.session_id, seat.user_id));
                }
            }
            lemma_book(mid, seat);
            let t = mid.book(seat);
            assert(!t.has_token(token)) by {
                if t.has_token(token) {
                    let i = t.request_index(token);
                    assert(mid.requests[i].token == token);
                }
            }
        }
    }
}

/// Redeeming one token twice writes at most one seat: the second
/// redemption changes nothing. After a redemption that succeeded the
/// token is spent, and the second one reports `NotFound`; after one that
/// failed the second one fails in the same way.
pub proof fn law_redeem_once(s: StoreView, token: int)
    requires
        s.wf(),
    ensures
        s.redeem(token).redeem(token).wf(),
        s.redeem(token).redeem(token) == s.redeem(token),
        s.redeem_result(token) is Ok ==> s.redeem(token).redeem_result(token) == Err::<
            nat,
            BookingError,
        >(BookingError::NotFound),
        s.redeem_result(token) is Err ==> s.redeem(token).redeem_result(token) == s.redeem_result(
            token,
        ),
{
    lemma_redeem(s, token);
}

/// A user who holds the seat already redeems with success and without
/// effect on the ledger: the request goes, no seat is written, no free seat
/// is taken.
pub proof fn law_redeem_held_seat(s: StoreView, token: int)
    requires
        s.wf(),
        s.has_token(token),
        s.has_registration(s.request(token).session_id, s.request(token).user_id),
    ensures
        s.redeem_result(token) == Ok::<nat, BookingError>(0),
        s.redeem(token).registrations == s.registrations,
        s.redeem(token).sessions == s.sessions,
        !s.redeem(token).has_token(token),
{
    let q = s.registration_index(s.request(token).session_id, s.request(token).user_id);
    assert(s.is_seat(q, s.request(token).session_id, s.request(token).user_id));
    assert(s.has_session(s.registrations[q].session_id));
    lemma_dequeue(s, token);
}

/// A pending request holds no seat: filing it, withdrawing it, sweeping it
/// away and failing to redeem it leave every session, and so every counter
/// of free seats, as it was.
pub proof fn law_request_holds_no_seat(s: StoreView, request: RequestView, now: int)
    requires
        s.wf(),
    ensures
        step(s, Operation::SubmitPending { request }).sessions == s.sessions,
        step(s, Operation::Withdraw { token: request.token }).sessions == s.sessions,
        step(s, Operation::Sweep { now }).sessions == s.sessions,
        s.redeem_result(request.token) is Err ==> s.redeem(request.token).sessions == s.sessions,
{
}

/// Booking a seat and cancelling it puts the store back as it was.
pub proof fn law_cancel_undoes_booking(s: StoreView, seat: RegistrationView)
    requires
        s.wf(),
        s.booking_refusal(seat.session_id, seat.user_id) is None,
    ensures
        s.book(seat).wf(),
        s.book(seat).has_registration(seat.session_id, seat.user_id),
        s.book(seat).release(seat.session_id, seat.user_id) == s,
{
    lemma_book(s, seat);
    let t = s.book(seat);
    let n = s.registrations.len() as int;
    assert(t.registrations[n] == seat);
    lemma_seat_at(t, n);
    let p = s.session_index(seat.session_id);
    lemma_session_at(s, p);
    lemma_session_at(t, p);
    let mid = StoreView { registrations: t.registrations.remove(n), ..t };
    assert(mid.session_index(seat.session_id) == p) by {
        assert(mid.sessions[p].id == seat.session_id);
        let j = mid.session_index(seat.session_id);
        assert(0 <= j < mid.sessions.len() && mid.sessions[j].id == seat.session_id);
        if j < p {
            assert(t.sessions[j].id != t.sessions[p].id);
        } else if p < j {
            assert(t.sessions[p].id != t.sessions[j].id);
        }
    }
    let u = t.release(seat.session_id, seat.user_id);
    assert(u.registrations =~= s.registrations);
    assert(u.sessions =~= s.sessions);
}

/// Submit, redeem, cancel is a closed cycle: where a request is filed
/// under a free token and redeemed into a seat, cancelling that seat puts
/// the store back exactly as it was before the submission. So a second
/// round of submit and redeem takes the one free seat that the first round
/// took, and no more: the counter of free seats ends where it stood after
/// the first redemption.
pub proof fn law_cancel_closes_cycle(s: StoreView, first: RequestView, second: RequestView)
    requires
        s.wf(),
        s.request_refusal(first) is None,
        s.request_refusal(second) is None,
        !s.has_registration(first.session_id, first.user_id),
        second.session_id == first.session_id,
        second.user_id == first.user_id,
    ensures
        ({
            let after_redeem = s.enqueue(first).redeem(first.token);
            let after_cancel = after_redeem.release(first.session_id, first.user_id);
            let after_second = after_cancel.enqueue(second).redeem(second.token);
            &&& s.enqueue(first).redeem_result(first.token) == Ok::<nat, BookingError>(1)
            &&& after_redeem.has_registration(first.session_id, first.user_id)
            &&& after_redeem.session(first.session_id).remaining == s.session(
                first.session_id,
            ).remaining - 1
            &&& after_cancel == s
            &&& after_second.session(first.session_id).remaining == after_redeem.session(
                first.session_id,
            ).remaining
            &&& after_second.capacity(first.session_id) == s.capacity(first.session_id)
        }),
{
    lemma_round(s, first);
    lemma_round(s, second);
    let seat = StoreView::promoted(first);
    law_cancel_undoes_booking(s, seat);
}

/// One round of submit and redeem, for a user without a seat, is the
/// direct booking of the seat.
pub proof fn lemma_round(s: StoreView, request: RequestView)
    requires
        s.wf(),
        s.request_refusal(request) is None,
        !s.has_registration(request.session_id, request.user_id),
    ensures
        s.enqueue(request).redeem_result(request.token) == Ok::<nat, BookingError>(1),
        s.enqueue(request).redeem(request.token) == s.book(StoreView::promoted(request)),
        s.booking_refusal(request.session_id, request.user_id) is None,
        s.book(StoreView::promoted(request)).session(request.session_id).remaining == s.session(
            request.session_id,
        ).remaining - 1,
        s.book(StoreView::promoted(request)).capacity(request.session_id) == s.capacity(
            request.session_id,
        ),
{
    let t = s.enqueue(request);
    lemma_enqueue(s, request);
    let n = s.requests.len() as int;
    assert(t.requests[n] == request);
    lemma_request_at(t, n);
    assert(!t.has_registration(request.session_id, request.user_id)) by {
        if t.has_registration(request.session_id, request.user_id) {
            let i = t.registration_index(request.session_id, request.user_id);
            assert(t.is_seat(i, request.session_id, request.user_id));
            assert(s.is_seat(i, request.session_id, request.user_id));
        }
    }
    let mid = t.dequeue(request.token);
    assert(mid.requests =~= s.requests);
    assert(mid == s);
    lemma_book(s, StoreView::promoted(request));
}

/// The users that a run of submissions names.
pub open spec fn users_of(seats: Seq<RegistrationView>) -> Set<int> {
    Set::new(
        |u: int| exists|i: int| 0 <= i < seats.len() && (#[trigger] seats[i]).user_id == u,
    )
}

/// The users among the submitters who hold no seat at the session yet.
pub open spec fn newcomers(s: StoreView, session_id: int, seats: Seq<RegistrationView>) -> Set<
    int,
> {
    Set::new(|u: int| users_of(seats).contains(u) && !s.has_registration(session_id, u))
}

/// How many of the submissions, applied in order, are confirmed.
pub open spec fn confirmed(s: StoreView, seats: Seq<RegistrationView>) -> nat
    decreases seats.len(),
{
    if seats.len() == 0 {
        0
    } else {
        let first = seats[0];
        if s.booking_refusal(first.session_id, first.user_id) is None {
            1 + confirmed(s.book(first), seats.drop_first())
        } else {
            confirmed(s, seats.drop_first())
        }
    }
}

/// The smaller of two numbers.
pub open spec fn least(a: int, b: int) -> int {
    if a <= b {
        a
    } else {
        b
    }
}

proof fn lemma_users_split(seats: Seq<RegistrationView>)
    requires
        seats.len() > 0,
    ensures
        forall|u: int|
            users_of(seats).contains(u) <==> u == seats[0].user_id || users_of(
                seats.drop_first(),
            ).contains(u),
{
    let rest = seats.drop_first();
    assert forall|u: int|
        users_of(seats).contains(u) <==> u == seats[0].user_id || users_of(rest).contains(
            u,
        ) by {
        if users_of(seats).contains(u) {
            let i = choose|i: int| 0 <= i < seats.len() && (#[trigger] seats[i]).user_id == u;
            if i > 0 {
                assert(rest[i - 1].user_id == u);
            }
        }
        if users_of(rest).contains(u) {
            let i = choose|i: int| 0 <= i < rest.len() && (#[trigger] rest[i]).user_id == u;
            assert(seats[i + 1].user_id == u);
        }
        if u == seats[0].user_id {
            assert(seats[0].user_id == u);
        }
    }
}

/// However direct submissions for one session are ordered, exactly as many
/// are confirmed as there are free seats, or as there are distinct users
/// among them who hold no seat yet, whichever is less.
pub proof fn law_seats_granted(s: StoreView, session_id: int, seats: Seq<RegistrationView>)
    requires
        s.wf(),
        s.has_session(session_id),
        forall|i: int| 0 <= i < seats.len() ==> (#[trigger] seats[i]).session_id == session_id,
    ensures
        newcomers(s, session_id, seats).finite(),
        confirmed(s, seats) == least(
            s.session(session_id).remaining,
            newcomers(s, session_id, seats).len() as int,
        ),
    decreases seats.len(),
{
    let now = newcomers(s, session_id, seats);
    let k = s.session_index(session_id);
    lemma_session_at(s, k);
    assert(0 <= s.sessions[k].remaining);
    if seats.len() == 0 {
        assert(now =~= Set::empty());
    } else {
        let first = seats[0];
        let rest = seats.drop_first();
        let u = first.user_id;
        lemma_users_split(seats);
        assert(first.session_id == session_id);
        assert forall|i: int| 0 <= i < rest.len() implies (#[trigger] rest[i]).session_id
            == session_id by {
            assert(rest[i] == seats[i + 1]);
        }
        if s.booking_refusal(session_id, u) is None {
            let t = s.book(first);
            lemma_book(s, first);
            law_seats_granted(t, session_id, rest);
            let later = newcomers(t, session_id, rest);
            assert(now =~= later.insert(u));
            assert(!later.contains(u));
        } else {
            law_seats_granted(s, session_id, rest);
            let later = newcomers(s, session_id, rest);
            if s.has_registration(session_id, u) {
                assert(now =~= later);
            } else {
                assert(now =~= later.insert(u));
            }
        }
    }
}

/// Where none of the submitters holds a seat at the session, exactly as
/// many submissions are confirmed as there are free seats, or as there are
/// distinct users among the submitters, whichever is less.
pub proof fn law_seats_granted_to_new_users(
    s: StoreView,
    session_id: int,
    seats: Seq<RegistrationView>,
)
    requires
        s.wf(),
        s.has_session(session_id),
        forall|i: int| 0 <= i < seats.len() ==> (#[trigger] seats[i]).session_id == session_id,
        forall|i: int|
            0 <= i < seats.len() ==> !s.has_registration(
                session_id,
                (#[trigger] seats[i]).user_id,
            ),
    ensures
        users_of(seats).finite(),
        confirmed(s, seats) == least(
            s.session(session_id).remaining,
            users_of(seats).len() as int,
        ),
{
    law_seats_granted(s, session_id, seats);
    assert(newcomers(s, session_id, seats) =~= users_of(seats)) by {
        assert forall|u: int| users_of(seats).contains(u) implies !s.has_registration(
            session_id,
            u,
        ) by {
            let i = choose|i: int| 0 <= i < seats.len() && (#[trigger] seats[i]).user_id == u;
            assert(!s.has_registration(session_id, seats[i].user_id));
        }
    }
}

} // verus!
