//! Pending booking requests and the token that confirms them.

use vstd::prelude::*;
use crate::error::BookingError;
use crate::forms::RegisterForm;
use crate::model::{
    lemma_book, lemma_dequeue, lemma_enqueue, lemma_request_at, lemma_session_at,
    lemma_sweep, step, Operation, RequestView,
};
use crate::registration::Registration;
use crate::store::Store;

verus! {

/// An unverified booking, waiting for its token to be redeemed.
#[derive(Clone, Debug, PartialEq, Eq)]
pub struct Request {
    /// The session that the user asked for.
    pub session_id: i32,
    /// Who asked.
    pub user_id: i32,
    /// The user's name.
    pub name: String,
    /// Where the verification mail goes.
    pub email: String,
    /// The secret that the verification link carries. Never negative when
    /// it comes from [`Request::create`].
    pub token: i32,
}

/// The rows of a list of requests.
pub open spec fn request_views(rows: Seq<Request>) -> Seq<RequestView> {
    rows.map_values(|r: Request| r@)
}

impl View for Request {
    type V = RequestView;

    open spec fn view(&self) -> RequestView {
        RequestView {
            session_id: self.session_id as int,
            user_id: self.user_id as int,
            name: self.name@,
            email: self.email@,
            token: self.token as int,
        }
    }
}

/// The token that a random draw stands for: the draw with its sign bit
/// cleared, so that every non-negative `i32` is the token of exactly two draws.
pub open spec fn token_of(draw: int) -> int {
    if draw >= 0 {
        draw
    } else {
        draw + 0x8000_0000
    }
}

/// One draw from the thread-local generator of the `rand` crate,
/// `rand::thread_rng().gen::<i32>()`. Any `i32` may come back, so nothing is
/// claimed of the value. The generator is seeded by the operating system
/// when a thread first asks for it, and stops the thread where no seed can
/// be had.
#[verifier::external_body]
fn draw_i32() -> (draw: i32) {
    rand::Rng::gen::<i32>(&mut rand::thread_rng())
}

/// Draws `n` times from the generator. The draws are random: only their
/// number is known.
pub fn draw_tokens(n: usize) -> (draws: Vec<i32>)
    ensures
        draws.len() == n,
{
    let mut draws: Vec<i32> = Vec::new();
    while draws.len() < n
        invariant
            draws.len() <= n,
        decreases n - draws.len(),
    {
        let draw: i32 = draw_i32();
        draws.push(draw);
    }
    draws
}

impl Request {
    /// A copy of this row.
    pub fn duplicate(&self) -> (copy: Request)
        ensures
            copy == *self,
    {
        Request {
            session_id: self.session_id,
            user_id: self.user_id,
            name: self.name.clone(),
            email: self.email.clone(),
            token: self.token,
        }
    }

    /// The request that the form becomes under the token that `draw` stands for.
    pub fn with_token(data: RegisterForm, draw: i32) -> (request: Request)
        ensures
            request@ == data.request_view(token_of(draw as int)),
            0 <= request.token,
    {
        let token: i32 = if draw >= 0 {
            draw
        } else {
            (draw + i32::MAX) + 1
        };
        Request {
            session_id: data.session_id,
            user_id: data.user_id,
            name: data.name,
            email: data.email,
            token,
        }
    }

    /// The request that the form becomes under a freshly drawn token. The
    /// draw is random: the token is whatever non-negative number came out.
    pub fn create(data: RegisterForm) -> (request: Request)
        ensures
            request@ == data.request_view(request.token as int),
            0 <= request.token,
            exists|draw: i32| request.token == token_of(draw as int),
    {
        let draw: i32 = draw_i32();
        Request::with_token(data, draw)
    }

    /// Files the request as pending. The session must exist (`NotFound`)
    /// and have a free seat at this moment (`CapacityExhausted`), and the
    /// token must not be in use (`Duplicate`). No seat is taken: the
    /// sessions and the ledger stay as they are. A refusal changes nothing.
    pub fn insert(&self, store: &mut Store) -> (filed: Result<usize, BookingError>)
        requires
            old(store)@.wf(),
        ensures
            final(store)@.wf(),
            final(store)@.sessions == old(store)@.sessions,
            final(store)@.registrations == old(store)@.registrations,
            final(store)@ == step(old(store)@, Operation::SubmitPending { request: self@ }),
            match filed {
                Ok(n) => {
                    &&& n == 1
                    &&& old(store)@.request_refusal(self@) is None
                    &&& final(store)@ == old(store)@.enqueue(self@)
                },
                Err(e) => {
                    &&& old(store)@.request_refusal(self@) == Some(e)
                    &&& final(store)@ == old(store)@
                },
            },
    {
        let p: usize = match store.session_position(self.session_id) {
            Some(p) => p,
            None => {
                return Err(BookingError::NotFound);
            },
        };
        proof {
            lemma_session_at(store@, p as int);
        }
        if store.remaining_at(p) <= 0 {
            return Err(BookingError::CapacityExhausted);
        }
        if store.request_position(self.token).is_some() {
            return Err(BookingError::Duplicate);
        }
        proof {
            lemma_enqueue(store@, self@);
        }
        store.push_request(self.duplicate());
        Ok(1)
    }

    /// Every pending request, in the order in which they were filed.
    pub fn get_results(store: &Store) -> (rows: Vec<Request>)
        ensures
            request_views(rows@) == store@.requests,
    {
        let mut rows: Vec<Request> = Vec::new();
        let mut i: usize = 0;
        while i < store.requests.len()
            invariant
                i <= store.requests.len(),
                request_views(rows@) == store@.requests.take(i as int),
            decreases store.requests.len() - i,
        {
            let row: Request = store.request_at(i);
            let ghost before = rows@;
            rows.push(row);
            assert(request_views(rows@) =~= request_views(before).push(row@));
            assert(store@.requests.take(i as int).push(store@.requests[i as int])
                =~= store@.requests.take(i + 1));
            i += 1;
        }
        assert(store@.requests.take(i as int) =~= store@.requests);
        rows
    }

    /// The pending request with this token, or `NotFound`.
    pub fn find_by_token(token: i32, store: &Store) -> (found: Result<Request, BookingError>)
        requires
            store@.wf(),
        ensures
            match found {
                Ok(row) => store@.has_token(token as int) && row@ == store@.request(token as int),
                Err(e) => e == BookingError::NotFound && !store@.has_token(token as int),
            },
    {
        match store.request_position(token) {
            Some(p) => {
                proof {
                    lemma_request_at(store@, p as int);
                }
                Ok(store.request_at(p))
            },
            None => Err(BookingError::NotFound),
        }
    }

    /// Drops the pending request with this token, or reports `NotFound`.
    pub fn delete_by_token(token: i32, store: &mut Store) -> (done: Result<usize, BookingError>)
        requires
            old(store)@.wf(),
        ensures
            final(store)@.wf(),
            final(store)@.sessions == old(store)@.sessions,
            final(store)@.registrations == old(store)@.registrations,
            final(store)@ == step(old(store)@, Operation::Withdraw { token: token as int }),
            match done {
                Ok(n) => {
                    &&& n == 1
                    &&& old(store)@.has_token(token as int)
                    &&& final(store)@ == old(store)@.dequeue(token as int)
                },
                Err(e) => {
                    &&& e == BookingError::NotFound
                    &&& !old(store)@.has_token(token as int)
                    &&& final(store)@ == old(store)@
                },
            },
    {
        match store.request_position(token) {
            Some(p) => {
                proof {
                    lemma_request_at(store@, p as int);
                    lemma_dequeue(store@, token as int);
                }
                let _ = store.remove_request(p);
                Ok(1)
            },
            None => Err(BookingError::NotFound),
        }
    }

    /// Drops every pending request whose session has started by `now`, and
    /// says how many went. Requests for sessions that are still to come, or
    /// that the store does not know, stay in their order; no session and no
    /// seat is touched.
    pub fn delete_started(now: i64, store: &mut Store) -> (dropped: usize)
        requires
            old(store)@.wf(),
        ensures
            final(store)@.wf(),
            final(store)@ == old(store)@.sweep(now as int),
            final(store)@ == step(old(store)@, Operation::Sweep { now: now as int }),
            dropped == old(store)@.requests.len() - final(store)@.requests.len(),
    {
        let mut kept: Vec<Request> = Vec::new();
        let mut i: usize = 0;
        assert(request_views(kept@) =~= store@.waiting_upto(0, now as int));
        while i < store.requests.len()
            invariant
                i <= store.requests.len(),
                store@ == old(store)@,
                store@.wf(),
                request_views(kept@) == store@.waiting_upto(i as int, now as int),
            decreases store.requests.len() - i,
        {
            let started: bool = match store.session_position(store.requests[i].session_id) {
                Some(p) => {
                    proof {
                        lemma_session_at(store@, p as int);
                    }
                    store.sessions[p].start_time <= now
                },
                None => false,
            };
            if !started {
                let row: Request = store.request_at(i);
                let ghost before = kept@;
                kept.push(row);
                assert(request_views(kept@) =~= request_views(before).push(row@));
            }
            i += 1;
        }
        proof {
            lemma_sweep(store@, now as int);
        }
        let total: usize = store.requests.len();
        let left: usize = kept.len();
        store.requests = kept;
        assert(store@.requests =~= old(store)@.waiting_upto(
            old(store)@.requests.len() as int,
            now as int,
        ));
        total - left
    }

    /// Redeems a token: the pending request becomes a seat.
    ///
    /// `NotFound` where the token or its session is absent. Where the user
    /// holds the seat already, the request is dropped and `Ok(0)` says that
    /// no seat was written. Where no seat is free, `CapacityExhausted`, and
    /// the request stays so that the user can try again. Otherwise the seat
    /// is written, one free seat is taken, the request is dropped, and
    /// `Ok(1)` comes back. A failure changes nothing; pending requests of
    /// other tokens and the capacity of every session are never touched.
    pub fn verify(token: i32, store: &mut Store) -> (redeemed: Result<usize, BookingError>)
        requires
            old(store)@.wf(),
        ensures
            final(store)@.wf(),
            final(store)@ == old(store)@.redeem(token as int),
            final(store)@ == step(old(store)@, Operation::Redeem { token: token as int }),
            match redeemed {
                Ok(n) => old(store)@.redeem_result(token as int) == Ok::<nat, BookingError>(
                    n as nat,
                ),
                Err(e) => old(store)@.redeem_result(token as int) == Err::<nat, BookingError>(e),
            },
            forall|x: int|
                old(store)@.has_session(x) ==> final(store)@.has_session(x) && final(store)@.capacity(x) == old(store)@.capacity(x),
    {
        let q: usize = match store.request_position(token) {
            Some(q) => q,
            None => {
                return Err(BookingError::NotFound);
            },
        };
        proof {
            lemma_request_at(store@, q as int);
        }
        let request: Request = store.request_at(q);
        let p: usize = match store.session_position(request.session_id) {
            Some(p) => p,
            None => {
                return Err(BookingError::NotFound);
            },
        };
        proof {
            lemma_session_at(store@, p as int);
            lemma_dequeue(store@, token as int);
        }
        if store.seat_position(request.session_id, request.user_id).is_some() {
            let _ = store.remove_request(q);
            return Ok(0);
        }
        let remaining: i32 = store.remaining_at(p);
        if remaining <= 0 {
            return Err(BookingError::CapacityExhausted);
        }
        let _ = store.remove_request(q);
        let seat: Registration = Registration::create(request);
        proof {
            let mid = old(store)@.dequeue(token as int);
            assert(mid == store@);
            lemma_session_at(mid, p as int);
            assert(mid.has_registration(seat@.session_id, seat@.user_id) ==> old(store)@.has_registration(seat@.session_id, seat@.user_id)) by {
                if mid.has_registration(seat@.session_id, seat@.user_id) {
                    let i = mid.registration_index(seat@.session_id, seat@.user_id);
                    assert(mid.is_seat(i, seat@.session_id, seat@.user_id));
                    assert(old(store)@.is_seat(i, seat@.session_id, seat@.user_id));
                }
            }
            lemma_book(mid, seat@);
        }
        store.push_seat(seat);
        store.set_remaining(p, remaining - 1);
        Ok(1)
    }
}

} // verus!
