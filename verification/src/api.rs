//! The entry points that the web layer calls: each takes the tables and a
//! form, applies one booking operation, and says what to tell the user and
//! which mail to send once the change is committed.

use vstd::prelude::*;
use crate::attendance::{Attendance, AttendanceLog};
use crate::error::BookingError;
use crate::forms::{AttendanceForm, RegisterForm};
use crate::model::{RegistrationView, RequestView, SessionView, StoreView};
use crate::registration::Registration;
use crate::request::{draw_tokens, token_of, Request};
use crate::session::Session;
use crate::store::Store;
use crate::text::{decimal, push_decimal};

verus! {

/// How many tokens are drawn for one submission before it is given up.
pub const TOKEN_ATTEMPTS: usize = 8;

/// The page that the user is sent to.
#[derive(Clone, Copy, Debug, PartialEq, Eq, Structural)]
pub enum Target {
    /// The user's dashboard.
    Dashboard,
    /// The attendance page of a session.
    SessionAttendance(i32),
}

/// A redirect with a message for the user.
#[derive(Clone, Debug, PartialEq, Eq)]
pub struct Flash {
    /// Whether the message reports a success.
    pub success: bool,
    /// Where the user goes next.
    pub target: Target,
    /// What the user reads there.
    pub message: String,
}

/// The mail to send once the operation is committed.
#[derive(Clone, Debug, PartialEq, Eq)]
pub enum Notice {
    /// No mail.
    Nothing,
    /// The verification mail, which carries the token of the request.
    Verification { request: Request, session: Session },
    /// The confirmation of a seat.
    Confirmation { registration: Registration, session: Session },
}

/// The mail to send, as rows of the model.
pub enum NoticeView {
    Nothing,
    Verification { request: RequestView, session: SessionView },
    Confirmation { registration: RegistrationView, session: SessionView },
}

impl View for Notice {
    type V = NoticeView;

    open spec fn view(&self) -> NoticeView {
        match self {
            Notice::Nothing => NoticeView::Nothing,
            Notice::Verification { request, session } => NoticeView::Verification {
                request: request@,
                session: session@,
            },
            Notice::Confirmation { registration, session } => NoticeView::Confirmation {
                registration: registration@,
                session: session@,
            },
        }
    }
}

/// What an entry point hands back.
#[derive(Clone, Debug, PartialEq, Eq)]
pub struct Reply {
    /// What to tell the user.
    pub flash: Flash,
    /// Which mail to send.
    pub notice: Notice,
    /// Why the operation failed, if it did.
    pub error: Option<BookingError>,
}

/// The message after a request was filed.
pub open spec fn pending_text() -> Seq<char> {
    "Successfully registered for the session, check your email to confirm it!"@
}

/// The message after a seat was booked directly.
pub open spec fn booked_text() -> Seq<char> {
    "Successfully registered for the session!"@
}

/// The message after a registration failed.
pub open spec fn refused_text() -> Seq<char> {
    "Failed to register for the session, have you already booked one?"@
}

/// The message after a token was redeemed.
pub open spec fn confirmed_text() -> Seq<char> {
    "Thanks for confirming your email, see you at the session!"@
}

/// The message after an attendance was recorded.
pub open spec fn recorded_text(user_id: int) -> Seq<char> {
    "Recorded attendance for ID: "@ + decimal(user_id)
}

/// The message after an attendance could not be recorded.
pub open spec fn unrecorded_text(user_id: int) -> Seq<char> {
    "Failed to record attendance for ID: "@ + decimal(user_id)
}

/// The token of the first draw, from the `k`-th on, that no pending request uses.
pub open spec fn first_free(s: StoreView, draws: Seq<i32>, k: int) -> Option<int>
    decreases draws.len() - k,
{
    if k < 0 || k >= draws.len() {
        None
    } else if !s.has_token(token_of(draws[k] as int)) {
        Some(token_of(draws[k] as int))
    } else {
        first_free(s, draws, k + 1)
    }
}

/// Why a submission is not filed as pending under any of the drawn tokens,
/// if it is not: the session is absent, it is full, or every token drawn is
/// in use.
pub open spec fn pending_refusal(s: StoreView, session_id: int, draws: Seq<i32>) -> Option<
    BookingError,
> {
    if !s.has_session(session_id) {
        Some(BookingError::NotFound)
    } else if s.session(session_id).remaining <= 0 {
        Some(BookingError::CapacityExhausted)
    } else if first_free(s, draws, 0) is None {
        Some(BookingError::StoreError)
    } else {
        None
    }
}

/// What submitting for an unverified user does, given the tokens drawn:
/// the request is filed under the first token that is free, no seat is
/// taken, and the verification mail is due; or nothing changes, no mail is
/// due, and the reply carries the reason.
pub open spec fn is_pending_reply(
    before: StoreView,
    after: StoreView,
    form: &RegisterForm,
    draws: Seq<i32>,
    reply: &Reply,
) -> bool {
    let refusal = pending_refusal(before, form.session_id as int, draws);
    &&& reply.error == refusal
    &&& reply.flash.target == Target::Dashboard
    &&& reply.flash.success == (refusal is None)
    &&& match refusal {
        Some(_) => {
            &&& after == before
            &&& reply.notice@ == NoticeView::Nothing
            &&& reply.flash.message@ == refused_text()
        },
        None => {
            let request = form.request_view(first_free(before, draws, 0).unwrap());
            &&& after == before.enqueue(request)
            &&& reply.notice@ == (NoticeView::Verification {
                request,
                session: before.session(form.session_id as int),
            })
            &&& reply.flash.message@ == pending_text()
        },
    }
}

/// What submitting for a verified user does: the seat is booked and the
/// confirmation is due, or nothing changes and the reply carries the reason.
pub open spec fn is_direct_reply(
    before: StoreView,
    after: StoreView,
    form: &RegisterForm,
    reply: &Reply,
) -> bool {
    let refusal = before.booking_refusal(form.session_id as int, form.user_id as int);
    &&& reply.error == refusal
    &&& reply.flash.target == Target::Dashboard
    &&& reply.flash.success == (refusal is None)
    &&& match refusal {
        Some(_) => {
            &&& after == before
            &&& reply.notice@ == NoticeView::Nothing
            &&& reply.flash.message@ == refused_text()
        },
        None => {
            &&& after == before.book(form.seat_view())
            &&& reply.notice@ == (NoticeView::Confirmation {
                registration: form.seat_view(),
                session: after.session(form.session_id as int),
            })
            &&& reply.flash.message@ == booked_text()
        },
    }
}

/// What redeeming a token does: the store moves as `redeem` says; a seat
/// that was written makes the confirmation due; a failure carries its reason.
pub open spec fn is_confirm_reply(
    before: StoreView,
    after: StoreView,
    token: int,
    reply: &Reply,
) -> bool {
    &&& after == before.redeem(token)
    &&& reply.flash.target == Target::Dashboard
    &&& match before.redeem_result(token) {
        Err(e) => {
            &&& reply.error == Some(e)
            &&& !reply.flash.success
            &&& reply.flash.message@ == e.reason_text()
            &&& reply.notice@ == NoticeView::Nothing
        },
        Ok(n) => {
            &&& reply.error is None
            &&& reply.flash.success
            &&& reply.flash.message@ == confirmed_text()
            &&& reply.notice@ == (if n == 0 {
                NoticeView::Nothing
            } else {
                NoticeView::Confirmation {
                    registration: StoreView::promoted(before.request(token)),
                    session: after.session(before.request(token).session_id),
                }
            })
        },
    }
}

fn refused(e: BookingError) -> (reply: Reply)
    ensures
        reply.error == Some(e),
        reply.flash.target == Target::Dashboard,
        !reply.flash.success,
        reply.flash.message@ == refused_text(),
        reply.notice@ == NoticeView::Nothing,
{
    Reply {
        flash: Flash {
            success: false,
            target: Target::Dashboard,
            message: "Failed to register for the session, have you already booked one?".to_owned(),
        },
        notice: Notice::Nothing,
        error: Some(e),
    }
}

/// Files the form as a pending request under the first drawn token that no
/// other request uses. No seat is taken.
pub fn submit_pending(store: &mut Store, form: &RegisterForm, draws: &Vec<i32>) -> (reply: Reply)
    requires
        old(store)@.wf(),
    ensures
        final(store)@.wf(),
        final(store)@.sessions == old(store)@.sessions,
        final(store)@.registrations == old(store)@.registrations,
        is_pending_reply(old(store)@, final(store)@, form, draws@, &reply),
{
    let session: Session = match Session::find(form.session_id, store) {
        Ok(session) => session,
        Err(e) => {
            return refused(e);
        },
    };
    if session.remaining <= 0 {
        return refused(BookingError::CapacityExhausted);
    }
    let mut k: usize = 0;
    while k < draws.len()
        invariant
            k <= draws.len(),
            store@ == old(store)@,
            store@.wf(),
            store@.has_session(form.session_id as int),
            store@.session(form.session_id as int).remaining > 0,
            session@ == store@.session(form.session_id as int),
            first_free(store@, draws@, 0) == first_free(store@, draws@, k as int),
        decreases draws.len() - k,
    {
        let request: Request = Request::with_token(form.duplicate(), draws[k]);
        match request.insert(store) {
            Ok(_) => {
                return Reply {
                    flash: Flash {
                        success: true,
                        target: Target::Dashboard,
                        message: "Successfully registered for the session, check your email to confirm it!".to_owned(),
                    },
                    notice: Notice::Verification { request, session },
                    error: None,
                };
            },
            Err(_) => {
                k += 1;
            },
        }
    }
    refused(BookingError::StoreError)
}

/// Books the seat at once, for a user who is verified.
pub fn submit_verified(store: &mut Store, form: &RegisterForm) -> (reply: Reply)
    requires
        old(store)@.wf(),
    ensures
        final(store)@.wf(),
        final(store)@.requests == old(store)@.requests,
        is_direct_reply(old(store)@, final(store)@, form, &reply),
        forall|x: int|
            old(store)@.has_session(x) ==> final(store)@.has_session(x) && final(store)@.capacity(x)
                == old(store)@.capacity(x),
{
    let registration: Registration = Registration::from(form.duplicate());
    match registration.insert(store) {
        Err(e) => refused(e),
        Ok(_) => {
            match Session::find(form.session_id, store) {
                Ok(session) => Reply {
                    flash: Flash {
                        success: true,
                        target: Target::Dashboard,
                        message: "Successfully registered for the session!".to_owned(),
                    },
                    notice: Notice::Confirmation { registration, session },
                    error: None,
                },
                Err(e) => refused(e),
            }
        },
    }
}

/// Takes a registration form. A user who is verified gets the seat at
/// once; any other user gets a pending request under a freshly drawn token
/// and a verification mail. The tokens are random: for an unverified user
/// the reply is the one that `submit_pending` gives for some draws.
pub fn register(store: &mut Store, form: &RegisterForm) -> (reply: Reply)
    requires
        old(store)@.wf(),
    ensures
        final(store)@.wf(),
        if old(store)@.is_verified(form.user_id as int) {
            is_direct_reply(old(store)@, final(store)@, form, &reply)
        } else {
            exists|draws: Seq<i32>|
                draws.len() == TOKEN_ATTEMPTS && #[trigger] is_pending_reply(
                    old(store)@,
                    final(store)@,
                    form,
                    draws,
                    &reply,
                )
        },
{
    if store.is_verified(form.user_id) {
        submit_verified(store, form)
    } else {
        let draws: Vec<i32> = draw_tokens(TOKEN_ATTEMPTS);
        submit_pending(store, form, &draws)
    }
}

/// Redeems the token of a verification link.
pub fn confirm_email(store: &mut Store, token: i32) -> (reply: Reply)
    requires
        old(store)@.wf(),
    ensures
        final(store)@.wf(),
        is_confirm_reply(old(store)@, final(store)@, token as int, &reply),
        forall|x: int|
            old(store)@.has_session(x) ==> final(store)@.has_session(x) && final(store)@.capacity(x)
                == old(store)@.capacity(x),
{
    let found: Result<Request, BookingError> = Request::find_by_token(token, store);
    match Request::verify(token, store) {
        Err(e) => Reply {
            flash: Flash { success: false, target: Target::Dashboard, message: e.reason() },
            notice: Notice::Nothing,
            error: Some(e),
        },
        Ok(n) => {
            let notice: Notice = if n == 0 {
                Notice::Nothing
            } else {
                match found {
                    Ok(request) => {
                        let registration: Registration = Registration::create(request);
                        match Session::find(registration.session_id, store) {
                            Ok(session) => Notice::Confirmation { registration, session },
                            Err(_) => Notice::Nothing,
                        }
                    },
                    Err(_) => Notice::Nothing,
                }
            };
            Reply {
                flash: Flash {
                    success: true,
                    target: Target::Dashboard,
                    message: "Thanks for confirming your email, see you at the session!".to_owned(),
                },
                notice,
                error: None,
            }
        },
    }
}

/// Records an attendance and says so; one that is on record already is
/// reported as a failure and changes nothing. Either way the user goes back
/// to the attendance page of the session.
pub fn record_attendance(log: &mut AttendanceLog, data: AttendanceForm) -> (flash: Flash)
    ensures
        flash.target == Target::SessionAttendance(data.session_id),
        flash.success == !old(log)@.contains(Attendance::spec_create(data)),
        if flash.success {
            &&& final(log)@ == old(log)@.push(Attendance::spec_create(data))
            &&& flash.message@ == recorded_text(data.user_id as int)
        } else {
            &&& final(log)@ == old(log)@
            &&& flash.message@ == unrecorded_text(data.user_id as int)
        },
        old(log)@.no_duplicates() ==> final(log)@.no_duplicates(),
{
    let row: Attendance = Attendance::create(data);
    match row.insert(log) {
        Ok(_) => {
            let mut message: String = "Recorded attendance for ID: ".to_owned();
            push_decimal(&mut message, data.user_id);
            Flash { success: true, target: Target::SessionAttendance(data.session_id), message }
        },
        Err(_) => {
            let mut message: String = "Failed to record attendance for ID: ".to_owned();
            push_decimal(&mut message, data.user_id);
            Flash { success: false, target: Target::SessionAttendance(data.session_id), message }
        },
    }
}

} // verus!
