use blackboards::api::{confirm_email, register, submit_pending, submit_verified, Notice, Target};
use blackboards::error::BookingError;
use blackboards::forms::{ConfirmToken, RegisterForm};
use blackboards::registration::Registration;
use blackboards::request::Request;
use blackboards::session::Session;
use blackboards::store::Store;

fn session(id: i32, start_time: i64, remaining: i32) -> Session {
    Session { id, title: format!("Session {}", id), start_time, remaining }
}

fn form(session_id: i32, user_id: i32) -> RegisterForm {
    RegisterForm {
        session_id,
        user_id,
        name: format!("User {}", user_id),
        email: format!("u{}@example.org", user_id),
    }
}

fn seat(session_id: i32, user_id: i32) -> Registration {
    Registration { session_id, user_id, name: format!("User {}", user_id) }
}

fn store_with(sessions: Vec<Session>) -> Store {
    let mut store = Store::new();
    for s in sessions {
        assert_eq!(store.add_session(s), Ok(1));
    }
    store
}

fn remaining(store: &Store, id: i32) -> i32 {
    Session::find(id, store).unwrap().remaining
}

fn capacity(store: &Store, id: i32) -> i64 {
    remaining(store, id) as i64 + Registration::count(id, store)
}

#[test]
fn direct_booking_takes_one_seat() {
    let mut store = store_with(vec![session(1, 100, 2)]);
    let s = seat(1, 7);
    assert_eq!(s.insert(&mut store), Ok(1));
    assert_eq!(remaining(&store, 1), 1);
    assert_eq!(Registration::count(1, &store), 1);
    assert!(store.is_verified(7));
    assert!(!store.is_verified(8));
}

#[test]
fn three_pending_two_seats() {
    let mut store = store_with(vec![session(1, 100, 2)]);
    let r1 = submit_pending(&mut store, &form(1, 11), &vec![101]);
    let r2 = submit_pending(&mut store, &form(1, 12), &vec![102]);
    let r3 = submit_pending(&mut store, &form(1, 13), &vec![103]);
    for r in [&r1, &r2, &r3] {
        assert!(r.flash.success);
        assert_eq!(r.error, None);
        assert!(matches!(r.notice, Notice::Verification { .. }));
    }
    assert_eq!(remaining(&store, 1), 2);
    assert_eq!(Registration::count(1, &store), 0);

    assert_eq!(Request::verify(101, &mut store), Ok(1));
    assert_eq!(remaining(&store, 1), 1);
    assert_eq!(Request::verify(102, &mut store), Ok(1));
    assert_eq!(remaining(&store, 1), 0);
    assert_eq!(Request::verify(103, &mut store), Err(BookingError::CapacityExhausted));
    assert_eq!(remaining(&store, 1), 0);
    assert_eq!(Registration::count(1, &store), 2);
    let still = Request::find_by_token(103, &store).unwrap();
    assert_eq!(still.user_id, 13);
    assert_eq!(still.session_id, 1);

    assert_eq!(Registration::cancel(11, 1, &mut store), Ok(1));
    assert_eq!(Request::verify(103, &mut store), Ok(1));
    assert_eq!(remaining(&store, 1), 0);
    assert_eq!(Request::find_by_token(103, &store), Err(BookingError::NotFound));
}

#[test]
fn verified_user_books_then_duplicate() {
    let mut store = store_with(vec![session(1, 100, 1), session(2, 200, 5)]);
    assert_eq!(seat(2, 21).insert(&mut store), Ok(1));
    assert!(store.is_verified(21));

    let first = register(&mut store, &form(1, 21));
    assert!(first.flash.success);
    assert_eq!(first.flash.target, Target::Dashboard);
    assert_eq!(first.flash.message, "Successfully registered for the session!");
    assert_eq!(first.error, None);
    match first.notice {
        Notice::Confirmation { registration, session } => {
            assert_eq!(registration, seat(1, 21));
            assert_eq!(session.id, 1);
            assert_eq!(session.remaining, 0);
        }
        other => panic!("unexpected notice {:?}", other),
    }
    assert_eq!(remaining(&store, 1), 0);

    let again = register(&mut store, &form(1, 21));
    assert!(!again.flash.success);
    assert_eq!(again.error, Some(BookingError::Duplicate));
    assert_eq!(
        again.flash.message,
        "Failed to register for the session, have you already booked one?"
    );
    assert_eq!(again.notice, Notice::Nothing);
    assert_eq!(remaining(&store, 1), 0);
    assert_eq!(Registration::count(1, &store), 1);
}

#[test]
fn duplicate_is_reported_on_a_full_session_too() {
    let mut store = store_with(vec![session(1, 100, 1)]);
    assert_eq!(seat(1, 5).insert(&mut store), Ok(1));
    assert_eq!(seat(1, 5).insert(&mut store), Err(BookingError::Duplicate));
    assert_eq!(seat(1, 6).insert(&mut store), Err(BookingError::CapacityExhausted));
    assert_eq!(seat(9, 6).insert(&mut store), Err(BookingError::NotFound));
    assert_eq!(remaining(&store, 1), 0);
    assert_eq!(Registration::count(1, &store), 1);
}

#[test]
fn cancel_gives_the_seat_back() {
    let mut store = store_with(vec![session(1, 100, 1), session(2, 200, 3)]);
    assert_eq!(seat(1, 31).insert(&mut store), Ok(1));
    assert_eq!(seat(2, 31).insert(&mut store), Ok(1));
    assert_eq!(remaining(&store, 1), 0);

    assert_eq!(Registration::cancel(31, 1, &mut store), Ok(1));
    assert_eq!(remaining(&store, 1), 1);
    assert_eq!(Registration::count(1, &store), 0);
    assert_eq!(remaining(&store, 2), 2);

    // Still verified through the seat at session 2: the direct path is taken.
    assert!(store.is_verified(31));
    let reply = register(&mut store, &form(1, 31));
    assert!(reply.flash.success);
    assert!(matches!(reply.notice, Notice::Confirmation { .. }));
    assert_eq!(remaining(&store, 1), 0);
    assert_eq!(Registration::count(1, &store), 1);
}

#[test]
fn cancel_of_the_only_seat_ends_verification() {
    let mut store = store_with(vec![session(1, 100, 1)]);
    assert_eq!(seat(1, 31).insert(&mut store), Ok(1));
    assert_eq!(Registration::cancel(31, 1, &mut store), Ok(1));
    assert!(!store.is_verified(31));
    let reply = register(&mut store, &form(1, 31));
    assert!(reply.flash.success);
    assert_eq!(
        reply.flash.message,
        "Successfully registered for the session, check your email to confirm it!"
    );
    match reply.notice {
        Notice::Verification { request, session } => {
            assert!(request.token >= 0);
            assert_eq!(request.user_id, 31);
            assert_eq!(request.email, "u31@example.org");
            assert_eq!(session.id, 1);
            assert_eq!(Request::find_by_token(request.token, &store), Ok(request));
        }
        other => panic!("unexpected notice {:?}", other),
    }
    assert_eq!(remaining(&store, 1), 1);
}

#[test]
fn cancel_without_a_seat_changes_nothing() {
    let mut store = store_with(vec![session(1, 100, 4)]);
    assert_eq!(Registration::cancel(1, 1, &mut store), Err(BookingError::NotFound));
    assert_eq!(Registration::cancel(1, 9, &mut store), Err(BookingError::NotFound));
    assert_eq!(remaining(&store, 1), 4);
}

#[test]
fn token_collision_is_refused_and_retried() {
    let mut store = store_with(vec![session(1, 100, 3)]);
    let first = Request::with_token(form(1, 41), 555);
    assert_eq!(first.insert(&mut store), Ok(1));
    let clash = Request::with_token(form(1, 42), 555);
    assert_eq!(clash.insert(&mut store), Err(BookingError::Duplicate));
    assert_eq!(store.insert_request(clash.clone()), Err(BookingError::Duplicate));
    assert_eq!(Request::find_by_token(555, &store).unwrap().user_id, 41);

    let reply = submit_pending(&mut store, &form(1, 42), &vec![555, 555, 777, 888]);
    assert!(reply.flash.success);
    match reply.notice {
        Notice::Verification { request, .. } => assert_eq!(request.token, 777),
        other => panic!("unexpected notice {:?}", other),
    }
    assert_eq!(Request::find_by_token(777, &store).unwrap().user_id, 42);
    assert_eq!(Request::find_by_token(888, &store), Err(BookingError::NotFound));
}

#[test]
fn every_token_taken_is_a_store_error() {
    let mut store = store_with(vec![session(1, 100, 3)]);
    assert_eq!(Request::with_token(form(1, 41), 5).insert(&mut store), Ok(1));
    let reply = submit_pending(&mut store, &form(1, 42), &vec![5, 5]);
    assert!(!reply.flash.success);
    assert_eq!(reply.error, Some(BookingError::StoreError));
    assert_eq!(reply.notice, Notice::Nothing);
    let none = submit_pending(&mut store, &form(1, 42), &vec![]);
    assert_eq!(none.error, Some(BookingError::StoreError));
    let missing = submit_pending(&mut store, &form(8, 42), &vec![]);
    assert_eq!(missing.error, Some(BookingError::NotFound));
}

#[test]
fn two_verified_users_race_for_the_last_seat() {
    for order in [[51, 52], [52, 51]] {
        let mut store = store_with(vec![session(1, 100, 1)]);
        let winner = submit_verified(&mut store, &form(1, order[0]));
        let loser = submit_verified(&mut store, &form(1, order[1]));
        assert!(winner.flash.success);
        assert_eq!(winner.error, None);
        assert!(!loser.flash.success);
        assert_eq!(loser.error, Some(BookingError::CapacityExhausted));
        assert_eq!(loser.notice, Notice::Nothing);
        assert_eq!(remaining(&store, 1), 0);
        assert_eq!(Registration::count(1, &store), 1);
        assert!(store.is_verified(order[0]));
        assert!(!store.is_verified(order[1]));
    }
}

#[test]
fn submissions_confirmed_are_the_lesser_of_seats_and_users() {
    // Three free seats, users 1, 2, 1, 3, 4, 2: four distinct users, three seats.
    let mut store = store_with(vec![session(1, 100, 3)]);
    let mut confirmed = 0;
    for user in [1, 2, 1, 3, 4, 2] {
        if seat(1, user).insert(&mut store).is_ok() {
            confirmed += 1;
        }
    }
    assert_eq!(confirmed, 3);
    assert_eq!(remaining(&store, 1), 0);

    // Five free seats, users 1, 1, 2: two distinct users.
    let mut store = store_with(vec![session(1, 100, 5)]);
    let mut confirmed = 0;
    for user in [1, 1, 2] {
        if seat(1, user).insert(&mut store).is_ok() {
            confirmed += 1;
        }
    }
    assert_eq!(confirmed, 2);
    assert_eq!(remaining(&store, 1), 3);
}

#[test]
fn capacity_is_conserved_along_a_run() {
    let mut store = store_with(vec![session(1, 100, 2), session(2, 50, 1)]);
    let before = [capacity(&store, 1), capacity(&store, 2)];
    assert_eq!(before, [2, 1]);
    let check = |store: &Store| {
        assert!(remaining(store, 1) >= 0);
        assert!(remaining(store, 2) >= 0);
        assert_eq!([capacity(store, 1), capacity(store, 2)], before);
    };
    let _ = Request::with_token(form(1, 1), 10).insert(&mut store);
    check(&store);
    let _ = seat(1, 2).insert(&mut store);
    check(&store);
    let _ = Request::verify(10, &mut store);
    check(&store);
    let _ = seat(1, 3).insert(&mut store);
    check(&store);
    let _ = seat(2, 3).insert(&mut store);
    check(&store);
    let _ = Registration::cancel(2, 1, &mut store);
    check(&store);
    let _ = Request::verify(10, &mut store);
    check(&store);
    let _ = Request::delete_by_token(10, &mut store);
    check(&store);
    let _ = Registration::cancel(3, 2, &mut store);
    check(&store);
    let _ = Registration::cancel(3, 2, &mut store);
    check(&store);
}

#[test]
fn redeeming_twice_writes_one_seat() {
    let mut store = store_with(vec![session(1, 100, 2)]);
    assert_eq!(Request::with_token(form(1, 61), 9).insert(&mut store), Ok(1));
    assert_eq!(Request::verify(9, &mut store), Ok(1));
    assert_eq!(Registration::count(1, &store), 1);
    assert_eq!(remaining(&store, 1), 1);
    // The token is spent: the second redemption finds nothing and changes nothing.
    assert_eq!(Request::verify(9, &mut store), Err(BookingError::NotFound));
    assert_eq!(Registration::count(1, &store), 1);
    assert_eq!(remaining(&store, 1), 1);
}

#[test]
fn redeeming_for_a_seat_already_held_succeeds_without_effect() {
    let mut store = store_with(vec![session(1, 100, 1)]);
    assert_eq!(Request::with_token(form(1, 61), 9).insert(&mut store), Ok(1));
    assert_eq!(Request::with_token(form(1, 61), 10).insert(&mut store), Ok(1));
    assert_eq!(Request::verify(9, &mut store), Ok(1));
    assert_eq!(remaining(&store, 1), 0);
    // The session is full, but the user holds the seat: success, request dropped.
    assert_eq!(Request::verify(10, &mut store), Ok(0));
    assert_eq!(Request::find_by_token(10, &store), Err(BookingError::NotFound));
    assert_eq!(Registration::count(1, &store), 1);
    assert_eq!(remaining(&store, 0 + 1), 0);
}

#[test]
fn submit_redeem_cancel_is_a_closed_cycle() {
    let mut store = store_with(vec![session(1, 100, 3)]);
    let original = remaining(&store, 1);
    assert_eq!(Request::with_token(form(1, 71), 1).insert(&mut store), Ok(1));
    assert_eq!(Request::verify(1, &mut store), Ok(1));
    let after_first = remaining(&store, 1);
    assert_eq!(after_first, original - 1);
    assert_eq!(Registration::cancel(71, 1, &mut store), Ok(1));
    assert_eq!(remaining(&store, 1), original);
    assert_eq!(Registration::count(1, &store), 0);
    assert_eq!(Request::with_token(form(1, 71), 2).insert(&mut store), Ok(1));
    assert_eq!(Request::verify(2, &mut store), Ok(1));
    assert_eq!(remaining(&store, 1), after_first);
    assert_eq!(capacity(&store, 1), original as i64);
}

#[test]
fn pending_request_never_changes_remaining() {
    let mut store = store_with(vec![session(1, 100, 1)]);
    for token in 0..5 {
        assert_eq!(Request::with_token(form(1, token), token).insert(&mut store), Ok(1));
        assert_eq!(remaining(&store, 1), 1);
    }
    assert_eq!(Request::delete_by_token(3, &mut store), Ok(1));
    assert_eq!(Request::delete_by_token(3, &mut store), Err(BookingError::NotFound));
    assert_eq!(remaining(&store, 1), 1);
    assert_eq!(Request::verify(0, &mut store), Ok(1));
    assert_eq!(Request::verify(1, &mut store), Err(BookingError::CapacityExhausted));
    assert_eq!(remaining(&store, 1), 0);
    assert!(Request::find_by_token(1, &store).is_ok());
}

#[test]
fn pending_submission_on_a_full_or_unknown_session() {
    let mut store = store_with(vec![session(1, 100, 0)]);
    let full = Request::with_token(form(1, 1), 1);
    assert_eq!(full.insert(&mut store), Err(BookingError::CapacityExhausted));
    let unknown = Request::with_token(form(2, 1), 1);
    assert_eq!(unknown.insert(&mut store), Err(BookingError::NotFound));
    assert_eq!(Request::find_by_token(1, &store), Err(BookingError::NotFound));
    let reply = register(&mut store, &form(1, 1));
    assert_eq!(reply.error, Some(BookingError::CapacityExhausted));
    assert!(!reply.flash.success);
    assert_eq!(reply.notice, Notice::Nothing);
    let reply = register(&mut store, &form(2, 1));
    assert_eq!(reply.error, Some(BookingError::NotFound));
}

#[test]
fn confirm_email_reports_each_outcome() {
    let mut store = store_with(vec![session(1, 100, 1)]);
    assert_eq!(Request::with_token(form(1, 81), 1).insert(&mut store), Ok(1));
    assert_eq!(Request::with_token(form(1, 82), 2).insert(&mut store), Ok(1));
    assert_eq!(Request::with_token(form(1, 81), 3).insert(&mut store), Ok(1));

    let ok = confirm_email(&mut store, 1);
    assert!(ok.flash.success);
    assert_eq!(ok.flash.target, Target::Dashboard);
    assert_eq!(ok.flash.message, "Thanks for confirming your email, see you at the session!");
    assert_eq!(ok.error, None);
    match ok.notice {
        Notice::Confirmation { registration, session } => {
            assert_eq!(registration, seat(1, 81));
            assert_eq!(session.remaining, 0);
        }
        other => panic!("unexpected notice {:?}", other),
    }

    let full = confirm_email(&mut store, 2);
    assert!(!full.flash.success);
    assert_eq!(full.error, Some(BookingError::CapacityExhausted));
    assert_eq!(full.flash.message, "The session has no places left.");
    assert_eq!(full.notice, Notice::Nothing);

    let held = confirm_email(&mut store, 3);
    assert!(held.flash.success);
    assert_eq!(held.error, None);
    assert_eq!(held.notice, Notice::Nothing);

    let gone = confirm_email(&mut store, 1);
    assert!(!gone.flash.success);
    assert_eq!(gone.error, Some(BookingError::NotFound));
    assert_eq!(gone.flash.message, "The session or confirmation link could not be found.");
}

#[test]
fn tokens_are_never_negative() {
    assert_eq!(Request::with_token(form(1, 1), 0).token, 0);
    assert_eq!(Request::with_token(form(1, 1), 17).token, 17);
    assert_eq!(Request::with_token(form(1, 1), i32::MAX).token, i32::MAX);
    assert_eq!(Request::with_token(form(1, 1), -1).token, i32::MAX);
    assert_eq!(Request::with_token(form(1, 1), i32::MIN).token, 0);
    assert_eq!(Request::with_token(form(1, 1), i32::MIN + 5).token, 5);
    for _ in 0..64 {
        let request = Request::create(form(3, 4));
        assert!(request.token >= 0);
        assert_eq!(request.session_id, 3);
        assert_eq!(request.user_id, 4);
        assert_eq!(request.name, "User 4");
        assert_eq!(request.email, "u4@example.org");
    }
    assert_eq!(blackboards::request::draw_tokens(5).len(), 5);
}

#[test]
fn promotion_and_conversion_keep_the_fields() {
    let request = Request::with_token(form(4, 9), 12);
    assert_eq!(Registration::create(request), seat(4, 9));
    assert_eq!(Registration::from(form(4, 9)), seat(4, 9));
}

#[test]
fn reasons_are_worded_for_the_user() {
    assert_eq!(
        BookingError::NotFound.reason(),
        "The session or confirmation link could not be found."
    );
    assert_eq!(BookingError::CapacityExhausted.reason(), "The session has no places left.");
    assert_eq!(BookingError::Duplicate.reason(), "You have already booked this session.");
    assert_eq!(
        BookingError::StoreError.reason(),
        "The booking could not be saved, please try again."
    );
}

#[test]
fn requests_for_started_sessions_are_swept() {
    let mut store = store_with(vec![session(1, 100, 2), session(2, 200, 2), session(3, 300, 2)]);
    for (token, session_id) in [(1, 3), (2, 1), (3, 2), (4, 1), (5, 3)] {
        assert_eq!(Request::with_token(form(session_id, token), token).insert(&mut store), Ok(1));
    }
    assert_eq!(store.insert_request(Request::with_token(form(9, 6), 6)), Ok(1));
    assert_eq!(Request::delete_started(99, &mut store), 0);
    assert_eq!(Request::get_results(&store).len(), 6);
    assert_eq!(Request::delete_started(200, &mut store), 3);
    let left: Vec<i32> = Request::get_results(&store).iter().map(|r| r.token).collect();
    assert_eq!(left, vec![1, 5, 6]);
    assert_eq!(remaining(&store, 1), 2);
    assert_eq!(remaining(&store, 2), 2);
    assert_eq!(Request::delete_started(i64::MAX, &mut store), 2);
    let left: Vec<i32> = Request::get_results(&store).iter().map(|r| r.token).collect();
    assert_eq!(left, vec![6]);
    assert_eq!(Registration::get_results(&store), vec![]);
    assert_eq!(seat(2, 8).insert(&mut store), Ok(1));
    assert_eq!(Registration::get_results(&store), vec![seat(2, 8)]);
}

#[test]
fn confirmation_links_carry_the_token_in_decimal() {
    assert_eq!(ConfirmToken { token: 0 }.path(), "/session/confirm/0");
    assert_eq!(ConfirmToken { token: 90210 }.path(), "/session/confirm/90210");
    assert_eq!(ConfirmToken { token: i32::MAX }.path(), "/session/confirm/2147483647");
}
