use blackboards::error::BookingError;
use blackboards::registration::Registration;
use blackboards::request::Request;
use blackboards::forms::RegisterForm;
use blackboards::session::{Session, SessionWindow};
use blackboards::store::Store;

fn session(id: i32, title: &str, start_time: i64, remaining: i32) -> Session {
    Session { id, title: title.to_string(), start_time, remaining }
}

fn seat(session_id: i32, user_id: i32, name: &str) -> Registration {
    Registration { session_id, user_id, name: name.to_string() }
}

fn sample() -> Store {
    let mut store = Store::new();
    assert_eq!(store.add_session(session(3, "Chess", 300, 4)), Ok(1));
    assert_eq!(store.add_session(session(1, "Go", 100, 4)), Ok(1));
    assert_eq!(store.add_session(session(2, "Bridge", 300, 4)), Ok(1));
    assert_eq!(store.add_session(session(4, "Poker", 200, 4)), Ok(1));
    store
}

#[test]
fn sessions_are_listed_by_start_then_id() {
    let store = sample();
    let ids: Vec<i32> = Session::get_results(&store).iter().map(|s| s.id).collect();
    assert_eq!(ids, vec![1, 4, 2, 3]);
    assert!(Session::get_results(&Store::new()).is_empty());
}

#[test]
fn add_session_refuses_taken_ids_and_negative_seats() {
    let mut store = sample();
    assert_eq!(store.add_session(session(1, "Again", 5, 1)), Err(BookingError::Duplicate));
    assert_eq!(store.add_session(session(9, "Bad", 5, -1)), Err(BookingError::StoreError));
    assert_eq!(store.add_session(session(1, "Both", 5, -1)), Err(BookingError::Duplicate));
    assert_eq!(Session::get_results(&store).len(), 4);
    assert_eq!(store.add_session(session(9, "Empty", 5, 0)), Ok(1));
    assert_eq!(Session::get_results(&store)[0].id, 9);
}

#[test]
fn find_returns_the_row_or_not_found() {
    let store = sample();
    assert_eq!(Session::find(2, &store), Ok(session(2, "Bridge", 300, 4)));
    assert_eq!(Session::find(7, &store), Err(BookingError::NotFound));
}

#[test]
fn counter_moves_by_one() {
    let mut store = Store::new();
    assert_eq!(store.add_session(session(1, "Go", 100, 1)), Ok(1));
    assert_eq!(Session::decrement_remaining(1, &mut store), Ok(1));
    assert_eq!(Session::find(1, &store).unwrap().remaining, 0);
    assert_eq!(Session::decrement_remaining(1, &mut store), Err(BookingError::CapacityExhausted));
    assert_eq!(Session::find(1, &store).unwrap().remaining, 0);
    assert_eq!(Session::decrement_remaining(2, &mut store), Err(BookingError::NotFound));
    assert_eq!(Session::increment_remaining(1, &mut store), Ok(1));
    assert_eq!(Session::increment_remaining(1, &mut store), Ok(1));
    assert_eq!(Session::find(1, &store).unwrap().remaining, 2);
    assert_eq!(Session::increment_remaining(2, &mut store), Err(BookingError::NotFound));
}

#[test]
fn window_is_closed_below_and_open_above() {
    let window = SessionWindow { start: 100, end: 300 };
    assert!(!window.contains(99));
    assert!(window.contains(100));
    assert!(window.contains(299));
    assert!(!window.contains(300));
    assert!(!SessionWindow { start: 5, end: 5 }.contains(5));
}

#[test]
fn registration_list_is_ordered_by_start_then_session() {
    let mut store = sample();
    assert_eq!(seat(3, 10, "Ann").insert(&mut store), Ok(1));
    assert_eq!(seat(1, 11, "Bob").insert(&mut store), Ok(1));
    assert_eq!(seat(2, 10, "Ann").insert(&mut store), Ok(1));
    assert_eq!(seat(3, 12, "Cy").insert(&mut store), Ok(1));
    assert_eq!(seat(4, 13, "Di").insert(&mut store), Ok(1));
    assert_eq!(seat(2, 14, "Ed").insert(&mut store), Ok(1));

    let all = Registration::get_registration_list(&store, SessionWindow { start: 0, end: 1000 });
    let expected: Vec<(i32, i64, String, String)> = vec![
        (1, 100, "Go".to_string(), "Bob".to_string()),
        (4, 200, "Poker".to_string(), "Di".to_string()),
        (2, 300, "Bridge".to_string(), "Ann".to_string()),
        (2, 300, "Bridge".to_string(), "Ed".to_string()),
        (3, 300, "Chess".to_string(), "Ann".to_string()),
        (3, 300, "Chess".to_string(), "Cy".to_string()),
    ];
    assert_eq!(all, expected);

    let some = Registration::get_registration_list(&store, SessionWindow { start: 100, end: 300 });
    assert_eq!(some, expected[0..2].to_vec());
    let none = Registration::get_registration_list(&store, SessionWindow { start: 301, end: 900 });
    assert!(none.is_empty());
}

#[test]
fn user_bookings_are_the_sessions_with_a_seat() {
    let mut store = sample();
    assert_eq!(seat(3, 10, "Ann").insert(&mut store), Ok(1));
    assert_eq!(seat(1, 10, "Ann").insert(&mut store), Ok(1));
    assert_eq!(seat(2, 11, "Bob").insert(&mut store), Ok(1));
    let wide = SessionWindow { start: 0, end: 1000 };
    let ids: Vec<i32> =
        Registration::get_user_bookings(10, wide, &store).iter().map(|s| s.id).collect();
    assert_eq!(ids, vec![1, 3]);
    let booked = Registration::get_user_bookings(10, wide, &store);
    assert_eq!(booked[0], session(1, "Go", 100, 3));
    let late = SessionWindow { start: 101, end: 1000 };
    let ids: Vec<i32> =
        Registration::get_user_bookings(10, late, &store).iter().map(|s| s.id).collect();
    assert_eq!(ids, vec![3]);
    assert!(Registration::get_user_bookings(99, wide, &store).is_empty());
}

#[test]
fn count_is_per_session() {
    let mut store = sample();
    assert_eq!(Registration::count(1, &store), 0);
    assert_eq!(seat(1, 10, "Ann").insert(&mut store), Ok(1));
    assert_eq!(seat(1, 11, "Bob").insert(&mut store), Ok(1));
    assert_eq!(seat(2, 10, "Ann").insert(&mut store), Ok(1));
    assert_eq!(Registration::count(1, &store), 2);
    assert_eq!(Registration::count(2, &store), 1);
    assert_eq!(Registration::count(77, &store), 0);
}

#[test]
fn table_level_inserts_do_no_accounting() {
    let mut store = Store::new();
    assert_eq!(store.add_session(session(1, "Go", 100, 0)), Ok(1));
    assert_eq!(store.add_session(session(2, "Max", 100, i32::MAX)), Ok(1));
    assert_eq!(store.add_session(session(3, "Near", 100, i32::MAX - 1)), Ok(1));

    // A full session still takes a row at table level; the counter stays.
    assert_eq!(store.insert_registration(seat(1, 10, "Ann")), Ok(1));
    assert_eq!(Session::find(1, &store).unwrap().remaining, 0);
    assert_eq!(Registration::count(1, &store), 1);
    assert_eq!(store.insert_registration(seat(1, 10, "Ann")), Err(BookingError::Duplicate));
    assert_eq!(store.insert_registration(seat(8, 10, "Ann")), Err(BookingError::NotFound));
    assert_eq!(store.insert_registration(seat(2, 10, "Ann")), Err(BookingError::StoreError));
    assert_eq!(store.insert_registration(seat(3, 10, "Ann")), Ok(1));
    assert_eq!(store.insert_registration(seat(3, 11, "Bob")), Err(BookingError::StoreError));

    // A request at table level asks neither for the session nor for a seat.
    let form = RegisterForm {
        session_id: 55,
        user_id: 1,
        name: "Ann".to_string(),
        email: "a@example.org".to_string(),
    };
    assert_eq!(store.insert_request(Request::with_token(form, 4)), Ok(1));
    assert_eq!(Request::find_by_token(4, &store).unwrap().session_id, 55);
    assert_eq!(Request::verify(4, &mut store), Err(BookingError::NotFound));
    assert!(Request::find_by_token(4, &store).is_ok());
}
