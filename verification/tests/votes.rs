use std::collections::HashMap;

use blackboards::api::{record_attendance, Target};
use blackboards::attendance::{Attendance, AttendanceLog};
use blackboards::error::BookingError;
use blackboards::forms::AttendanceForm;
use blackboards::vote::{entries_of, Ballots, Candidate, Nomination, Vote};

fn vote(user_id: i32, position_id: i32, candidate_id: i32, ranking: i32) -> Vote {
    Vote { user_id, position_id, candidate_id, ranking }
}

#[test]
fn a_vote_is_keyed_by_user_position_and_candidate() {
    let mut ballots = Ballots::new();
    assert_eq!(vote(1, 1, 5, 1).insert(&mut ballots), Ok(1));
    assert_eq!(vote(1, 1, 5, 2).insert(&mut ballots), Err(BookingError::Duplicate));
    assert_eq!(vote(1, 2, 5, 1).insert(&mut ballots), Ok(1));
    assert_eq!(vote(2, 1, 5, 1).insert(&mut ballots), Ok(1));
    assert_eq!(vote(1, 1, 6, 1).insert(&mut ballots), Ok(1));
    assert_eq!(
        Vote::get_results(&ballots),
        vec![vote(1, 1, 5, 1), vote(1, 2, 5, 1), vote(2, 1, 5, 1), vote(1, 1, 6, 1)]
    );
    assert_eq!(Vote::from((3, 4, 5, 6)), vote(4, 3, 5, 6));
}

#[test]
fn a_ballot_replaces_the_users_votes_for_the_position() {
    let mut ballots = Ballots::new();
    for v in [vote(1, 1, 5, 1), vote(2, 1, 5, 1), vote(1, 1, 6, 2), vote(1, 2, 7, 1)] {
        assert_eq!(v.insert(&mut ballots), Ok(1));
    }
    let mut map: HashMap<i32, i32> = HashMap::new();
    map.insert(1, 8);
    map.insert(2, 5);
    map.insert(3, 9);
    assert_eq!(Vote::insert_all(1, 1, &map, &mut ballots), Ok(3));
    let all = Vote::get_results(&ballots);
    assert_eq!(all.len(), 5);
    assert_eq!(all[0..2].to_vec(), vec![vote(2, 1, 5, 1), vote(1, 2, 7, 1)]);
    let mut cast = all[2..].to_vec();
    cast.sort_by_key(|v| v.ranking);
    assert_eq!(cast, vec![vote(1, 1, 8, 1), vote(1, 1, 5, 2), vote(1, 1, 9, 3)]);

    // An empty map clears the ballot.
    assert_eq!(Vote::insert_all(1, 1, &HashMap::new(), &mut ballots), Ok(0));
    assert_eq!(Vote::get_results(&ballots), vec![vote(2, 1, 5, 1), vote(1, 2, 7, 1)]);
}

#[test]
fn a_candidate_with_two_rankings_is_refused() {
    let mut ballots = Ballots::new();
    assert_eq!(vote(1, 1, 5, 1).insert(&mut ballots), Ok(1));
    let mut map: HashMap<i32, i32> = HashMap::new();
    map.insert(1, 8);
    map.insert(2, 9);
    map.insert(3, 8);
    assert_eq!(Vote::insert_all(1, 1, &map, &mut ballots), Err(BookingError::Duplicate));
    assert_eq!(Vote::get_results(&ballots), vec![vote(1, 1, 5, 1)]);
}

#[test]
fn the_rows_of_a_map_are_each_listed_once() {
    let mut map: HashMap<i32, i32> = HashMap::new();
    for k in 0..50 {
        map.insert(k, k * k);
    }
    let mut pairs = entries_of(&map);
    pairs.sort();
    assert_eq!(pairs, (0..50).map(|k| (k, k * k)).collect::<Vec<(i32, i32)>>());
}

#[test]
fn the_current_ballot_names_candidates_best_rank_first() {
    let mut ballots = Ballots::new();
    for v in [
        vote(1, 1, 30, 3),
        vote(1, 1, 10, 1),
        vote(2, 1, 20, 1),
        vote(1, 1, 20, 2),
        vote(1, 2, 10, 1),
        vote(1, 1, 40, 0),
        vote(1, 1, 50, 2),
        vote(1, 1, 60, 1),
    ] {
        assert_eq!(v.insert(&mut ballots), Ok(1));
    }
    let nominations: Vec<Nomination> = [10, 20, 30, 50, 60]
        .iter()
        .map(|&user_id| Nomination { position_id: 1, user_id })
        .chain([Nomination { position_id: 2, user_id: 40 }])
        .collect();
    let candidates: Vec<Candidate> = [(10, "Ann"), (20, "Bob"), (30, "Cy"), (40, "Di"), (50, "Ed"), (20, "Other")]
        .iter()
        .map(|&(user_id, name)| Candidate { user_id, name: name.to_string() })
        .collect();
    // 40 does not stand for position 1; 60 has no name; 20 and 50 share rank 2, in table order.
    assert_eq!(
        Vote::get_current_ballot(1, 1, &ballots, &nominations, &candidates),
        Some(vec!["Ann".to_string(), "Bob".to_string(), "Ed".to_string(), "Cy".to_string()])
    );
    assert_eq!(
        Vote::get_current_ballot(2, 1, &ballots, &nominations, &candidates),
        Some(vec!["Bob".to_string()])
    );
    assert_eq!(Vote::get_current_ballot(1, 2, &ballots, &nominations, &candidates), None);
    assert_eq!(Vote::get_current_ballot(3, 1, &ballots, &nominations, &candidates), None);
}

#[test]
fn attendance_is_recorded_once() {
    let mut log = AttendanceLog::new();
    let form = AttendanceForm { session_id: 4, user_id: 1234567 };
    let first = record_attendance(&mut log, form);
    assert!(first.success);
    assert_eq!(first.target, Target::SessionAttendance(4));
    assert_eq!(first.message, "Recorded attendance for ID: 1234567");
    assert_eq!(log.len(), 1);
    assert!(log.contains(&Attendance { session_id: 4, user_id: 1234567 }));

    let second = record_attendance(&mut log, form);
    assert!(!second.success);
    assert_eq!(second.target, Target::SessionAttendance(4));
    assert_eq!(second.message, "Failed to record attendance for ID: 1234567");
    assert_eq!(log.len(), 1);

    assert_eq!(Attendance::create(form), Attendance { session_id: 4, user_id: 1234567 });
    assert_eq!(Attendance::create(form).insert(&mut log), Err(BookingError::Duplicate));
}

#[test]
fn ids_are_written_in_decimal() {
    for (id, text) in [
        (0, "0"),
        (7, "7"),
        (10, "10"),
        (-1, "-1"),
        (-120, "-120"),
        (i32::MAX, "2147483647"),
        (i32::MIN, "-2147483648"),
    ] {
        let mut log = AttendanceLog::new();
        let flash = record_attendance(&mut log, AttendanceForm { session_id: 1, user_id: id });
        assert_eq!(flash.message, format!("Recorded attendance for ID: {}", text));
        assert_eq!(flash.message, format!("Recorded attendance for ID: {}", id));
    }
}
