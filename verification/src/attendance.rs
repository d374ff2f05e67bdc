//! Attendance records: who turned up at which session.

use vstd::prelude::*;
use crate::error::BookingError;
use crate::forms::AttendanceForm;

verus! {

/// One attendance: a user was present at a session.
#[derive(Clone, Copy, Debug, PartialEq, Eq, Structural)]
pub struct Attendance {
    /// The session that was attended.
    pub session_id: i32,
    /// Who attended.
    pub user_id: i32,
}

/// The attendance table. A user is recorded at most once per session.
pub struct AttendanceLog {
    pub(crate) rows: Vec<Attendance>,
}

impl View for AttendanceLog {
    type V = Seq<Attendance>;

    open(crate) spec fn view(&self) -> Seq<Attendance> {
        self.rows@
    }
}

impl AttendanceLog {
    /// A table without rows.
    pub fn new() -> (log: AttendanceLog)
        ensures
            log@ == Seq::<Attendance>::empty(),
    {
        AttendanceLog { rows: Vec::new() }
    }

    /// Whether the attendance is on record.
    pub fn contains(&self, row: &Attendance) -> (present: bool)
        ensures
            present == self@.contains(*row),
    {
        let mut i: usize = 0;
        while i < self.rows.len()
            invariant
                i <= self.rows.len(),
                forall|j: int| 0 <= j < i ==> self@[j] != *row,
            decreases self.rows.len() - i,
        {
            if self.rows[i].session_id == row.session_id && self.rows[i].user_id == row.user_id {
                assert(self@[i as int] == *row);
                return true;
            }
            i += 1;
        }
        false
    }

    /// The number of attendances on record.
    pub fn len(&self) -> (n: usize)
        ensures
            n == self@.len(),
    {
        self.rows.len()
    }
}

impl Attendance {
    /// The attendance that a form reports.
    pub open spec fn spec_create(data: AttendanceForm) -> Attendance {
        Attendance { session_id: data.session_id, user_id: data.user_id }
    }

    /// The attendance that a form reports.
    pub fn create(data: AttendanceForm) -> (row: Attendance)
        ensures
            row == Self::spec_create(data),
    {
        Attendance { session_id: data.session_id, user_id: data.user_id }
    }

    /// Every attendance on record, in the order in which they were recorded.
    pub fn get_results(log: &AttendanceLog) -> (rows: Vec<Attendance>)
        ensures
            rows@ == log@,
    {
        let mut rows: Vec<Attendance> = Vec::new();
        let mut i: usize = 0;
        while i < log.rows.len()
            invariant
                i <= log.rows.len(),
                rows@ == log@.take(i as int),
            decreases log.rows.len() - i,
        {
            rows.push(log.rows[i]);
            assert(log@.take(i as int).push(log@[i as int]) =~= log@.take(i + 1));
            i += 1;
        }
        assert(log@.take(i as int) =~= log@);
        rows
    }

    /// Records the attendance at the end of the table. One that is on
    /// record already is refused as `Duplicate`, and nothing changes.
    pub fn insert(&self, log: &mut AttendanceLog) -> (recorded: Result<usize, BookingError>)
        ensures
            match recorded {
                Ok(n) => n == 1 && !old(log)@.contains(*self) && final(log)@ == old(log)@.push(
                    *self,
                ),
                Err(e) => e == BookingError::Duplicate && old(log)@.contains(*self) && final(log)@
                    == old(log)@,
            },
            old(log)@.no_duplicates() ==> final(log)@.no_duplicates(),
    {
        if log.contains(self) {
            return Err(BookingError::Duplicate);
        }
        log.rows.push(*self);
        proof {
            if old(log)@.no_duplicates() {
                assert forall|i: int, j: int|
                    0 <= i < log@.len() && 0 <= j < log@.len() && i != j implies log@[i]
                    != log@[j] by {
                    if i < old(log)@.len() && j < old(log)@.len() {
                        assert(old(log)@[i] != old(log)@[j]);
                    } else if i < old(log)@.len() {
                        assert(old(log)@.contains(old(log)@[i]));
                    } else {
                        assert(old(log)@.contains(old(log)@[j]));
                    }
                }
            }
        }
        Ok(1)
    }
}

} // verus!
