//! The taskmaster leaderboard: names with scores, replaced as a whole from
//! a text of comma-separated lines.
//!
//! The text is read as follows. White space at both ends of the text is
//! dropped. What is left is cut into lines at every line feed; a carriage
//! return just before a line feed belongs to the line ending. Each line is
//! cut into fields at every comma. The first field is the name, as it
//! stands; the second is the score, an optional sign followed by decimal
//! digits, which must fit an `i32`. Further fields are ignored. A line
//! without a second field, or with a second field that is no such number,
//! makes the whole text malformed.

use vstd::prelude::*;
use crate::text::{chars_of, string_from};

verus! {

/// Why a change to the leaderboard was refused.
#[derive(Clone, Copy, Debug, PartialEq, Eq, Structural)]
pub enum LeaderboardError {
    /// The text is not a leaderboard.
    Malformed,
    /// A name would stand twice.
    Duplicate,
}

/// One line of the leaderboard.
#[derive(Clone, Debug, PartialEq, Eq)]
pub struct TaskmasterEntry {
    /// The user's name; the key of the table.
    pub name: String,
    /// The number of points that the user has.
    pub score: i32,
}

/// One line of the leaderboard, as the model has it.
pub struct EntryView {
    pub name: Seq<char>,
    pub score: int,
}

impl View for TaskmasterEntry {
    type V = EntryView;

    open spec fn view(&self) -> EntryView {
        EntryView { name: self.name@, score: self.score as int }
    }
}

impl Default for TaskmasterEntry {
    fn default() -> (entry: TaskmasterEntry)
        ensures
            entry@ == (EntryView { name: Seq::empty(), score: 0 }),
    {
        TaskmasterEntry { name: String::new(), score: 0 }
    }
}

/// The lines that a list of entries stands for.
pub open spec fn entry_views(rows: Seq<TaskmasterEntry>) -> Seq<EntryView> {
    rows.map_values(|e: TaskmasterEntry| e@)
}

/// Whether no name stands twice.
pub open spec fn distinct_names(rows: Seq<EntryView>) -> bool {
    forall|i: int, j: int|
        0 <= i < j < rows.len() ==> (#[trigger] rows[i]).name != (#[trigger] rows[j]).name
}

/// Whether some line carries the name.
pub open spec fn has_name(rows: Seq<EntryView>, name: Seq<char>) -> bool {
    exists|i: int| 0 <= i < rows.len() && (#[trigger] rows[i]).name == name
}

/// White space, as Unicode defines it.
pub open spec fn is_space(c: char) -> bool {
    let u = c as u32;
    (9 <= u <= 13) || u == 0x20 || u == 0x85 || u == 0xA0 || u == 0x1680 || (0x2000 <= u
        <= 0x200A) || u == 0x2028 || u == 0x2029 || u == 0x202F || u == 0x205F || u == 0x3000
}

/// A decimal digit.
pub open spec fn is_digit(c: char) -> bool {
    48 <= c as u32 <= 57
}

/// The value of a digit; zero for any other character.
pub open spec fn digit_value(c: char) -> int {
    if is_digit(c) {
        (c as u32) - 48
    } else {
        0
    }
}

/// The first place at or after `i` that holds no white space.
pub open spec fn skip_spaces(s: Seq<char>, i: int) -> int
    decreases s.len() - i,
{
    if 0 <= i < s.len() && is_space(s[i]) {
        skip_spaces(s, i + 1)
    } else {
        i
    }
}

/// The end of the text before `j` once trailing white space is dropped,
/// never going below `lo`.
pub open spec fn back_spaces(s: Seq<char>, j: int, lo: int) -> int
    decreases j - lo,
{
    if lo < j <= s.len() && is_space(s[j - 1]) {
        back_spaces(s, j - 1, lo)
    } else {
        j
    }
}

/// The first place in `[i, hi)` that holds `stop`, or `hi`.
pub open spec fn scan(s: Seq<char>, i: int, hi: int, stop: char) -> int
    decreases hi - i,
{
    if i >= hi || i < 0 || i >= s.len() || s[i] == stop {
        i
    } else {
        scan(s, i + 1, hi, stop)
    }
}

/// The number that the digits in `[lo, hi)` write.
pub open spec fn digits_value(s: Seq<char>, lo: int, hi: int) -> int
    decreases hi - lo,
{
    if hi <= lo || hi > s.len() {
        0
    } else {
        digits_value(s, lo, hi - 1) * 10 + digit_value(s[hi - 1])
    }
}

/// The score that `[lo, hi)` writes: an optional sign, then one digit or
/// more, with a value that fits an `i32`.
pub open spec fn parse_score(s: Seq<char>, lo: int, hi: int) -> Option<int> {
    if !(0 <= lo < hi <= s.len()) {
        None
    } else {
        let signed = s[lo] == '-' || s[lo] == '+';
        let from = if signed {
            lo + 1
        } else {
            lo
        };
        let value = if s[lo] == '-' {
            -digits_value(s, from, hi)
        } else {
            digits_value(s, from, hi)
        };
        if from >= hi || !(forall|k: int| from <= k < hi ==> is_digit(#[trigger] s[k])) {
            None
        } else if i32::MIN <= value <= i32::MAX {
            Some(value)
        } else {
            None
        }
    }
}

/// The entry that the line `[lo, hi)` writes.
pub open spec fn parse_entry(s: Seq<char>, lo: int, hi: int) -> Option<EntryView> {
    let comma = scan(s, lo, hi, ',');
    if comma >= hi {
        None
    } else {
        match parse_score(s, comma + 1, scan(s, comma + 1, hi, ',')) {
            None => None,
            Some(score) => Some(EntryView { name: s.subrange(lo, comma), score }),
        }
    }
}

/// `rows` followed by what came after, where that was read at all.
pub open spec fn followed_by(rows: Seq<EntryView>, rest: Option<Seq<EntryView>>) -> Option<
    Seq<EntryView>,
> {
    match rest {
        None => None,
        Some(more) => Some(rows + more),
    }
}

/// Where the line that ends at the line feed `end` stops: before the
/// carriage return, where one stands just before the line feed.
pub open spec fn line_stop(s: Seq<char>, start: int, end: int, hi: int) -> int {
    if start < end < hi && s[end - 1] == '\r' {
        end - 1
    } else {
        end
    }
}

/// The entries that the lines in `[start, hi)` write.
pub open spec fn parse_lines(s: Seq<char>, start: int, hi: int) -> Option<Seq<EntryView>>
    decreases hi - start,
{
    if start >= hi || start < 0 {
        Some(Seq::empty())
    } else {
        let end = scan(s, start, hi, '\n');
        match parse_entry(s, start, line_stop(s, start, end, hi)) {
            None => None,
            Some(entry) => if end >= hi {
                Some(seq![entry])
            } else if end < start {
                None
            } else {
                followed_by(seq![entry], parse_lines(s, end + 1, hi))
            },
        }
    }
}

/// The leaderboard that a text writes, or `None` where it is malformed.
pub open spec fn parse_text(s: Seq<char>) -> Option<Seq<EntryView>> {
    let lo = skip_spaces(s, 0);
    parse_lines(s, lo, back_spaces(s, s.len() as int, lo))
}

/// The value of a run of digits is no less than the value of any of its beginnings.
pub proof fn lemma_digits_grow(s: Seq<char>, lo: int, mid: int, hi: int)
    requires
        0 <= lo <= mid <= hi <= s.len(),
    ensures
        0 <= digits_value(s, lo, mid) <= digits_value(s, lo, hi),
    decreases hi - mid, hi - lo,
{
    if mid < hi {
        lemma_digits_grow(s, lo, mid, hi - 1);
    } else if lo < mid {
        lemma_digits_grow(s, lo, mid - 1, hi - 1);
    }
}

fn is_space_char(c: char) -> (space: bool)
    ensures
        space == is_space(c),
{
    let u: u32 = c as u32;
    (9 <= u && u <= 13) || u == 0x20 || u == 0x85 || u == 0xA0 || u == 0x1680 || (0x2000 <= u
        && u <= 0x200A) || u == 0x2028 || u == 0x2029 || u == 0x202F || u == 0x205F || u
        == 0x3000
}

fn find(chars: &Vec<char>, from: usize, hi: usize, stop: char) -> (at: usize)
    requires
        from <= hi <= chars.len(),
    ensures
        at == scan(chars@, from as int, hi as int, stop),
        from <= at <= hi,
{
    let mut i: usize = from;
    while i < hi && chars[i] != stop
        invariant
            from <= i <= hi <= chars.len(),
            scan(chars@, from as int, hi as int, stop) == scan(chars@, i as int, hi as int, stop),
        decreases hi - i,
    {
        i += 1;
    }
    i
}

fn read_score(chars: &Vec<char>, lo: usize, hi: usize) -> (score: Option<i32>)
    requires
        lo <= hi <= chars.len(),
    ensures
        match score {
            Some(v) => parse_score(chars@, lo as int, hi as int) == Some(v as int),
            None => parse_score(chars@, lo as int, hi as int) is None,
        },
{
    if lo >= hi {
        return None;
    }
    let negative: bool = chars[lo] == '-';
    let from: usize = if negative || chars[lo] == '+' {
        lo + 1
    } else {
        lo
    };
    if from >= hi {
        return None;
    }
    let mut value: i64 = 0;
    let mut i: usize = from;
    while i < hi
        invariant
            lo < hi,
            negative == (chars@[lo as int] == '-'),
            from == (if chars@[lo as int] == '-' || chars@[lo as int] == '+' {
                lo + 1
            } else {
                lo as int
            }),
            from <= i <= hi <= chars.len(),
            value == digits_value(chars@, from as int, i as int),
            0 <= value <= 0x8000_0000,
            forall|k: int| from <= k < i ==> is_digit(#[trigger] chars@[k]),
        decreases hi - i,
    {
        let u: u32 = chars[i] as u32;
        if u < 48 || u > 57 {
            assert(!is_digit(chars@[i as int]));
            return None;
        }
        value = value * 10 + (u - 48) as i64;
        i += 1;
        if value > 0x8000_0000 {
            proof {
                lemma_digits_grow(chars@, from as int, i as int, hi as int);
            }
            return None;
        }
    }
    if negative {
        Some((-value) as i32)
    } else if value <= 0x7fff_ffff {
        Some(value as i32)
    } else {
        None
    }
}

fn read_entry(chars: &Vec<char>, lo: usize, hi: usize) -> (entry: Option<TaskmasterEntry>)
    requires
        lo <= hi <= chars.len(),
    ensures
        match entry {
            Some(e) => parse_entry(chars@, lo as int, hi as int) == Some(e@),
            None => parse_entry(chars@, lo as int, hi as int) is None,
        },
{
    let comma: usize = find(chars, lo, hi, ',');
    if comma >= hi {
        return None;
    }
    let end: usize = find(chars, comma + 1, hi, ',');
    match read_score(chars, comma + 1, end) {
        None => None,
        Some(score) => Some(TaskmasterEntry { name: string_from(chars, lo, comma), score }),
    }
}

/// Reads a leaderboard from its text.
pub fn parse_leaderboard(text: &str) -> (parsed: Option<Vec<TaskmasterEntry>>)
    ensures
        match parsed {
            Some(rows) => parse_text(text@) == Some(entry_views(rows@)),
            None => parse_text(text@) is None,
        },
{
    let chars: Vec<char> = chars_of(text);
    let mut lo: usize = 0;
    while lo < chars.len() && is_space_char(chars[lo])
        invariant
            lo <= chars.len(),
            skip_spaces(chars@, 0) == skip_spaces(chars@, lo as int),
        decreases chars.len() - lo,
    {
        lo += 1;
    }
    let mut hi: usize = chars.len();
    while hi > lo && is_space_char(chars[hi - 1])
        invariant
            lo <= hi <= chars.len(),
            lo == skip_spaces(chars@, 0),
            back_spaces(chars@, chars@.len() as int, lo as int) == back_spaces(
                chars@,
                hi as int,
                lo as int,
            ),
        decreases hi - lo,
    {
        hi -= 1;
    }
    let mut rows: Vec<TaskmasterEntry> = Vec::new();
    let mut start: usize = lo;
    assert(entry_views(rows@) + Seq::<EntryView>::empty() =~= Seq::<EntryView>::empty());
    while start < hi
        invariant
            lo <= start <= hi <= chars.len(),
            chars@ == text@,
            lo == skip_spaces(chars@, 0),
            hi == back_spaces(chars@, chars@.len() as int, lo as int),
            parse_lines(chars@, lo as int, hi as int) == followed_by(
                entry_views(rows@),
                parse_lines(chars@, start as int, hi as int),
            ),
        decreases hi - start,
    {
        let end: usize = find(&chars, start, hi, '\n');
        let stop: usize = if start < end && end < hi && chars[end - 1] == '\r' {
            end - 1
        } else {
            end
        };
        let entry: TaskmasterEntry = match read_entry(&chars, start, stop) {
            None => {
                return None;
            },
            Some(entry) => entry,
        };
        let ghost before = entry_views(rows@);
        let ghost shown = rows@;
        rows.push(entry);
        let next: usize = if end >= hi {
            hi
        } else {
            end + 1
        };
        proof {
            assert(entry_views(rows@) =~= before.push(entry@));
            let rest = parse_lines(chars@, next as int, hi as int);
            if end >= hi {
                assert(rest == Some(Seq::<EntryView>::empty()));
                assert(before + seq![entry@] =~= before.push(entry@) + Seq::<EntryView>::empty());
            } else if rest is Some {
                assert(before + (seq![entry@] + rest.unwrap()) =~= before.push(entry@)
                    + rest.unwrap());
            }
        }
        start = next;
    }
    assert(entry_views(rows@) + Seq::<EntryView>::empty() =~= entry_views(rows@));
    Some(rows)
}

/// The leaderboard table.
pub struct Leaderboard {
    pub(crate) entries: Vec<TaskmasterEntry>,
}

impl View for Leaderboard {
    type V = Seq<EntryView>;

    open(crate) spec fn view(&self) -> Seq<EntryView> {
        entry_views(self.entries@)
    }
}

fn holds_name(entries: &Vec<TaskmasterEntry>, upto: usize, name: &String) -> (held: bool)
    requires
        upto <= entries.len(),
    ensures
        held == has_name(entry_views(entries@).take(upto as int), name@),
{
    let mut i: usize = 0;
    while i < upto
        invariant
            i <= upto <= entries.len(),
            forall|j: int| 0 <= j < i ==> (#[trigger] entry_views(entries@)[j]).name != name@,
        decreases upto - i,
    {
        if entries[i].name == *name {
            assert(entry_views(entries@).take(upto as int)[i as int].name == name@);
            return true;
        }
        i += 1;
    }
    assert forall|j: int| 0 <= j < upto implies (#[trigger] entry_views(entries@).take(
        upto as int,
    )[j]).name != name@ by {
        assert(entry_views(entries@)[j].name != name@);
    }
    false
}

fn all_distinct(entries: &Vec<TaskmasterEntry>) -> (distinct: bool)
    ensures
        distinct == distinct_names(entry_views(entries@)),
{
    let ghost rows = entry_views(entries@);
    let mut j: usize = 0;
    while j < entries.len()
        invariant
            j <= entries.len(),
            rows == entry_views(entries@),
            forall|a: int, b: int|
                0 <= a < b < j ==> (#[trigger] rows[a]).name != (#[trigger] rows[b]).name,
        decreases entries.len() - j,
    {
        if holds_name(entries, j, &entries[j].name) {
            proof {
                let a = choose|a: int|
                    0 <= a < rows.take(j as int).len() && (#[trigger] rows.take(j as int)[a]).name
                        == entries[j as int].name@;
                assert(rows[a].name == rows[j as int].name);
            }
            return false;
        }
        proof {
            assert forall|a: int| 0 <= a < j implies (#[trigger] rows[a]).name != rows[j as int].name by {
                assert(rows.take(j as int)[a].name == rows[a].name);
            }
        }
        j += 1;
    }
    true
}

impl Leaderboard {
    /// A leaderboard without lines.
    pub fn new() -> (board: Leaderboard)
        ensures
            board@ == Seq::<EntryView>::empty(),
    {
        let board = Leaderboard { entries: Vec::new() };
        assert(board@ =~= Seq::<EntryView>::empty());
        board
    }
}

impl TaskmasterEntry {
    /// A copy of this line.
    pub fn duplicate(&self) -> (copy: TaskmasterEntry)
        ensures
            copy == *self,
    {
        TaskmasterEntry { name: self.name.clone(), score: self.score }
    }

    /// Adds the line at the end of the leaderboard. A name that stands
    /// there already is refused as `Duplicate`, and nothing changes.
    pub fn insert(&self, board: &mut Leaderboard) -> (added: Result<usize, LeaderboardError>)
        ensures
            match added {
                Ok(n) => n == 1 && !has_name(old(board)@, self.name@) && final(board)@ == old(board)@.push(self@),
                Err(e) => e == LeaderboardError::Duplicate && has_name(old(board)@, self.name@)
                    && final(board)@ == old(board)@,
            },
            distinct_names(old(board)@) ==> distinct_names(final(board)@),
    {
        assert(board@.take(board@.len() as int) =~= board@);
        if holds_name(&board.entries, board.entries.len(), &self.name) {
            return Err(LeaderboardError::Duplicate);
        }
        board.entries.push(self.duplicate());
        assert(board@ =~= old(board)@.push(self@));
        Ok(1)
    }

    /// Every line of the leaderboard, in table order.
    pub fn get_results(board: &Leaderboard) -> (rows: Vec<TaskmasterEntry>)
        ensures
            entry_views(rows@) == board@,
    {
        let mut rows: Vec<TaskmasterEntry> = Vec::new();
        let mut i: usize = 0;
        while i < board.entries.len()
            invariant
                i <= board.entries.len(),
                entry_views(rows@) == board@.take(i as int),
            decreases board.entries.len() - i,
        {
            let row: TaskmasterEntry = board.entries[i].duplicate();
            let ghost before = rows@;
            rows.push(row);
            assert(entry_views(rows@) =~= entry_views(before).push(row@));
            assert(board@.take(i as int).push(board@[i as int]) =~= board@.take(i + 1));
            i += 1;
        }
        assert(board@.take(i as int) =~= board@);
        rows
    }

    /// Replaces the whole leaderboard by the one that the text writes, and
    /// says how many lines it has now. A text that is malformed, or that
    /// gives one name twice, changes nothing: the leaderboard is either the
    /// old one or the new one, never a mixture.
    pub fn update_all(leaderboard: &str, board: &mut Leaderboard) -> (updated: Result<
        usize,
        LeaderboardError,
    >)
        ensures
            match parse_text(leaderboard@) {
                None => updated == Err::<usize, LeaderboardError>(LeaderboardError::Malformed)
                    && final(board)@ == old(board)@,
                Some(rows) => if distinct_names(rows) {
                    updated == Ok::<usize, LeaderboardError>(rows.len() as usize) && final(board)@
                        == rows
                } else {
                    updated == Err::<usize, LeaderboardError>(LeaderboardError::Duplicate)
                        && final(board)@ == old(board)@
                },
            },
            distinct_names(old(board)@) ==> distinct_names(final(board)@),
    {
        let rows: Vec<TaskmasterEntry> = match parse_leaderboard(leaderboard) {
            None => {
                return Err(LeaderboardError::Malformed);
            },
            Some(rows) => rows,
        };
        if !all_distinct(&rows) {
            return Err(LeaderboardError::Duplicate);
        }
        let n: usize = rows.len();
        board.entries = rows;
        Ok(n)
    }
}

} // verus!
