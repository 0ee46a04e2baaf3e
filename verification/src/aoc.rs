//! Member records of one event year and the puzzle calendar they refer to.

use crate::clock::{
    is_year_month, read_clock, zoned_midnight, zoned_midnight_of, zoned_year_month,
    zoned_year_month_of, MAX_CALENDAR_YEAR, MIN_CALENDAR_YEAR,
};
use crate::text::{decimal_string, decimal_text, joined};
use std::collections::HashSet;
use vstd::prelude::*;
use vstd::string::StringExecFns;
use vstd::set_lib::{lemma_int_range, lemma_len_subset, lemma_map_size, set_int_range};

verus! {

pub type EventYear = i32;

pub type MemberId = i32;

pub type PuzzleDay = u8;

pub type PuzzlePart = u8;

pub type PuzzleId = (PuzzleDay, PuzzlePart);

/// Seconds since the Unix epoch.
pub type Timestamp = i64;

pub type CompletionLevel = u8;

pub type Score = usize;

pub const FIRST_EVENT_YEAR: EventYear = 2015;

pub const NUM_PUZZLE_DAYS: PuzzleDay = 25;

pub const NUM_PUZZLE_PARTS: PuzzlePart = 2;

/// Month and day on which an event begins.
pub const EVENT_START_MONTH: u32 = 12;

pub const EVENT_START_DAY: u32 = 1;

/// Offset from UTC, in seconds, of the zone in which puzzles are released.
pub const RELEASE_TIMEZONE_OFFSET: i32 = -5 * 3600;

pub const SECONDS_PER_DAY: i64 = 86_400;

/// Number of puzzles in one event year.
pub const NUM_PUZZLES: usize = 50;

/// The latest event that has begun in a given month of a given year: that
/// year's from its starting month on, before that the event of the year
/// before.
pub open spec fn event_year_in(year: i32, month: u32) -> int {
    if month < EVENT_START_MONTH {
        year - 1
    } else {
        year as int
    }
}

/// The latest event that has begun by the instant `now`, going by the date
/// in the zone of release.
pub open spec fn latest_event_year_by(now: Timestamp) -> Option<int> {
    match zoned_year_month_of(now, RELEASE_TIMEZONE_OFFSET) {
        Some((year, month)) => Some(event_year_in(year, month)),
        None => None,
    }
}

/// The day of an event whose puzzle was unlocked last by the instant `now`,
/// for an event that begins at `start`: none before the start, then one
/// more with each full day, up to the last day of the event.
pub open spec fn unlock_day(start: Option<Timestamp>, now: Timestamp) -> int {
    match start {
        Some(start) => if now >= start {
            let day = 1 + (now - start) / (SECONDS_PER_DAY as int);
            if day < NUM_PUZZLE_DAYS {
                day
            } else {
                NUM_PUZZLE_DAYS as int
            }
        } else {
            0
        },
        None => 0,
    }
}

/// The latest event that has begun in a given month of a given year.
pub fn event_year_of(year: i32, month: u32) -> (latest: EventYear)
    requires
        is_year_month(year, month),
    ensures
        latest == event_year_in(year, month),
{
    if month < EVENT_START_MONTH {
        year - 1
    } else {
        year
    }
}

/// The latest event that has begun by the instant `now`, and nothing for an
/// instant beyond the calendar.
pub fn latest_event_year_at(now: Timestamp) -> (latest: Option<EventYear>)
    ensures
        latest matches Some(year) ==> latest_event_year_by(now) == Some(year as int),
        latest matches Some(year) ==> MIN_CALENDAR_YEAR - 2 <= year <= MAX_CALENDAR_YEAR + 1,
        latest is None ==> latest_event_year_by(now) is None,
{
    match zoned_year_month(now, RELEASE_TIMEZONE_OFFSET) {
        Some((year, month)) => Some(event_year_of(year, month)),
        None => None,
    }
}

/// The latest event that has begun by now, going by the clock.
pub fn latest_event_year() -> (latest: EventYear)
    ensures
        MIN_CALENDAR_YEAR - 2 <= latest <= MAX_CALENDAR_YEAR + 1,
{
    let (_, year, month) = read_clock(RELEASE_TIMEZONE_OFFSET);
    event_year_of(year, month)
}

/// Whether `year` is the year of an event, the latest being that of
/// `latest`.
pub fn is_event_year_up_to(year: EventYear, latest: EventYear) -> (valid: bool)
    ensures
        valid == (FIRST_EVENT_YEAR <= year <= latest),
{
    year >= FIRST_EVENT_YEAR && year <= latest
}

/// Whether `year` is the year of an event that has begun by now: the
/// answer of [`is_event_year_by`] for the instant that the clock shows.
pub fn is_valid_event_year(year: EventYear) -> (valid: bool)
    ensures
        exists|now: Timestamp| valid == #[trigger] is_event_year_by(year, now),
        valid ==> FIRST_EVENT_YEAR <= year <= MAX_CALENDAR_YEAR + 1,
{
    let (now, _, _) = read_clock(RELEASE_TIMEZONE_OFFSET);
    let valid = match latest_event_year_at(now) {
        Some(latest) => is_event_year_up_to(year, latest),
        None => false,
    };
    assert(valid == is_event_year_by(year, now));
    valid
}

/// Whether `year` is the year of an event that has begun by the instant
/// `now`: not before the first event, and not after the latest event that
/// has begun by then. No year is, for an instant beyond the calendar.
pub open spec fn is_event_year_by(year: EventYear, now: Timestamp) -> bool {
    latest_event_year_by(now) matches Some(latest) && FIRST_EVENT_YEAR <= year <= latest
}

/// The day whose puzzle was unlocked last by `now`, for an event that
/// begins at `start`.
pub fn unlock_day_since(start: Option<Timestamp>, now: Timestamp) -> (day: i64)
    ensures
        day == unlock_day(start, now),
        0 <= day <= NUM_PUZZLE_DAYS,
{
    match start {
        Some(start) => {
            if now >= start {
                let elapsed: i128 = now as i128 - start as i128;
                let day: i128 = 1 + elapsed / (SECONDS_PER_DAY as i128);
                if day < NUM_PUZZLE_DAYS as i128 {
                    day as i64
                } else {
                    NUM_PUZZLE_DAYS as i64
                }
            } else {
                0
            }
        },
        None => 0,
    }
}

/// The day of the event of `year` whose puzzle was unlocked last by the
/// instant `now`; zero before the event begins.
pub fn last_unlock_day_at(year: EventYear, now: Timestamp) -> (day: i64)
    requires
        MIN_CALENDAR_YEAR <= year <= MAX_CALENDAR_YEAR,
    ensures
        day == unlock_day(
            zoned_midnight_of(year, EVENT_START_MONTH, EVENT_START_DAY, RELEASE_TIMEZONE_OFFSET),
            now,
        ),
        0 <= day <= NUM_PUZZLE_DAYS,
{
    let start = zoned_midnight(year, EVENT_START_MONTH, EVENT_START_DAY, RELEASE_TIMEZONE_OFFSET);
    unlock_day_since(start, now)
}

/// The day of the event of `year` whose puzzle was unlocked last by now.
pub fn last_unlock_day(year: EventYear) -> (day: i64)
    requires
        MIN_CALENDAR_YEAR <= year <= MAX_CALENDAR_YEAR,
    ensures
        0 <= day <= NUM_PUZZLE_DAYS,
        exists|now: Timestamp|
            day == #[trigger] unlock_day(
                zoned_midnight_of(
                    year,
                    EVENT_START_MONTH,
                    EVENT_START_DAY,
                    RELEASE_TIMEZONE_OFFSET,
                ),
                now,
            ),
{
    let (now, _, _) = read_clock(RELEASE_TIMEZONE_OFFSET);
    last_unlock_day_at(year, now)
}

/// A puzzle identifier names a day of the event and one of its parts.
pub open spec fn is_puzzle_id(puzzle_id: PuzzleId) -> bool {
    &&& 1 <= puzzle_id.0 <= NUM_PUZZLE_DAYS
    &&& 1 <= puzzle_id.1 <= NUM_PUZZLE_PARTS
}

/// Position of a puzzle in calendar order, counted from zero.
pub open spec fn puzzle_slot(puzzle_id: PuzzleId) -> int {
    (puzzle_id.0 - 1) * NUM_PUZZLE_PARTS + (puzzle_id.1 - 1)
}

/// The puzzle at a position of the calendar; the inverse of [`puzzle_slot`].
pub open spec fn puzzle_at(slot: int) -> PuzzleId {
    ((slot / 2 + 1) as u8, (slot % 2 + 1) as u8)
}

/// Whether a completion at `timestamp` has happened by the cutoff `as_of`.
/// Without a cutoff every completion counts.
pub open spec fn visible(timestamp: Timestamp, as_of: Option<Timestamp>) -> bool {
    match as_of {
        Some(cutoff) => timestamp <= cutoff,
        None => true,
    }
}

/// Executable form of [`is_puzzle_id`].
pub fn check_puzzle_id(puzzle_id: PuzzleId) -> (ok: bool)
    ensures
        ok == is_puzzle_id(puzzle_id),
{
    1 <= puzzle_id.0 && puzzle_id.0 <= NUM_PUZZLE_DAYS && 1 <= puzzle_id.1 && puzzle_id.1
        <= NUM_PUZZLE_PARTS
}

/// Executable form of [`visible`].
pub fn is_visible(timestamp: Timestamp, as_of: Option<Timestamp>) -> (shown: bool)
    ensures
        shown == visible(timestamp, as_of),
{
    match as_of {
        Some(cutoff) => timestamp <= cutoff,
        None => true,
    }
}

fn slot_of(puzzle_id: PuzzleId) -> (slot: usize)
    requires
        is_puzzle_id(puzzle_id),
    ensures
        slot == puzzle_slot(puzzle_id),
        slot < NUM_PUZZLES,
        puzzle_at(slot as int) == puzzle_id,
{
    let day: usize = puzzle_id.0 as usize;
    let part: usize = puzzle_id.1 as usize;
    (day - 1) * 2 + (part - 1)
}

/// The puzzle at a position of the calendar.
pub fn puzzle_of(slot: usize) -> (puzzle_id: PuzzleId)
    requires
        slot < NUM_PUZZLES,
    ensures
        puzzle_id == puzzle_at(slot as int),
        is_puzzle_id(puzzle_id),
        puzzle_slot(puzzle_id) == slot,
{
    ((slot / 2 + 1) as u8, (slot % 2 + 1) as u8)
}

/// The calendar positions and the puzzle identifiers correspond one to one.
pub proof fn lemma_puzzle_slots()
    ensures
        forall|p: PuzzleId| #[trigger]
            is_puzzle_id(p) ==> 0 <= puzzle_slot(p) < NUM_PUZZLES && puzzle_at(puzzle_slot(p))
                == p,
        forall|slot: int|
            0 <= slot < NUM_PUZZLES ==> is_puzzle_id(#[trigger] puzzle_at(slot)) && puzzle_slot(
                puzzle_at(slot),
            ) == slot,
{
}

/// The puzzles of one event year.
pub open spec fn all_puzzles() -> Set<PuzzleId> {
    Set::new(|p: PuzzleId| is_puzzle_id(p))
}

/// An event year has finitely many puzzles, one per calendar position.
pub proof fn lemma_all_puzzles()
    ensures
        all_puzzles().finite(),
        all_puzzles().len() == NUM_PUZZLES,
{
    let slots = set_int_range(0, NUM_PUZZLES as int);
    lemma_int_range(0, NUM_PUZZLES as int);
    let to_puzzle = |slot: int| puzzle_at(slot);
    lemma_puzzle_slots();
    assert forall|p: PuzzleId| all_puzzles().contains(p) implies exists|slot: int|
        slots.contains(slot) && to_puzzle(slot) == p by {
        assert(slots.contains(puzzle_slot(p)));
    }
    assert(slots.map(to_puzzle) =~= all_puzzles());
    slots.lemma_map_finite(to_puzzle);
    assert forall|a: int, b: int| to_puzzle(a) == to_puzzle(b) && slots.contains(a)
        && slots.contains(b) implies a == b by {
        assert(puzzle_slot(puzzle_at(a)) == a);
        assert(puzzle_slot(puzzle_at(b)) == b);
    }
    lemma_map_size(slots, all_puzzles(), to_puzzle);
}

/// One participant of an event year: identity, display name and the time at
/// which each puzzle was completed.
#[derive(Debug)]
pub struct Member {
    id: MemberId,
    name: String,
    /// Completion time per puzzle, in calendar order.
    completed: [Option<Timestamp>; NUM_PUZZLES],
}

impl Member {
    /// The member's identity.
    pub closed spec fn id(&self) -> MemberId {
        self.id
    }

    /// The member's display name.
    pub closed spec fn name(&self) -> Seq<char> {
        self.name@
    }

    /// The completion time of each puzzle the member has solved.
    pub closed spec fn completed(&self) -> Map<PuzzleId, Timestamp> {
        Map::new(
            |p: PuzzleId| is_puzzle_id(p) && self.completed@[puzzle_slot(p)] is Some,
            |p: PuzzleId| self.completed@[puzzle_slot(p)]->0,
        )
    }

    /// Whether the member has solved `puzzle_id` by the cutoff.
    pub open spec fn finished(&self, puzzle_id: PuzzleId, as_of: Option<Timestamp>) -> bool {
        self.completed().contains_key(puzzle_id) && visible(self.completed()[puzzle_id], as_of)
    }

    /// The puzzles the member has solved by the cutoff.
    pub open spec fn finished_puzzles(&self, as_of: Option<Timestamp>) -> Set<PuzzleId> {
        Set::new(|p: PuzzleId| self.finished(p, as_of))
    }

    /// The puzzles of `day` that the member has solved by the cutoff.
    pub open spec fn finished_on(&self, day: PuzzleDay, as_of: Option<Timestamp>) -> Set<
        PuzzleId,
    > {
        self.finished_puzzles(as_of).filter(|p: PuzzleId| p.0 == day)
    }

    /// Whether `timestamp` is the latest completion visible at the cutoff.
    pub open spec fn is_latest(&self, as_of: Option<Timestamp>, timestamp: Timestamp) -> bool {
        &&& exists|p: PuzzleId| self.finished(p, as_of) && self.completed()[p] == timestamp
        &&& forall|p: PuzzleId| self.finished(p, as_of) ==> self.completed()[p] <= timestamp
    }

    /// The time of the latest completion visible at the cutoff, and zero for a
    /// member with none.
    pub open spec fn last_star(&self, as_of: Option<Timestamp>) -> Timestamp {
        if exists|p: PuzzleId| self.finished(p, as_of) {
            choose|timestamp: Timestamp| self.is_latest(as_of, timestamp)
        } else {
            0
        }
    }

    /// The puzzles solved by the cutoff among the first `slots` of the calendar.
    pub open spec fn finished_before(&self, as_of: Option<Timestamp>, slots: int) -> Set<
        PuzzleId,
    > {
        Set::new(|p: PuzzleId| self.finished(p, as_of) && puzzle_slot(p) < slots)
    }

    /// Only puzzles of the calendar are ever recorded, so the record is finite.
    pub proof fn lemma_completed_domain(&self)
        ensures
            self.completed().dom().finite(),
            self.completed().dom().len() <= NUM_PUZZLES,
            forall|p: PuzzleId| self.completed().contains_key(p) ==> is_puzzle_id(p),
    {
        lemma_all_puzzles();
        assert(self.completed().dom().subset_of(all_puzzles()));
        lemma_len_subset(self.completed().dom(), all_puzzles());
    }

    /// A member has solved at most as many puzzles as the year has.
    pub proof fn lemma_finished_puzzles(&self, as_of: Option<Timestamp>)
        ensures
            self.finished_puzzles(as_of).finite(),
            self.finished_puzzles(as_of).len() <= NUM_PUZZLES,
            self.finished_puzzles(as_of).subset_of(self.completed().dom()),
    {
        lemma_all_puzzles();
        assert(self.finished_puzzles(as_of).subset_of(all_puzzles()));
        lemma_len_subset(self.finished_puzzles(as_of), all_puzzles());
    }

    /// The latest visible completion is unique, so [`Member::last_star`] is it.
    pub proof fn lemma_last_star(&self, as_of: Option<Timestamp>, timestamp: Timestamp)
        requires
            self.is_latest(as_of, timestamp),
        ensures
            self.last_star(as_of) == timestamp,
    {
        let chosen = choose|t: Timestamp| self.is_latest(as_of, t);
        assert(self.is_latest(as_of, chosen));
    }

    /// Display name given to a member whose record carries none.
    pub open spec fn anonymous_name(id: MemberId) -> Seq<char> {
        "anonymous user #"@ + decimal_text(id as int)
    }

    pub fn new(id: MemberId, opt_name: Option<String>) -> (member: Self)
        ensures
            member.id() == id,
            member.name() == match opt_name {
                Some(name) => name@,
                None => Self::anonymous_name(id),
            },
            member.completed() == Map::<PuzzleId, Timestamp>::empty(),
    {
        let name = match opt_name {
            Some(name) => name,
            None => {
                let digits = decimal_string(id as i128);
                joined("anonymous user #", digits.as_str())
            },
        };
        let member = Member { id, name, completed: [None;NUM_PUZZLES] };
        assert(member.completed() =~= Map::<PuzzleId, Timestamp>::empty());
        member
    }

    pub fn get_id(&self) -> (id: MemberId)
        ensures
            id == self.id(),
    {
        self.id
    }

    pub fn get_name(&self) -> (name: &String)
        ensures
            name@ == self.name(),
    {
        &self.name
    }

    /// The completion time of `puzzle_id`, if the member has solved it.
    pub fn completed_at(&self, puzzle_id: PuzzleId) -> (timestamp: Option<Timestamp>)
        ensures
            timestamp == if self.completed().contains_key(puzzle_id) {
                Some(self.completed()[puzzle_id])
            } else {
                None
            },
    {
        if check_puzzle_id(puzzle_id) {
            self.completed[slot_of(puzzle_id)]
        } else {
            None
        }
    }

    /// Stars per day of the event at the cutoff: entry `d` counts the parts
    /// of day `d + 1` solved by then.
    pub fn get_stars(&self, as_of: Option<Timestamp>) -> (stars: Vec<CompletionLevel>)
        ensures
            stars@.len() == NUM_PUZZLE_DAYS,
            forall|d: int|
                0 <= d < NUM_PUZZLE_DAYS ==> #[trigger] stars@[d] == self.finished_on(
                    (d + 1) as u8,
                    as_of,
                ).len(),
    {
        let mut stars: Vec<CompletionLevel> = Vec::new();
        let mut day: u8 = 1;
        while day <= NUM_PUZZLE_DAYS
            invariant
                1 <= day <= NUM_PUZZLE_DAYS + 1,
                stars@.len() == day - 1,
                forall|d: int|
                    0 <= d < day - 1 ==> #[trigger] stars@[d] == self.finished_on(
                        (d + 1) as u8,
                        as_of,
                    ).len(),
            decreases NUM_PUZZLE_DAYS + 1 - day,
        {
            let mut level: CompletionLevel = 0;
            let mut part: u8 = 1;
            assert(self.finished_on(day, as_of).filter(|p: PuzzleId| p.1 < part) =~= Set::empty());
            while part <= NUM_PUZZLE_PARTS
                invariant
                    1 <= day <= NUM_PUZZLE_DAYS,
                    1 <= part <= NUM_PUZZLE_PARTS + 1,
                    self.finished_on(day, as_of).filter(|p: PuzzleId| p.1 < part).finite(),
                    level == self.finished_on(day, as_of).filter(|p: PuzzleId| p.1 < part).len(),
                    level < part,
                decreases NUM_PUZZLE_PARTS + 1 - part,
            {
                let ghost before = self.finished_on(day, as_of).filter(|p: PuzzleId| p.1 < part);
                let ghost after = self.finished_on(day, as_of).filter(
                    |p: PuzzleId| p.1 < part + 1,
                );
                let solved = match self.completed[slot_of((day, part))] {
                    Some(timestamp) => is_visible(timestamp, as_of),
                    None => false,
                };
                if solved {
                    assert(after =~= before.insert((day, part)));
                    level += 1;
                } else {
                    assert(after =~= before);
                }
                part += 1;
            }
            proof {
                self.lemma_finished_puzzles(as_of);
                assert(self.finished_on(day, as_of).filter(|p: PuzzleId| p.1 < part)
                    =~= self.finished_on(day, as_of));
            }
            stars.push(level);
            day += 1;
        }
        stars
    }

    /// Time of the member's latest star at the cutoff, zero without any.
    pub fn get_last_star(&self, as_of: Option<Timestamp>) -> (timestamp: Timestamp)
        ensures
            timestamp == self.last_star(as_of),
            self.finished_puzzles(as_of).is_empty() ==> timestamp == 0,
            !self.finished_puzzles(as_of).is_empty() ==> self.is_latest(as_of, timestamp),
    {
        let mut latest: Option<Timestamp> = None;
        let mut slot: usize = 0;
        while slot < NUM_PUZZLES
            invariant
                slot <= NUM_PUZZLES,
                latest is None ==> self.finished_before(as_of, slot as int) =~= Set::empty(),
                latest matches Some(t) ==> {
                    &&& exists|p: PuzzleId| #[trigger]
                        self.finished_before(as_of, slot as int).contains(p)
                            && self.completed()[p] == t
                    &&& forall|p: PuzzleId| #[trigger]
                        self.finished_before(as_of, slot as int).contains(p)
                            ==> self.completed()[p] <= t
                },
            decreases NUM_PUZZLES - slot,
        {
            let ghost puzzle = puzzle_at(slot as int);
            let ghost before = self.finished_before(as_of, slot as int);
            let ghost after = self.finished_before(as_of, slot + 1);
            let ghost earlier = latest;
            proof {
                lemma_puzzle_slots();
                assert forall|p: PuzzleId| after.contains(p) implies before.contains(p) || p
                    == puzzle by {
                    assert(is_puzzle_id(p));
                }
                if earlier is Some {
                    let witness = choose|p: PuzzleId| #[trigger]
                        before.contains(p) && self.completed()[p] == earlier->0;
                    assert(after.contains(witness));
                }
            }
            let shown = match self.completed[slot] {
                Some(timestamp) => is_visible(timestamp, as_of),
                None => false,
            };
            if shown {
                let timestamp = self.completed[slot].unwrap();
                assert(after.contains(puzzle) && self.completed()[puzzle] == timestamp);
                match latest {
                    Some(t) => {
                        if timestamp > t {
                            latest = Some(timestamp);
                        }
                    },
                    None => {
                        latest = Some(timestamp);
                    },
                }
            } else {
                assert(after =~= before);
            }
            slot += 1;
        }
        proof {
            self.lemma_completed_domain();
            assert(self.finished_before(as_of, NUM_PUZZLES as int) =~= self.finished_puzzles(
                as_of,
            ));
        }
        match latest {
            Some(timestamp) => {
                proof {
                    let witness = choose|p: PuzzleId| #[trigger]
                        self.finished_before(as_of, NUM_PUZZLES as int).contains(p)
                            && self.completed()[p] == timestamp;
                    assert(self.finished(witness, as_of));
                    assert(self.finished_puzzles(as_of).contains(witness));
                    assert forall|p: PuzzleId| self.finished(p, as_of) implies self.completed()[p]
                        <= timestamp by {
                        assert(self.finished_before(as_of, NUM_PUZZLES as int).contains(p));
                    }
                    self.lemma_last_star(as_of, timestamp);
                }
                timestamp
            },
            None => {
                proof {
                    if exists|p: PuzzleId| self.finished(p, as_of) {
                        let p = choose|p: PuzzleId| self.finished(p, as_of);
                        assert(self.finished_puzzles(as_of).contains(p));
                    }
                }
                0
            },
        }
    }

    /// Number of stars the member holds at the cutoff.
    pub fn star_count(&self, as_of: Option<Timestamp>) -> (count: Score)
        ensures
            count == self.finished_puzzles(as_of).len(),
            count <= NUM_PUZZLES,
    {
        let mut count: Score = 0;
        let mut slot: usize = 0;
        assert(self.finished_before(as_of, 0) =~= Set::empty());
        while slot < NUM_PUZZLES
            invariant
                slot <= NUM_PUZZLES,
                count <= slot,
                self.finished_before(as_of, slot as int).finite(),
                count == self.finished_before(as_of, slot as int).len(),
            decreases NUM_PUZZLES - slot,
        {
            proof {
                lemma_puzzle_slots();
            }
            let solved = match self.completed[slot] {
                Some(timestamp) => is_visible(timestamp, as_of),
                None => false,
            };
            if solved {
                assert(self.finished_before(as_of, slot + 1) =~= self.finished_before(
                    as_of,
                    slot as int,
                ).insert(puzzle_at(slot as int)));
                count += 1;
            } else {
                assert(self.finished_before(as_of, slot + 1) =~= self.finished_before(
                    as_of,
                    slot as int,
                ));
            }
            slot += 1;
        }
        proof {
            self.lemma_completed_domain();
            assert(self.finished_before(as_of, NUM_PUZZLES as int) =~= self.finished_puzzles(
                as_of,
            ));
        }
        count
    }

    /// The recorded completions in calendar order.
    pub fn iter_completed(&self) -> (entries: Vec<(PuzzleId, Timestamp)>)
        ensures
            entries@.len() == self.completed().dom().len(),
            forall|k: int|
                0 <= k < entries@.len() ==> self.completed().contains_key(
                    (#[trigger] entries@[k]).0,
                ) && self.completed()[entries@[k].0] == entries@[k].1,
            forall|j: int, k: int|
                0 <= j < k < entries@.len() ==> puzzle_slot(entries@[j].0) < puzzle_slot(
                    entries@[k].0,
                ),
            forall|p: PuzzleId|
                self.completed().contains_key(p) ==> exists|k: int|
                    0 <= k < entries@.len() && (#[trigger] entries@[k]).0 == p,
    {
        let mut entries: Vec<(PuzzleId, Timestamp)> = Vec::new();
        let mut slot: usize = 0;
        assert(self.finished_before(None, 0) =~= Set::empty());
        while slot < NUM_PUZZLES
            invariant
                slot <= NUM_PUZZLES,
                self.finished_before(None, slot as int).finite(),
                entries@.len() == self.finished_before(None, slot as int).len(),
                forall|k: int|
                    0 <= k < entries@.len() ==> self.completed().contains_key(
                        (#[trigger] entries@[k]).0,
                    ) && self.completed()[entries@[k].0] == entries@[k].1 && puzzle_slot(
                        entries@[k].0,
                    ) < slot,
                forall|j: int, k: int|
                    0 <= j < k < entries@.len() ==> puzzle_slot(entries@[j].0) < puzzle_slot(
                        entries@[k].0,
                    ),
                forall|p: PuzzleId|
                    self.completed().contains_key(p) && puzzle_slot(p) < slot ==> exists|k: int|
                        0 <= k < entries@.len() && (#[trigger] entries@[k]).0 == p,
            decreases NUM_PUZZLES - slot,
        {
            proof {
                lemma_puzzle_slots();
            }
            let ghost before = entries@;
            if let Some(timestamp) = self.completed[slot] {
                assert(self.finished_before(None, slot + 1) =~= self.finished_before(
                    None,
                    slot as int,
                ).insert(puzzle_at(slot as int)));
                entries.push((puzzle_of(slot), timestamp));
                assert forall|p: PuzzleId|
                    self.completed().contains_key(p) && puzzle_slot(p) < slot + 1 implies exists|
                    k: int,
                |
                    0 <= k < entries@.len() && (#[trigger] entries@[k]).0 == p by {
                    if puzzle_slot(p) < slot {
                        let k = choose|k: int|
                            0 <= k < before.len() && (#[trigger] before[k]).0 == p;
                        assert(entries@[k].0 == p);
                    } else {
                        assert(entries@[before.len() as int].0 == p);
                    }
                }
            } else {
                assert(self.finished_before(None, slot + 1) =~= self.finished_before(
                    None,
                    slot as int,
                ));
            }
            slot += 1;
        }
        proof {
            self.lemma_completed_domain();
            assert(self.finished_before(None, NUM_PUZZLES as int) =~= self.completed().dom());
        }
        entries
    }

    /// Records that `puzzle_id` was completed at `timestamp`. A later record
    /// for the same puzzle replaces the earlier one.
    pub fn add_star(&mut self, puzzle_id: PuzzleId, timestamp: Timestamp)
        requires
            is_puzzle_id(puzzle_id),
        ensures
            final(self).id() == old(self).id(),
            final(self).name() == old(self).name(),
            final(self).completed() == old(self).completed().insert(puzzle_id, timestamp),
    {
        let slot = slot_of(puzzle_id);
        self.completed[slot] = Some(timestamp);
        proof {
            lemma_puzzle_slots();
            assert(final(self).completed() =~= old(self).completed().insert(puzzle_id, timestamp));
        }
    }
}

/// Two records are equal when they are records of one member: equality
/// goes by the identity alone.
impl PartialEq for Member {
    fn eq(&self, other: &Self) -> (equal: bool) {
        self.id == other.id
    }
}

impl Eq for Member {

}

impl vstd::std_specs::cmp::PartialEqSpecImpl for Member {
    open spec fn obeys_eq_spec() -> bool {
        true
    }

    open spec fn eq_spec(&self, other: &Self) -> bool {
        self.id() == other.id()
    }
}

/// The identities that occur among `members`.
pub open spec fn member_ids(members: Seq<Member>) -> Set<MemberId> {
    Set::new(|id: MemberId| exists|i: int| 0 <= i < members.len() && members[i].id() == id)
}

/// No two of `members` share an identity.
pub open spec fn distinct_ids(members: Seq<Member>) -> bool {
    forall|i: int, j: int|
        0 <= i < j < members.len() ==> (#[trigger] members[i]).id() != (#[trigger] members[j]).id()
}

/// The records of several sources merged into one set of members: records
/// of excluded identities are dropped, and of several records with one
/// identity the first is kept.
pub open spec fn merged_members(all: Seq<Member>, exclude: Set<MemberId>) -> Seq<Member>
    decreases all.len(),
{
    if all.len() == 0 {
        Seq::empty()
    } else {
        let merged = merged_members(all.drop_last(), exclude);
        let last = all.last();
        if exclude.contains(last.id()) || member_ids(merged).contains(last.id()) {
            merged
        } else {
            merged.push(last)
        }
    }
}

/// What merging guarantees: one record per identity, none of an excluded
/// identity, every other identity of the input present, and each record the
/// first that the input holds for its identity.
pub proof fn lemma_merged_members(all: Seq<Member>, exclude: Set<MemberId>)
    ensures
        distinct_ids(merged_members(all, exclude)),
        merged_members(all, exclude).len() <= all.len(),
        forall|id: MemberId| #[trigger]
            member_ids(merged_members(all, exclude)).contains(id) <==> member_ids(all).contains(id)
                && !exclude.contains(id),
        forall|k: int|
            0 <= k < merged_members(all, exclude).len() ==> exists|i: int|
                0 <= i < all.len() && all[i] == #[trigger] merged_members(all, exclude)[k]
                    && forall|j: int| 0 <= j < i ==> all[j].id() != all[i].id(),
    decreases all.len(),
{
    let merged = merged_members(all, exclude);
    if all.len() > 0 {
        let front = all.drop_last();
        let before = merged_members(front, exclude);
        let last = all.last();
        lemma_merged_members(front, exclude);
        assert forall|id: MemberId| #[trigger]
            member_ids(merged).contains(id) <==> member_ids(all).contains(id) && !exclude.contains(
                id,
            ) by {
            if member_ids(merged).contains(id) {
                let k = choose|k: int| 0 <= k < merged.len() && merged[k].id() == id;
                if k < before.len() {
                    assert(before[k].id() == id);
                    assert(member_ids(before).contains(id));
                    let i = choose|i: int| 0 <= i < front.len() && front[i].id() == id;
                    assert(all[i].id() == id);
                } else {
                    assert(all[all.len() - 1].id() == id);
                }
            }
            if member_ids(all).contains(id) && !exclude.contains(id) {
                let i = choose|i: int| 0 <= i < all.len() && all[i].id() == id;
                if i < front.len() {
                    assert(front[i].id() == id);
                    assert(member_ids(front).contains(id));
                    assert(member_ids(before).contains(id));
                    let k = choose|k: int| 0 <= k < before.len() && before[k].id() == id;
                    assert(merged[k].id() == id);
                } else if member_ids(before).contains(id) {
                    let k = choose|k: int| 0 <= k < before.len() && before[k].id() == id;
                    assert(merged[k].id() == id);
                } else {
                    assert(merged[merged.len() - 1].id() == id);
                }
            }
        }
        assert forall|k: int| 0 <= k < merged.len() implies exists|i: int|
            0 <= i < all.len() && all[i] == #[trigger] merged[k] && forall|j: int|
                0 <= j < i ==> all[j].id() != all[i].id() by {
            if k < before.len() {
                assert(merged[k] == before[k]);
                let i = choose|i: int|
                    0 <= i < front.len() && front[i] == before[k] && forall|j: int|
                        0 <= j < i ==> front[j].id() != front[i].id();
                assert(all[i] == merged[k]);
                assert forall|j: int| 0 <= j < i implies all[j].id() != all[i].id() by {
                    assert(front[j].id() != front[i].id());
                }
            } else {
                let i = all.len() - 1;
                assert forall|j: int| 0 <= j < i implies all[j].id() != all[i].id() by {
                    if all[j].id() == all[i].id() {
                        assert(front[j].id() == last.id());
                        assert(member_ids(front).contains(last.id()));
                        assert(member_ids(before).contains(last.id()));
                    }
                }
            }
        }
        assert forall|i: int, j: int| 0 <= i < j < merged.len() implies (#[trigger] merged[i]).id()
            != (#[trigger] merged[j]).id() by {
            if j < before.len() {
                assert(before[i].id() != before[j].id());
            } else {
                assert(before[i].id() == merged[i].id());
                assert(member_ids(before).contains(merged[i].id()));
            }
        }
    }
}

/// Merges the records of several sources, given one after the other, into
/// one set of members.
pub fn merge_members(all: Vec<Member>, exclude: &HashSet<MemberId>) -> (merged: Vec<Member>)
    ensures
        merged@ == merged_members(all@, exclude@),
{
    broadcast use vstd::std_specs::hash::group_hash_axioms;

    let mut merged: Vec<Member> = Vec::new();
    let mut seen: HashSet<MemberId> = HashSet::new();
    for member in iter: all
        invariant
            iter.seq() == all@,
            merged@ == merged_members(all@.take(iter.index() as int), exclude@),
            seen@ == member_ids(merged@),
    {
        let ghost done = all@.take(iter.index() as int);
        let ghost next = all@.take(iter.index() + 1);
        proof {
            assert(next.drop_last() =~= done);
            assert(next.last() == member);
        }
        let id = member.get_id();
        if !exclude.contains(&id) && !seen.contains(&id) {
            let ghost before = merged@;
            seen.insert(id);
            merged.push(member);
            proof {
                assert forall|other: MemberId| seen@.contains(other) <==> member_ids(
                    merged@,
                ).contains(other) by {
                    if member_ids(merged@).contains(other) {
                        let k = choose|k: int| 0 <= k < merged@.len() && merged@[k].id() == other;
                        if k < before.len() {
                            assert(before[k].id() == other);
                        }
                    }
                    if member_ids(before).contains(other) {
                        let k = choose|k: int| 0 <= k < before.len() && before[k].id() == other;
                        assert(merged@[k].id() == other);
                    }
                    if other == id {
                        assert(merged@[before.len() as int].id() == other);
                    }
                }
                assert(seen@ =~= member_ids(merged@));
            }
        }
    }
    proof {
        assert(all@.take(all@.len() as int) =~= all@);
    }
    merged
}

/// Where the leaderboard `leaderboard_id` of the event of `year` is fetched
/// from.
pub open spec fn leaderboard_url_text(year: EventYear, leaderboard_id: Seq<char>) -> Seq<char> {
    "https://adventofcode.com/"@ + decimal_text(year as int) + "/leaderboard/private/view/"@
        + leaderboard_id + ".json"@
}

/// Where the leaderboard `leaderboard_id` of the event of `year` is fetched
/// from.
pub fn leaderboard_url(year: EventYear, leaderboard_id: &str) -> (url: String)
    ensures
        url@ == leaderboard_url_text(year, leaderboard_id@),
{
    let mut url = String::from_str("https://adventofcode.com/");
    url.append(decimal_string(year as i128).as_str());
    url.append("/leaderboard/private/view/");
    url.append(leaderboard_id);
    url.append(".json");
    url
}

/// The upstream answer could be read but does not have the expected shape.
#[derive(Debug)]
pub struct ResponseFormatError {
    error: String,
}

impl ResponseFormatError {
    /// What was wrong with the answer.
    pub closed spec fn error(&self) -> Seq<char> {
        self.error@
    }

    pub fn new(error: String) -> (err: Self)
        ensures
            err.error() == error@,
    {
        Self { error }
    }

    /// The text shown for this error.
    pub open spec fn text(&self) -> Seq<char> {
        "Response format error: "@ + self.error()
    }

    /// The text shown for this error.
    pub fn message(&self) -> (text: String)
        ensures
            text@ == self.text(),
    {
        joined("Response format error: ", self.error.as_str())
    }
}

/// Why the members of an event year could not be fetched.
#[derive(Debug)]
pub enum FetchError {
    /// The upstream source could not be reached; holds the transport's own
    /// description of the failure.
    Transport(String),
    /// The upstream source answered with something unexpected.
    ResponseFormat(ResponseFormatError),
}

/// The first failure among the answers of the sources, if any failed.
pub open spec fn first_failure(responses: Seq<Result<Vec<Member>, FetchError>>) -> Option<
    FetchError,
>
    decreases responses.len(),
{
    if responses.len() == 0 {
        None
    } else {
        match first_failure(responses.drop_last()) {
            Some(error) => Some(error),
            None => match responses.last() {
                Ok(_) => None,
                Err(error) => Some(error),
            },
        }
    }
}

/// The records of all sources that answered, one source after the other.
pub open spec fn gathered_members(responses: Seq<Result<Vec<Member>, FetchError>>) -> Seq<Member>
    decreases responses.len(),
{
    if responses.len() == 0 {
        Seq::empty()
    } else {
        gathered_members(responses.drop_last()) + match responses.last() {
            Ok(members) => members@,
            Err(_) => Seq::empty(),
        }
    }
}

/// Gathers the records that the sources of one event year answered with,
/// or gives the first failure among them.
pub fn collect_members(responses: Vec<Result<Vec<Member>, FetchError>>) -> (result: Result<
    Vec<Member>,
    FetchError,
>)
    ensures
        match result {
            Ok(all) => first_failure(responses@) is None && all@ == gathered_members(responses@),
            Err(error) => first_failure(responses@) == Some(error),
        },
{
    let mut all: Vec<Member> = Vec::new();
    for response in iter: responses
        invariant
            iter.seq() == responses@,
            first_failure(responses@.take(iter.index() as int)) is None,
            all@ == gathered_members(responses@.take(iter.index() as int)),
    {
        let ghost done = responses@.take(iter.index() as int);
        let ghost next = responses@.take(iter.index() + 1);
        proof {
            assert(next.drop_last() =~= done);
            assert(next.last() == response);
        }
        match response {
            Ok(mut members) => {
                all.append(&mut members);
            },
            Err(error) => {
                proof {
                    lemma_first_failure_stays(responses@, iter.index() + 1);
                }
                return Err(error);
            },
        }
    }
    proof {
        assert(responses@.take(responses@.len() as int) =~= responses@);
    }
    Ok(all)
}

/// A failure among the first answers is the first failure among all.
proof fn lemma_first_failure_stays(responses: Seq<Result<Vec<Member>, FetchError>>, upto: int)
    requires
        0 <= upto <= responses.len(),
        first_failure(responses.take(upto)) is Some,
    ensures
        first_failure(responses) == first_failure(responses.take(upto)),
    decreases responses.len() - upto,
{
    if upto < responses.len() {
        assert(responses.take(upto + 1).drop_last() =~= responses.take(upto));
        lemma_first_failure_stays(responses, upto + 1);
    } else {
        assert(responses.take(upto) =~= responses);
    }
}

} // verus!
