//! What the page of one year's leaderboard shows.

use crate::aoc::{
    last_unlock_day_at, unlock_day, EventYear, Score, Timestamp, EVENT_START_DAY,
    EVENT_START_MONTH, RELEASE_TIMEZONE_OFFSET,
};
use crate::clock::{
    capture_pattern, parse_rfc3339, rfc3339_instant_of, utc_text, utc_text_of, zoned_midnight_of,
    zoned_text, zoned_text_of, MAX_CALENDAR_YEAR, MIN_CALENDAR_YEAR,
};
use crate::leaders::{Leaderboard, LeaderboardOrder, ScoredMember};
use crate::settings::AppSettings;
use crate::text::{decimal_digits, decimal_text, number_column, repeat, repeated, right_aligned};
use crate::util::number_width;
use vstd::prelude::*;

verus! {

/// The instant as of which a leaderboard is asked for, with the offset from
/// UTC that the request gave it in.
#[derive(Clone, Copy, Debug)]
pub struct AsOf {
    timestamp: Timestamp,
    offset_seconds: i32,
}

impl AsOf {
    /// Seconds since the epoch.
    pub closed spec fn instant(&self) -> Timestamp {
        self.timestamp
    }

    /// Seconds east of UTC.
    pub closed spec fn offset(&self) -> i32 {
        self.offset_seconds
    }

    /// The instant that `text` names after RFC 3339, if it names one.
    pub fn parse(text: &str) -> (as_of: Option<Self>)
        ensures
            match as_of {
                Some(as_of) => rfc3339_instant_of(text@) == Some((as_of.instant(), as_of.offset())),
                None => rfc3339_instant_of(text@) is None,
            },
    {
        match parse_rfc3339(text) {
            Some((timestamp, offset_seconds)) => Some(Self { timestamp, offset_seconds }),
            None => None,
        }
    }

    /// Seconds since the epoch.
    pub fn timestamp(&self) -> (timestamp: Timestamp)
        ensures
            timestamp == self.instant(),
    {
        self.timestamp
    }

    /// Date, time and offset as the request gave them.
    pub fn to_text(&self) -> (text: Option<String>)
        ensures
            text matches Some(written) ==> zoned_text_of(self.instant(), self.offset()) == Some(
                written@,
            ),
            text is None ==> zoned_text_of(self.instant(), self.offset()) is None,
    {
        zoned_text(self.timestamp, self.offset_seconds)
    }
}

/// The numbers `1` to `count`, each set to the right of a column of
/// `width` characters.
pub open spec fn rank_column(count: nat, width: nat) -> Seq<Seq<char>> {
    Seq::new(count, |i: int| right_aligned(decimal_text(i + 1), width, " "@))
}

/// The texts of the strings in `column`.
pub open spec fn texts_of(column: Seq<String>) -> Seq<Seq<char>> {
    column.map_values(|text: String| text@)
}

/// The score of the member in first place, and zero where there is none.
pub open spec fn top_score(members: Seq<ScoredMember>) -> Score {
    if members.len() > 0 {
        members[0].score()
    } else {
        0
    }
}

/// What the page of one year's leaderboard shows.
pub struct Context {
    pub year: EventYear,
    pub as_of_str: Option<String>,
    pub leaderboard_name: String,
    pub members: Vec<ScoredMember>,
    pub leaderboard_order: LeaderboardOrder,
    pub leaderboard_default_order: LeaderboardOrder,
    pub leaderboard_update_sec: u64,
    pub updated_at_str: String,
    pub rank_str: Vec<String>,
    pub score_str: Vec<String>,
    pub table_head_pad: String,
    pub last_unlock_day: i64,
}

impl Context {
    /// The columns are laid out for the entries: every rank as wide as the
    /// last, every score as wide as that of the first place, and the head
    /// of the table indented by both.
    pub open spec fn is_laid_out(&self) -> bool {
        let rank_width = decimal_digits(self.members@.len()).len();
        let score_width = decimal_digits(top_score(self.members@) as nat).len();
        &&& texts_of(self.rank_str@) == rank_column(self.members@.len(), rank_width)
        &&& texts_of(self.score_str@) == Seq::new(
            self.members@.len(),
            |i: int| right_aligned(decimal_text(self.members@[i].score() as int), score_width, " "@),
        )
        &&& self.table_head_pad@ == repeated(" "@, rank_width + score_width)
    }

    /// What the page shows for the given standings, with the texts of the
    /// cutoff and of the capture time and the last day unlocked as given.
    pub fn build(
        settings: &AppSettings,
        year: EventYear,
        as_of_str: Option<String>,
        updated_at_str: String,
        last_unlock_day: i64,
        leaderboard: Leaderboard,
        leaderboard_order: LeaderboardOrder,
    ) -> (context: Self)
        ensures
            context.year == year,
            context.as_of_str == as_of_str,
            context.leaderboard_name@ == settings.leaderboard_name@,
            context.members@ == leaderboard.members(),
            context.leaderboard_order == leaderboard_order,
            context.leaderboard_default_order == settings.leaderboard_default_order,
            context.leaderboard_update_sec == settings.leaderboard_update_sec,
            context.updated_at_str == updated_at_str,
            context.last_unlock_day == last_unlock_day,
            context.is_laid_out(),
    {
        let members = leaderboard.get_members();
        let rank_width = number_width(members.len());
        let score_width = number_width(
            if members.len() > 0 {
                members[0].get_score()
            } else {
                0
            },
        );
        let mut rank_str: Vec<String> = Vec::new();
        let mut score_str: Vec<String> = Vec::new();
        let mut at: usize = 0;
        while at < members.len()
            invariant
                at <= members@.len(),
                rank_str@.len() == at,
                score_str@.len() == at,
                forall|i: int|
                    0 <= i < at ==> (#[trigger] rank_str@[i])@ == right_aligned(
                        decimal_text(i + 1),
                        rank_width as nat,
                        " "@,
                    ),
                forall|i: int|
                    0 <= i < at ==> (#[trigger] score_str@[i])@ == right_aligned(
                        decimal_text(members@[i].score() as int),
                        score_width as nat,
                        " "@,
                    ),
            decreases members@.len() - at,
        {
            rank_str.push(number_column(at as i128 + 1, rank_width));
            score_str.push(number_column(members[at].get_score() as i128, score_width));
            at += 1;
        }
        let table_head_pad = repeat(" ", rank_width + score_width);
        let context = Self {
            year,
            as_of_str,
            leaderboard_name: settings.leaderboard_name.clone(),
            members,
            leaderboard_order,
            leaderboard_default_order: settings.leaderboard_default_order,
            leaderboard_update_sec: settings.leaderboard_update_sec,
            updated_at_str,
            rank_str,
            score_str,
            table_head_pad,
            last_unlock_day,
        };
        proof {
            assert(texts_of(context.rank_str@) =~= rank_column(
                context.members@.len(),
                rank_width as nat,
            ));
            assert(texts_of(context.score_str@) =~= Seq::new(
                context.members@.len(),
                |i: int|
                    right_aligned(
                        decimal_text(context.members@[i].score() as int),
                        score_width as nat,
                        " "@,
                    ),
            ));
        }
        context
    }

    /// What the page shows at the instant `now` for the given standings,
    /// asked for as of `as_of`. There is nothing to show where the
    /// calendar cannot tell the capture time, the cutoff or the year.
    pub fn render(
        settings: &AppSettings,
        year: EventYear,
        as_of: Option<AsOf>,
        leaderboard: Leaderboard,
        leaderboard_order: LeaderboardOrder,
        now: Timestamp,
    ) -> (shown: Option<Self>)
        ensures
            shown is Some <==> {
                &&& MIN_CALENDAR_YEAR <= year <= MAX_CALENDAR_YEAR
                &&& utc_text_of(leaderboard.updated_at(), capture_pattern()) is Some
                &&& as_of matches Some(cutoff) ==> zoned_text_of(cutoff.instant(), cutoff.offset())
                    is Some
            },
            shown matches Some(context) ==> {
                &&& context.year == year
                &&& match as_of {
                    Some(cutoff) => context.as_of_str matches Some(text) && Some(text@)
                        == zoned_text_of(cutoff.instant(), cutoff.offset()),
                    None => context.as_of_str is None,
                }
                &&& context.leaderboard_name@ == settings.leaderboard_name@
                &&& context.members@ == leaderboard.members()
                &&& context.leaderboard_order == leaderboard_order
                &&& context.leaderboard_default_order == settings.leaderboard_default_order
                &&& context.leaderboard_update_sec == settings.leaderboard_update_sec
                &&& Some(context.updated_at_str@) == utc_text_of(
                    leaderboard.updated_at(),
                    capture_pattern(),
                )
                &&& context.last_unlock_day == unlock_day(
                    zoned_midnight_of(
                        year,
                        EVENT_START_MONTH,
                        EVENT_START_DAY,
                        RELEASE_TIMEZONE_OFFSET,
                    ),
                    now,
                )
                &&& context.is_laid_out()
            },
    {
        if year < MIN_CALENDAR_YEAR || year > MAX_CALENDAR_YEAR {
            return None;
        }
        let updated_at_str = match utc_text(leaderboard.updated_at(), "%F %T %Z") {
            Some(text) => text,
            None => {
                return None;
            },
        };
        let as_of_str = match as_of {
            Some(cutoff) => match cutoff.to_text() {
                Some(text) => Some(text),
                None => {
                    return None;
                },
            },
            None => None,
        };
        let last_unlock_day = last_unlock_day_at(year, now);
        Some(
            Self::build(
                settings,
                year,
                as_of_str,
                updated_at_str,
                last_unlock_day,
                leaderboard,
                leaderboard_order,
            ),
        )
    }
}

} // verus!
