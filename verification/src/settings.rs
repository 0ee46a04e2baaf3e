//! The settings of the application, checked once they have been read.

use crate::aoc::{is_event_year_up_to, EventYear, MemberId, FIRST_EVENT_YEAR};
use crate::leaders::LeaderboardOrder;
use vstd::prelude::*;

verus! {

/// Seconds for which a snapshot stays fresh where the settings say nothing.
pub const DEFAULT_UPDATE_SEC: u64 = 15 * 60;

/// The settings as the configuration source holds them.
#[derive(Debug)]
pub struct RawSettings {
    pub leaderboard_name: String,
    pub leaderboard_ids: Vec<String>,
    pub leaderboard_default_order: Option<String>,
    pub leaderboard_update_sec: Option<i64>,
    pub exclude_members: Vec<MemberId>,
    pub session_cookie: String,
    pub latest_event_year: Option<i64>,
}

/// The settings of the application.
#[derive(Debug)]
pub struct AppSettings {
    pub leaderboard_name: String,
    pub leaderboard_ids: Vec<String>,
    pub leaderboard_default_order: LeaderboardOrder,
    pub leaderboard_update_sec: u64,
    pub exclude_members: Vec<MemberId>,
    pub session_cookie: String,
    pub latest_event_year: Option<EventYear>,
}

/// The policy that the settings name, the local score where they name
/// none; nothing where the name is that of no policy.
pub open spec fn chosen_order(name: Option<String>) -> Option<LeaderboardOrder> {
    match name {
        None => Some(LeaderboardOrder::LocalScore),
        Some(name) => LeaderboardOrder::named(name@),
    }
}

/// Said of settings that cannot be used, if they cannot: first of the
/// policy, then of the time a snapshot stays fresh, then of the latest
/// event year.
pub open spec fn settings_fault(raw: RawSettings) -> Option<Seq<char>> {
    if chosen_order(raw.leaderboard_default_order) is None {
        Some("invalid leaderboard_default_order"@)
    } else if raw.leaderboard_update_sec matches Some(seconds) && seconds < 0 {
        Some("leaderboard_update_sec must not be negative"@)
    } else if raw.latest_event_year matches Some(year) && !(i32::MIN <= year <= i32::MAX) {
        Some("invalid latest_event_year: out of range integral type conversion attempted"@)
    } else {
        None
    }
}

impl AppSettings {
    /// The settings that `raw` stands for, with what it leaves open filled
    /// in; or what is wrong with it.
    pub fn from_raw(raw: RawSettings) -> (checked: Result<Self, String>)
        ensures
            match checked {
                Ok(settings) => {
                    &&& settings_fault(raw) is None
                    &&& settings.leaderboard_name == raw.leaderboard_name
                    &&& settings.leaderboard_ids == raw.leaderboard_ids
                    &&& Some(settings.leaderboard_default_order) == chosen_order(
                        raw.leaderboard_default_order,
                    )
                    &&& settings.leaderboard_update_sec == match raw.leaderboard_update_sec {
                        Some(seconds) => seconds as u64,
                        None => DEFAULT_UPDATE_SEC,
                    }
                    &&& settings.exclude_members == raw.exclude_members
                    &&& settings.session_cookie == raw.session_cookie
                    &&& settings.latest_event_year == match raw.latest_event_year {
                        Some(year) => Some(year as EventYear),
                        None => None,
                    }
                },
                Err(message) => settings_fault(raw) == Some(message@),
            },
    {
        let leaderboard_default_order = match &raw.leaderboard_default_order {
            None => LeaderboardOrder::LocalScore,
            Some(name) => match LeaderboardOrder::try_from(name.as_str()) {
                Ok(order) => order,
                Err(_) => {
                    return Err("invalid leaderboard_default_order".to_string());
                },
            },
        };
        let leaderboard_update_sec = match raw.leaderboard_update_sec {
            None => DEFAULT_UPDATE_SEC,
            Some(seconds) => {
                if seconds < 0 {
                    return Err("leaderboard_update_sec must not be negative".to_string());
                }
                seconds as u64
            },
        };
        let latest_event_year = match raw.latest_event_year {
            None => None,
            Some(year) => {
                if year < i32::MIN as i64 || year > i32::MAX as i64 {
                    return Err(
                        "invalid latest_event_year: out of range integral type conversion attempted".to_string(),
                    );
                }
                Some(year as EventYear)
            },
        };
        Ok(
            Self {
                leaderboard_name: raw.leaderboard_name,
                leaderboard_ids: raw.leaderboard_ids,
                leaderboard_default_order,
                leaderboard_update_sec,
                exclude_members: raw.exclude_members,
                session_cookie: raw.session_cookie,
                latest_event_year,
            },
        )
    }

    /// The year of the event that is shown where none is asked for: the one
    /// that the settings pin, else `latest`, the latest that has begun.
    pub fn current_event_year(&self, latest: EventYear) -> (year: EventYear)
        ensures
            year == match self.latest_event_year {
                Some(pinned) => pinned,
                None => latest,
            },
    {
        match self.latest_event_year {
            Some(pinned) => pinned,
            None => latest,
        }
    }

    /// Whether `year` may be asked for: it is the year that the settings
    /// pin or that of an event up to `latest`, the latest that has begun.
    pub fn is_known_year(&self, year: EventYear, latest: EventYear) -> (known: bool)
        ensures
            known == (self.latest_event_year == Some(year) || FIRST_EVENT_YEAR <= year <= latest),
    {
        let pinned = match self.latest_event_year {
            Some(pinned) => pinned == year,
            None => false,
        };
        pinned || is_event_year_up_to(year, latest)
    }

    /// The last year in the list of events: the later of the year that the
    /// settings pin and `latest`, the latest that has begun.
    pub fn last_listed_year(&self, latest: EventYear) -> (year: EventYear)
        ensures
            year == match self.latest_event_year {
                Some(pinned) => if pinned > latest {
                    pinned
                } else {
                    latest
                },
                None => latest,
            },
    {
        match self.latest_event_year {
            Some(pinned) => if pinned > latest {
                pinned
            } else {
                latest
            },
            None => latest,
        }
    }
}

} // verus!
