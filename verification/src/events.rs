//! What the page that lists the events shows.

use crate::aoc::{EventYear, FIRST_EVENT_YEAR};
use crate::settings::AppSettings;
use vstd::prelude::*;

verus! {

/// The years of the events up to that of `latest`, the latest first.
pub open spec fn event_years(latest: EventYear) -> Seq<EventYear> {
    Seq::new(
        if latest < FIRST_EVENT_YEAR {
            0nat
        } else {
            (latest - FIRST_EVENT_YEAR + 1) as nat
        },
        |i: int| (latest - i) as EventYear,
    )
}

/// What the page that lists the events shows.
pub struct Context {
    pub year: EventYear,
    pub events: Vec<EventYear>,
}

impl Context {
    /// The list of events as shown beside the event of `year`, where
    /// `latest` is the latest event that has begun: the events up to the
    /// later of `latest` and the year that the settings pin.
    pub fn build(settings: &AppSettings, year: EventYear, latest: EventYear) -> (context: Self)
        ensures
            context.year == year,
            context.events@ == event_years(
                match settings.latest_event_year {
                    Some(pinned) => if pinned > latest {
                        pinned
                    } else {
                        latest
                    },
                    None => latest,
                },
            ),
    {
        let last = settings.last_listed_year(latest);
        let mut events: Vec<EventYear> = Vec::new();
        let mut next: EventYear = last;
        while next >= FIRST_EVENT_YEAR
            invariant
                FIRST_EVENT_YEAR - 1 <= next <= last || events@.len() == 0 && next == last,
                events@.len() == last - next,
                forall|i: int| 0 <= i < events@.len() ==> events@[i] == last - i,
            decreases next - FIRST_EVENT_YEAR + 1,
        {
            events.push(next);
            next = next - 1;
        }
        proof {
            assert(events@ =~= event_years(last));
        }
        Self { year, events }
    }
}

} // verus!
