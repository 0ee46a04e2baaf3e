//! What the page of the standings over all years shows.

use crate::aoc::{EventYear, Score};
use crate::clock::{capture_pattern, utc_text, utc_text_of};
use crate::leaders::LeaderboardOrder;
use crate::overall::{score_of_year, OverallLeaderboard, OverallScoredMember};
use crate::settings::AppSettings;
use crate::text::{
    align_right, decimal_digits, decimal_string, decimal_text, number_column, repeat, repeated,
    right_aligned,
};
use crate::util::number_width;
use vstd::prelude::*;
use vstd::string::StringExecFns;

verus! {

/// Least width of the column of a year.
pub const MIN_COL_WIDTH: usize = 6;

/// Whether `largest` is the largest score that any of `members` has in any
/// of `years`, zero where there is no score at all.
pub open spec fn is_largest_score(
    largest: Score,
    members: Seq<OverallScoredMember>,
    years: Seq<EventYear>,
) -> bool {
    &&& forall|k: int, j: int|
        0 <= k < members.len() && 0 <= j < years.len() ==> score_of_year(
            (#[trigger] members[k]).scores(),
            (#[trigger] years[j]) as int,
        ) <= largest
    &&& largest == 0 || exists|k: int, j: int|
        0 <= k < members.len() && 0 <= j < years.len() && score_of_year(
            (#[trigger] members[k]).scores(),
            (#[trigger] years[j]) as int,
        ) == largest
}

/// Width of the column of a year: room for the largest score and two
/// blanks, and never less than the least width.
pub open spec fn column_width(largest: Score) -> nat {
    let needed = decimal_digits(largest as nat).len() + 2;
    if needed < MIN_COL_WIDTH {
        MIN_COL_WIDTH as nat
    } else {
        needed
    }
}

/// The scores of one member in the first `upto` of `years`, each set to the
/// right of a column of `width` characters, one column after the other.
pub open spec fn score_row(
    scores: Map<EventYear, Score>,
    years: Seq<EventYear>,
    upto: int,
    width: nat,
) -> Seq<char>
    decreases upto,
{
    if upto <= 0 {
        Seq::empty()
    } else {
        score_row(scores, years, upto - 1, width) + right_aligned(
            decimal_text(score_of_year(scores, years[upto - 1] as int)),
            width,
            " "@,
        )
    }
}

/// The score of the member in first place, and zero where there is none.
pub open spec fn top_overall_score(members: Seq<OverallScoredMember>) -> Score {
    if members.len() > 0 {
        members[0].overall_score()
    } else {
        0
    }
}

/// What the page of the standings over all years shows.
pub struct Context {
    pub year: EventYear,
    pub leaderboard_name: String,
    pub updated_at: String,
    pub leaderboard_update_sec: u64,
    pub leaderboard_order: LeaderboardOrder,
    pub leaderboard_default_order: LeaderboardOrder,
    pub table_head_pad: String,
    pub years: Vec<EventYear>,
    pub col_header: Vec<String>,
    pub rank: Vec<String>,
    pub overall_score: Vec<String>,
    pub scores: Vec<String>,
    pub member_name: Vec<String>,
}

impl Context {
    /// The table is laid out for `members`: one line per member with its
    /// rank, its overall score, its score in each year and its name, and
    /// one header per year, all columns of one kind equally wide.
    pub open spec fn is_laid_out(&self, members: Seq<OverallScoredMember>) -> bool {
        let rank_width = decimal_digits(members.len()).len();
        let score_width = decimal_digits(top_overall_score(members) as nat).len();
        exists|largest: Score| #[trigger]
            is_largest_score(largest, members, self.years@) && {
                let col_width = column_width(largest);
                &&& self.col_header@.len() == self.years@.len()
                &&& forall|j: int|
                    0 <= j < self.years@.len() ==> (#[trigger] self.col_header@[j])@
                        == right_aligned(decimal_text(self.years@[j] as int), col_width, "&nbsp;"@)
                &&& self.rank@.len() == members.len()
                &&& forall|k: int|
                    0 <= k < members.len() ==> (#[trigger] self.rank@[k])@ == right_aligned(
                        decimal_text(k + 1),
                        rank_width,
                        " "@,
                    ) + ") "@
                &&& self.overall_score@.len() == members.len()
                &&& forall|k: int|
                    0 <= k < members.len() ==> (#[trigger] self.overall_score@[k])@
                        == right_aligned(
                        decimal_text(members[k].overall_score() as int),
                        score_width,
                        " "@,
                    )
                &&& self.scores@.len() == members.len()
                &&& forall|k: int|
                    0 <= k < members.len() ==> (#[trigger] self.scores@[k])@ == score_row(
                        members[k].scores(),
                        self.years@,
                        self.years@.len() as int,
                        col_width,
                    )
                &&& self.member_name@.len() == members.len()
                &&& forall|k: int|
                    0 <= k < members.len() ==> (#[trigger] self.member_name@[k])@
                        == members[k].name()
                &&& self.table_head_pad@ == repeated(" "@, rank_width + score_width + 2)
            }
    }

    /// What the page shows for the given standings, with the text of the
    /// capture time as given.
    pub fn build(
        settings: &AppSettings,
        year: EventYear,
        updated_at: String,
        leaderboard: OverallLeaderboard,
        leaderboard_order: LeaderboardOrder,
    ) -> (context: Self)
        ensures
            context.year == year,
            context.leaderboard_name@ == settings.leaderboard_name@,
            context.updated_at == updated_at,
            context.leaderboard_update_sec == settings.leaderboard_update_sec,
            context.leaderboard_order == leaderboard_order,
            context.leaderboard_default_order == settings.leaderboard_default_order,
            context.years@ == leaderboard.years(),
            context.is_laid_out(leaderboard.members()),
    {
        let years = leaderboard.get_years().clone();
        let ghost listed = leaderboard.members();
        let members = leaderboard.get_members();
        let largest = largest_score(&members, &years);
        let col_width = if 2 + number_width(largest) < MIN_COL_WIDTH {
            MIN_COL_WIDTH
        } else {
            2 + number_width(largest)
        };
        let mut col_header: Vec<String> = Vec::new();
        let mut j: usize = 0;
        while j < years.len()
            invariant
                j <= years@.len(),
                col_header@.len() == j,
                forall|i: int|
                    0 <= i < j ==> (#[trigger] col_header@[i])@ == right_aligned(
                        decimal_text(years@[i] as int),
                        col_width as nat,
                        "&nbsp;"@,
                    ),
            decreases years@.len() - j,
        {
            let digits = decimal_string(years[j] as i128);
            col_header.push(align_right(digits.as_str(), col_width, "&nbsp;"));
            j += 1;
        }
        let rank_width = number_width(members.len());
        let score_width = number_width(
            if members.len() > 0 {
                members[0].get_overall_score()
            } else {
                0
            },
        );
        let mut rank: Vec<String> = Vec::new();
        let mut overall_score: Vec<String> = Vec::new();
        let mut scores: Vec<String> = Vec::new();
        let mut member_name: Vec<String> = Vec::new();
        let mut k: usize = 0;
        while k < members.len()
            invariant
                k <= members@.len(),
                rank@.len() == k,
                overall_score@.len() == k,
                scores@.len() == k,
                member_name@.len() == k,
                forall|i: int|
                    0 <= i < k ==> (#[trigger] rank@[i])@ == right_aligned(
                        decimal_text(i + 1),
                        rank_width as nat,
                        " "@,
                    ) + ") "@,
                forall|i: int|
                    0 <= i < k ==> (#[trigger] overall_score@[i])@ == right_aligned(
                        decimal_text(members@[i].overall_score() as int),
                        score_width as nat,
                        " "@,
                    ),
                forall|i: int|
                    0 <= i < k ==> (#[trigger] scores@[i])@ == score_row(
                        members@[i].scores(),
                        years@,
                        years@.len() as int,
                        col_width as nat,
                    ),
                forall|i: int| 0 <= i < k ==> (#[trigger] member_name@[i])@ == members@[i].name(),
            decreases members@.len() - k,
        {
            let member = &members[k];
            let mut place = number_column(k as i128 + 1, rank_width);
            place.append(") ");
            rank.push(place);
            overall_score.push(number_column(member.get_overall_score() as i128, score_width));
            let mut row = String::new();
            let mut j: usize = 0;
            while j < years.len()
                invariant
                    j <= years@.len(),
                    row@ == score_row(member.scores(), years@, j as int, col_width as nat),
                decreases years@.len() - j,
            {
                let cell = number_column(member.get_score(years[j]) as i128, col_width);
                row.append(cell.as_str());
                j += 1;
            }
            scores.push(row);
            member_name.push(member.get_name().clone());
            k += 1;
        }
        let table_head_pad = repeat(" ", rank_width + score_width + 2);
        let context = Self {
            year,
            leaderboard_name: settings.leaderboard_name.clone(),
            updated_at,
            leaderboard_update_sec: settings.leaderboard_update_sec,
            leaderboard_order,
            leaderboard_default_order: settings.leaderboard_default_order,
            table_head_pad,
            years,
            col_header,
            rank,
            overall_score,
            scores,
            member_name,
        };
        proof {
            assert(is_largest_score(largest, listed, context.years@));
        }
        context
    }

    /// What the page shows for the given standings. There is nothing to
    /// show where the calendar cannot tell the capture time.
    pub fn render(
        settings: &AppSettings,
        year: EventYear,
        leaderboard: OverallLeaderboard,
        leaderboard_order: LeaderboardOrder,
    ) -> (shown: Option<Self>)
        ensures
            shown is Some <==> utc_text_of(leaderboard.updated_at(), capture_pattern()) is Some,
            shown matches Some(context) ==> {
                &&& context.year == year
                &&& context.leaderboard_name@ == settings.leaderboard_name@
                &&& Some(context.updated_at@) == utc_text_of(
                    leaderboard.updated_at(),
                    capture_pattern(),
                )
                &&& context.leaderboard_update_sec == settings.leaderboard_update_sec
                &&& context.leaderboard_order == leaderboard_order
                &&& context.leaderboard_default_order == settings.leaderboard_default_order
                &&& context.years@ == leaderboard.years()
                &&& context.is_laid_out(leaderboard.members())
            },
    {
        match utc_text(leaderboard.get_updated_at(), "%F %T %Z") {
            Some(updated_at) => Some(
                Self::build(settings, year, updated_at, leaderboard, leaderboard_order),
            ),
            None => None,
        }
    }
}

/// The largest score that any of `members` has in any of `years`.
pub fn largest_score(members: &Vec<OverallScoredMember>, years: &Vec<EventYear>) -> (largest: Score)
    ensures
        is_largest_score(largest, members@, years@),
{
    let mut largest: Score = 0;
    let mut k: usize = 0;
    while k < members.len()
        invariant
            k <= members@.len(),
            is_largest_score(largest, members@.take(k as int), years@),
        decreases members@.len() - k,
    {
        let ghost before = largest;
        let mut j: usize = 0;
        while j < years.len()
            invariant
                j <= years@.len(),
                k < members@.len(),
                before <= largest,
                forall|i: int|
                    0 <= i < j ==> score_of_year(
                        members@[k as int].scores(),
                        (#[trigger] years@[i]) as int,
                    ) <= largest,
                largest == before || exists|i: int|
                    0 <= i < j && score_of_year(
                        members@[k as int].scores(),
                        (#[trigger] years@[i]) as int,
                    ) == largest,
            decreases years@.len() - j,
        {
            let score = members[k].get_score(years[j]);
            if score > largest {
                largest = score;
            }
            j += 1;
        }
        proof {
            let seen = members@.take(k as int);
            let more = members@.take(k + 1);
            assert forall|a: int, b: int|
                0 <= a < more.len() && 0 <= b < years@.len() implies score_of_year(
                (#[trigger] more[a]).scores(),
                (#[trigger] years@[b]) as int,
            ) <= largest by {
                if a < k {
                    assert(seen[a] == more[a]);
                    assert(score_of_year(seen[a].scores(), years@[b] as int) <= before);
                }
            }
            if largest != 0 {
                if largest == before {
                    let (a, b) = choose|a: int, b: int|
                        0 <= a < seen.len() && 0 <= b < years@.len() && score_of_year(
                            (#[trigger] seen[a]).scores(),
                            (#[trigger] years@[b]) as int,
                        ) == before;
                    assert(more[a] == seen[a]);
                } else {
                    let b = choose|i: int|
                        0 <= i < years@.len() && score_of_year(
                            members@[k as int].scores(),
                            (#[trigger] years@[i]) as int,
                        ) == largest;
                    assert(more[k as int] == members@[k as int]);
                }
            }
        }
        k += 1;
    }
    proof {
        assert(members@.take(k as int) =~= members@);
    }
    largest
}

} // verus!
