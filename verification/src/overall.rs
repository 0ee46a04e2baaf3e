//! Standings over a range of event years.

use crate::aoc::{member_ids, EventYear, Member, MemberId, Score, Timestamp, NUM_PUZZLES};
use crate::leaders::{
    get_leaderboard, has_entry, is_entry_of, lemma_score_bounds, policy_score, ranks_members,
    Event, EventManager, LeaderboardOrder, Lookup, ScoredMember,
};
use crate::ranking::{
    is_ranked, lemma_placement_order, placed_before, same_entries, sort_ranked, RankKey, Ranked,
};
use std::collections::HashMap;
use vstd::prelude::*;

verus! {

/// The score that `scores` holds for `year`, and zero where it holds none.
pub open spec fn score_of_year(scores: Map<EventYear, Score>, year: int) -> int {
    if i32::MIN <= year <= i32::MAX && scores.contains_key(year as EventYear) {
        scores[year as EventYear] as int
    } else {
        0
    }
}

/// Sum of the scores of the years `from` to `to`, both included.
pub open spec fn scores_between(scores: Map<EventYear, Score>, from: int, to: int) -> int
    decreases to - from + 1,
{
    if to < from {
        0
    } else {
        scores_between(scores, from, to - 1) + score_of_year(scores, to)
    }
}

/// Sum of the scores of all years.
pub open spec fn total_of(scores: Map<EventYear, Score>) -> int {
    scores_between(scores, i32::MIN as int, i32::MAX as int)
}

/// Setting the score of one year changes the sum by the difference of the
/// new score and the old.
pub proof fn lemma_scores_insert(
    scores: Map<EventYear, Score>,
    year: EventYear,
    score: Score,
    from: int,
    to: int,
)
    ensures
        scores_between(scores.insert(year, score), from, to) == scores_between(scores, from, to)
            + if from <= year <= to {
            score - score_of_year(scores, year as int)
        } else {
            0
        },
    decreases to - from + 1,
{
    if to >= from {
        lemma_scores_insert(scores, year, score, from, to - 1);
    }
}

/// No sum of scores is negative, and a longer range sums to no less.
pub proof fn lemma_scores_grow(scores: Map<EventYear, Score>, from: int, mid: int, to: int)
    requires
        mid <= to,
    ensures
        0 <= scores_between(scores, from, mid) <= scores_between(scores, from, to),
    decreases to - mid, mid - from + 1,
{
    if mid < to {
        lemma_scores_grow(scores, from, mid, to - 1);
    } else if mid >= from {
        lemma_scores_grow(scores, from, mid - 1, mid - 1);
    }
}

/// A member's standing over several event years.
#[derive(Debug)]
pub struct OverallScoredMember {
    id: MemberId,
    name: String,
    scores: HashMap<EventYear, Score>,
    last_star: Timestamp,
    overall_score: Score,
}

impl OverallScoredMember {
    /// The overall score is the sum of the scores of the single years.
    pub closed spec fn wf(&self) -> bool {
        self.overall_score == total_of(self.scores@)
    }

    pub closed spec fn id(&self) -> MemberId {
        self.id
    }

    pub closed spec fn name(&self) -> Seq<char> {
        self.name@
    }

    /// The member's score in each year in which it took part.
    pub closed spec fn scores(&self) -> Map<EventYear, Score> {
        self.scores@
    }

    /// Time of the member's latest star in any of the years.
    pub closed spec fn last_star(&self) -> Timestamp {
        self.last_star
    }

    pub closed spec fn overall_score(&self) -> Score {
        self.overall_score
    }

    /// The standing of a member that has so far taken part in `year` alone.
    pub fn from(member: &ScoredMember, year: EventYear) -> (overall: Self)
        ensures
            overall.wf(),
            overall.id() == member.id(),
            overall.name() == member.name(),
            overall.scores() == Map::<EventYear, Score>::empty().insert(year, member.score()),
            overall.last_star() == member.last_star(),
            overall.overall_score() == member.score(),
    {
        broadcast use vstd::std_specs::hash::group_hash_axioms;

        let mut scores: HashMap<EventYear, Score> = HashMap::new();
        scores.insert(year, member.get_score());
        proof {
            let nothing = Map::<EventYear, Score>::empty();
            lemma_scores_insert(
                nothing,
                year,
                member.score(),
                i32::MIN as int,
                i32::MAX as int,
            );
            lemma_no_scores(i32::MIN as int, i32::MAX as int);
        }
        Self {
            id: member.get_id(),
            name: member.get_name().clone(),
            scores,
            last_star: member.get_last_star(),
            overall_score: member.get_score(),
        }
    }

    /// Records the member's score and latest star of `year`. A score
    /// already held for that year is replaced.
    pub fn add_score(&mut self, year: EventYear, score: Score, last_star: Timestamp)
        requires
            old(self).wf(),
            old(self).overall_score() - score_of_year(old(self).scores(), year as int) + score
                <= usize::MAX,
        ensures
            final(self).wf(),
            final(self).id() == old(self).id(),
            final(self).name() == old(self).name(),
            final(self).scores() == old(self).scores().insert(year, score),
            final(self).overall_score() == old(self).overall_score() - score_of_year(
                old(self).scores(),
                year as int,
            ) + score,
            final(self).last_star() == if last_star > old(self).last_star() {
                last_star
            } else {
                old(self).last_star()
            },
    {
        broadcast use vstd::std_specs::hash::group_hash_axioms;

        proof {
            lemma_scores_insert(
                self.scores@,
                year,
                score,
                i32::MIN as int,
                i32::MAX as int,
            );
            lemma_score_counts(self.scores@, year);
        }
        let rest = match self.scores.insert(year, score) {
            Some(previous) => self.overall_score - previous,
            None => self.overall_score,
        };
        self.overall_score = rest + score;
        if last_star > self.last_star {
            self.last_star = last_star;
        }
    }

    pub fn get_id(&self) -> (id: MemberId)
        ensures
            id == self.id(),
    {
        self.id
    }

    pub fn get_name(&self) -> (name: &String)
        ensures
            name@ == self.name(),
    {
        &self.name
    }

    pub fn get_last_star(&self) -> (last_star: Timestamp)
        ensures
            last_star == self.last_star(),
    {
        self.last_star
    }

    pub fn get_overall_score(&self) -> (score: Score)
        ensures
            score == self.overall_score(),
    {
        self.overall_score
    }

    /// The member's score in each year in which it took part.
    pub fn get_scores(&self) -> (scores: &HashMap<EventYear, Score>)
        ensures
            scores@ == self.scores(),
    {
        &self.scores
    }

    /// The member's score in `year`, and zero for a year in which it did
    /// not take part.
    pub fn get_score(&self, year: EventYear) -> (score: Score)
        ensures
            score == score_of_year(self.scores(), year as int),
    {
        broadcast use vstd::std_specs::hash::group_hash_axioms;

        match self.scores.get(&year) {
            Some(score) => *score,
            None => 0,
        }
    }
}

impl Ranked for OverallScoredMember {
    open spec fn rank_key(&self) -> RankKey {
        RankKey { score: self.overall_score(), last_star: self.last_star(), id: self.id() }
    }

    fn key(&self) -> (key: RankKey) {
        RankKey { score: self.overall_score, last_star: self.last_star, id: self.id }
    }
}

/// Where no year has a score the sum is zero.
proof fn lemma_no_scores(from: int, to: int)
    ensures
        scores_between(Map::<EventYear, Score>::empty(), from, to) == 0,
    decreases to - from + 1,
{
    if to >= from {
        lemma_no_scores(from, to - 1);
    }
}

/// The score of a single year is part of the sum of all.
proof fn lemma_score_counts(scores: Map<EventYear, Score>, year: EventYear)
    ensures
        score_of_year(scores, year as int) <= total_of(scores),
{
    lemma_scores_grow(scores, i32::MIN as int, year as int, i32::MAX as int);
    lemma_scores_grow(scores, i32::MIN as int, year - 1, year - 1);
}

/// Whether member `id` has a record in the snapshot of `year`.
pub open spec fn takes_part(events: Map<EventYear, Event>, year: int, id: MemberId) -> bool {
    &&& i32::MIN <= year <= i32::MAX
    &&& events.contains_key(year as EventYear)
    &&& member_ids(events[year as EventYear].members()).contains(id)
}

/// Whether member `id` has a record in some year from `from` to `to`.
pub open spec fn took_part_between(
    events: Map<EventYear, Event>,
    from: int,
    to: int,
    id: MemberId,
) -> bool {
    exists|year: int| from <= year <= to && #[trigger] takes_part(events, year, id)
}

/// Position of the record of `id` among `members`.
pub open spec fn position_of(members: Seq<Member>, id: MemberId) -> int {
    choose|i: int| 0 <= i < members.len() && members[i].id() == id
}

/// The record of member `id` in the snapshot of `year`.
pub open spec fn record_of(events: Map<EventYear, Event>, year: int, id: MemberId) -> Member {
    let members = events[year as EventYear].members();
    members[position_of(members, id)]
}

/// The score of member `id` in `year`, all of its completions counted, and
/// zero for a year in which it has no record.
pub open spec fn score_in(
    events: Map<EventYear, Event>,
    order: LeaderboardOrder,
    year: int,
    id: MemberId,
) -> int {
    if takes_part(events, year, id) {
        let members = events[year as EventYear].members();
        policy_score(order, members, None, position_of(members, id))
    } else {
        0
    }
}

/// Sum of the scores of member `id` in the years `from` to `to`.
pub open spec fn total_score(
    events: Map<EventYear, Event>,
    order: LeaderboardOrder,
    from: int,
    to: int,
    id: MemberId,
) -> int
    decreases to - from + 1,
{
    if to < from {
        0
    } else {
        total_score(events, order, from, to - 1, id) + score_in(events, order, to, id)
    }
}

/// Number of member records in the snapshots of the years `from` to `to`.
pub open spec fn members_between(events: Map<EventYear, Event>, from: int, to: int) -> int
    decreases to - from + 1,
{
    if to < from {
        0
    } else {
        members_between(events, from, to - 1) + if i32::MIN <= to <= i32::MAX
            && events.contains_key(to as EventYear) {
            events[to as EventYear].members().len() as int
        } else {
            0
        }
    }
}

/// Whether `year` is the first from `from` on in which member `id` has a
/// record.
pub open spec fn is_first_year(
    events: Map<EventYear, Event>,
    from: int,
    year: int,
    id: MemberId,
) -> bool {
    &&& from <= year
    &&& takes_part(events, year, id)
    &&& forall|earlier: int| from <= earlier < year ==> !#[trigger] takes_part(events, earlier, id)
}

/// Whether `name` is what member `id` is called in the first of the years
/// `from` to `to` in which it has a record.
pub open spec fn is_first_name(
    events: Map<EventYear, Event>,
    from: int,
    to: int,
    id: MemberId,
    name: Seq<char>,
) -> bool {
    exists|year: int|
        year <= to && #[trigger] is_first_year(events, from, year, id) && record_of(
            events,
            year,
            id,
        ).name() == name
}

/// Whether `time` is the latest among the last stars of member `id` in the
/// years `from` to `to`.
pub open spec fn is_latest_star(
    events: Map<EventYear, Event>,
    from: int,
    to: int,
    id: MemberId,
    time: Timestamp,
) -> bool {
    &&& exists|year: int|
        from <= year <= to && #[trigger] takes_part(events, year, id) && record_of(
            events,
            year,
            id,
        ).last_star(None) == time
    &&& forall|year: int|
        from <= year <= to && #[trigger] takes_part(events, year, id) ==> record_of(
            events,
            year,
            id,
        ).last_star(None) <= time
}

/// The scores of member `id` by year, for the years `from` to `to` in
/// which it has a record.
pub open spec fn year_scores(
    events: Map<EventYear, Event>,
    order: LeaderboardOrder,
    from: int,
    to: int,
    id: MemberId,
) -> Map<EventYear, Score> {
    Map::new(
        |year: EventYear| from <= year <= to && takes_part(events, year as int, id),
        |year: EventYear| score_in(events, order, year as int, id) as Score,
    )
}

/// The entry sums up what its member did in the years `from` to `to`: it
/// bears the name of the first year with a record, holds the score of each
/// year with a record and their sum, and the latest of the last stars.
pub open spec fn sums_up(
    entry: OverallScoredMember,
    events: Map<EventYear, Event>,
    order: LeaderboardOrder,
    from: int,
    to: int,
) -> bool {
    &&& is_first_name(events, from, to, entry.id(), entry.name())
    &&& entry.scores() == year_scores(events, order, from, to, entry.id())
    &&& entry.overall_score() == total_score(events, order, from, to, entry.id())
    &&& is_latest_star(events, from, to, entry.id(), entry.last_star())
}

/// Every snapshot of the years `from` to `to` is a valid one.
pub open spec fn valid_between(events: Map<EventYear, Event>, from: int, to: int) -> bool {
    forall|year: EventYear|
        from <= year <= to && #[trigger] events.contains_key(year) ==> events[year].wf()
}

/// A member without a record in any of the years has a total of zero.
pub proof fn lemma_total_of_absent(
    events: Map<EventYear, Event>,
    order: LeaderboardOrder,
    from: int,
    to: int,
    id: MemberId,
)
    requires
        !took_part_between(events, from, to, id),
    ensures
        total_score(events, order, from, to, id) == 0,
    decreases to - from + 1,
{
    if to >= from {
        assert(!takes_part(events, to, id));
        assert forall|year: int| from <= year <= to - 1 implies !#[trigger] takes_part(
            events,
            year,
            id,
        ) by {}
        lemma_total_of_absent(events, order, from, to - 1, id);
    }
}

/// A member's score in one year is at most the number of puzzles times the
/// number of members in that year's snapshot, and its total over several
/// years at most that of all their snapshots together.
pub proof fn lemma_total_bound(
    events: Map<EventYear, Event>,
    order: LeaderboardOrder,
    from: int,
    to: int,
    id: MemberId,
)
    requires
        valid_between(events, from, to),
    ensures
        0 <= total_score(events, order, from, to, id) <= NUM_PUZZLES * members_between(
            events,
            from,
            to,
        ),
        from <= to ==> 0 <= score_in(events, order, to, id) <= NUM_PUZZLES * (members_between(
            events,
            from,
            to,
        ) - members_between(events, from, to - 1)),
        from <= to ==> 0 <= members_between(events, from, to - 1) <= members_between(
            events,
            from,
            to,
        ),
    decreases to - from + 1,
{
    if to >= from {
        lemma_total_bound(events, order, from, to - 1, id);
        if takes_part(events, to, id) {
            let members = events[to as EventYear].members();
            let at = position_of(members, id);
            assert(events.contains_key(to as EventYear));
            events[to as EventYear].lemma_wf();
            lemma_score_bounds(order, members, None, at);
        }
    }
}

/// The entry of one year's standings agrees with the record of its member
/// in that year's snapshot.
pub open spec fn on_record(
    entry: ScoredMember,
    events: Map<EventYear, Event>,
    order: LeaderboardOrder,
    year: int,
) -> bool {
    &&& takes_part(events, year, entry.id())
    &&& entry.score() == score_in(events, order, year, entry.id())
    &&& entry.last_star() == record_of(events, year, entry.id()).last_star(None)
    &&& entry.name() == record_of(events, year, entry.id()).name()
}

/// Whether one of the first `upto` entries is that of member `id`.
pub open spec fn lists(board: Seq<ScoredMember>, upto: int, id: MemberId) -> bool {
    exists|k: int| 0 <= k < upto && (#[trigger] board[k]).id() == id
}

/// What the standings of one year say of the members of its snapshot:
/// every entry agrees with its member's record, every member is listed,
/// and none twice.
proof fn lemma_year_entries(
    events: Map<EventYear, Event>,
    order: LeaderboardOrder,
    year: EventYear,
    board: Seq<ScoredMember>,
)
    requires
        events.contains_key(year),
        events[year].wf(),
        ranks_members(board, events[year].members(), order, None),
    ensures
        forall|k: int|
            0 <= k < board.len() ==> on_record(#[trigger] board[k], events, order, year as int),
        forall|id: MemberId|
            #[trigger] takes_part(events, year as int, id) <==> lists(
                board,
                board.len() as int,
                id,
            ),
        forall|j: int, k: int|
            0 <= j < k < board.len() ==> (#[trigger] board[j]).id() != (#[trigger] board[k]).id(),
{
    let members = events[year].members();
    events[year].lemma_wf();
    assert forall|k: int| 0 <= k < board.len() implies on_record(
        #[trigger] board[k],
        events,
        order,
        year as int,
    ) by {
        lemma_entry_on_record(events, order, year, board, k);
    }
    assert forall|id: MemberId| #[trigger]
        takes_part(events, year as int, id) <==> lists(board, board.len() as int, id) by {
        if takes_part(events, year as int, id) {
            let i = choose|i: int| 0 <= i < members.len() && members[i].id() == id;
            assert(has_entry(board, members[i], None, policy_score(order, members, None, i)));
            let k = choose|k: int|
                0 <= k < board.len() && (#[trigger] board[k]).describes(
                    members[i],
                    None,
                    policy_score(order, members, None, i),
                );
            assert(board[k].id() == id);
        }
        if lists(board, board.len() as int, id) {
            let k = choose|k: int| 0 <= k < board.len() && (#[trigger] board[k]).id() == id;
            lemma_entry_on_record(events, order, year, board, k);
        }
    }
    assert forall|j: int, k: int| 0 <= j < k < board.len() implies (#[trigger] board[j]).id() != (
    #[trigger] board[k]).id() by {
        lemma_entry_on_record(events, order, year, board, j);
        lemma_entry_on_record(events, order, year, board, k);
        assert(crate::ranking::placed_before(board[j].rank_key(), board[k].rank_key()));
    }
}

/// An entry of one year's standings agrees with its member's record.
proof fn lemma_entry_on_record(
    events: Map<EventYear, Event>,
    order: LeaderboardOrder,
    year: EventYear,
    board: Seq<ScoredMember>,
    k: int,
)
    requires
        events.contains_key(year),
        events[year].wf(),
        ranks_members(board, events[year].members(), order, None),
        0 <= k < board.len(),
    ensures
        on_record(board[k], events, order, year as int),
{
    let members = events[year].members();
    events[year].lemma_wf();
    assert(is_entry_of(board[k], members, order, None));
    let i = choose|i: int|
        0 <= i < members.len() && board[k].describes(
            #[trigger] members[i],
            None,
            policy_score(order, members, None, i),
        );
    let id = board[k].id();
    assert(members[i].id() == id);
    assert(member_ids(members).contains(id));
    let at = position_of(members, id);
    if at < i {
        assert(members[at].id() != members[i].id());
    } else if i < at {
        assert(members[i].id() != members[at].id());
    }
}

/// `index` tells the position of each member's entry.
pub open spec fn indexes(index: Map<MemberId, usize>, entries: Seq<OverallScoredMember>) -> bool {
    &&& forall|k: int|
        0 <= k < entries.len() ==> index.contains_key((#[trigger] entries[k]).id())
            && index[entries[k].id()] == k
    &&& forall|id: MemberId| #[trigger]
        index.contains_key(id) ==> 0 <= index[id] < entries.len() && entries[index[id] as int].id()
            == id
}

/// The state of an aggregation that has taken in all years from `from` up
/// to, but not including, `year`, and of `year` the first `upto` entries of
/// its standings.
pub open spec fn absorbed(
    entries: Seq<OverallScoredMember>,
    index: Map<MemberId, usize>,
    events: Map<EventYear, Event>,
    order: LeaderboardOrder,
    from: int,
    year: int,
    board: Seq<ScoredMember>,
    upto: int,
) -> bool {
    &&& indexes(index, entries)
    &&& forall|k: int|
        0 <= k < entries.len() ==> (#[trigger] entries[k]).wf() && sums_up(
            entries[k],
            events,
            order,
            from,
            if lists(board, upto, entries[k].id()) {
                year
            } else {
                year - 1
            },
        )
    &&& forall|id: MemberId|
        took_part_between(events, from, year - 1, id) || lists(board, upto, id)
            ==> #[trigger] index.contains_key(id)
}

/// The state of an aggregation that has taken in the years `from` to `to`:
/// one entry for each member with a record in any of these years, each
/// summing up what its member did in them.
pub open spec fn accumulated(
    entries: Seq<OverallScoredMember>,
    index: Map<MemberId, usize>,
    events: Map<EventYear, Event>,
    order: LeaderboardOrder,
    from: int,
    to: int,
) -> bool {
    &&& indexes(index, entries)
    &&& forall|k: int|
        0 <= k < entries.len() ==> (#[trigger] entries[k]).wf() && sums_up(
            entries[k],
            events,
            order,
            from,
            to,
        )
    &&& forall|id: MemberId|
        took_part_between(events, from, to, id) ==> #[trigger] index.contains_key(id)
}

/// An entry that sums up the years before one in which its member has no
/// record sums up that year too.
proof fn lemma_sums_up_absent(
    entry: OverallScoredMember,
    events: Map<EventYear, Event>,
    order: LeaderboardOrder,
    from: int,
    year: int,
)
    requires
        sums_up(entry, events, order, from, year - 1),
        !takes_part(events, year, entry.id()),
    ensures
        sums_up(entry, events, order, from, year),
{
    let id = entry.id();
    let first = choose|first: int|
        first <= year - 1 && #[trigger] is_first_year(events, from, first, id) && record_of(
            events,
            first,
            id,
        ).name() == entry.name();
    assert(first <= year && is_first_year(events, from, first, id));
    assert(entry.scores() =~= year_scores(events, order, from, year, id));
    let latest = choose|latest: int|
        from <= latest <= year - 1 && #[trigger] takes_part(events, latest, id) && record_of(
            events,
            latest,
            id,
        ).last_star(None) == entry.last_star();
    assert(from <= latest <= year && takes_part(events, latest, id));
}

/// Adding a year's score and last star to an entry that sums up the years
/// before gives an entry that sums up that year too.
proof fn lemma_sums_up_present(
    before: OverallScoredMember,
    after: OverallScoredMember,
    events: Map<EventYear, Event>,
    order: LeaderboardOrder,
    from: int,
    year: EventYear,
)
    requires
        from <= year,
        sums_up(before, events, order, from, year - 1),
        takes_part(events, year as int, before.id()),
        0 <= score_in(events, order, year as int, before.id()) <= usize::MAX,
        after.id() == before.id(),
        after.name() == before.name(),
        after.scores() == before.scores().insert(
            year,
            score_in(events, order, year as int, before.id()) as Score,
        ),
        after.overall_score() == before.overall_score() + score_in(
            events,
            order,
            year as int,
            before.id(),
        ),
        after.last_star() == if record_of(events, year as int, before.id()).last_star(None)
            > before.last_star() {
            record_of(events, year as int, before.id()).last_star(None)
        } else {
            before.last_star()
        },
    ensures
        sums_up(after, events, order, from, year as int),
{
    let id = before.id();
    let first = choose|first: int|
        first <= year - 1 && #[trigger] is_first_year(events, from, first, id) && record_of(
            events,
            first,
            id,
        ).name() == before.name();
    assert(first <= year && is_first_year(events, from, first, id));
    assert(after.scores() =~= year_scores(events, order, from, year as int, id));
    let latest = choose|latest: int|
        from <= latest <= year - 1 && #[trigger] takes_part(events, latest, id) && record_of(
            events,
            latest,
            id,
        ).last_star(None) == before.last_star();
    if record_of(events, year as int, id).last_star(None) > before.last_star() {
        assert(from <= year <= year && takes_part(events, year as int, id));
    } else {
        assert(from <= latest <= year && takes_part(events, latest, id));
    }
}

/// The entry made of a member's first year with a record sums up the years
/// up to that one.
proof fn lemma_sums_up_first(
    entry: OverallScoredMember,
    events: Map<EventYear, Event>,
    order: LeaderboardOrder,
    from: int,
    year: EventYear,
)
    requires
        from <= year,
        !took_part_between(events, from, year - 1, entry.id()),
        takes_part(events, year as int, entry.id()),
        0 <= score_in(events, order, year as int, entry.id()) <= usize::MAX,
        entry.name() == record_of(events, year as int, entry.id()).name(),
        entry.scores() == Map::<EventYear, Score>::empty().insert(
            year,
            score_in(events, order, year as int, entry.id()) as Score,
        ),
        entry.overall_score() == score_in(events, order, year as int, entry.id()),
        entry.last_star() == record_of(events, year as int, entry.id()).last_star(None),
    ensures
        sums_up(entry, events, order, from, year as int),
{
    let id = entry.id();
    lemma_total_of_absent(events, order, from, year - 1, id);
    assert(is_first_year(events, from, year as int, id));
    assert(entry.scores() =~= year_scores(events, order, from, year as int, id)) by {
        assert forall|other: EventYear|
            from <= other <= year && takes_part(events, other as int, id) implies other
            == year by {
            if other < year {
                assert(from <= other <= year - 1 && takes_part(events, other as int, id));
            }
        }
    }
    assert forall|other: int| from <= other <= year && #[trigger] takes_part(
        events,
        other,
        id,
    ) implies record_of(events, other, id).last_star(None) <= entry.last_star() by {
        if other < year {
            assert(from <= other <= year - 1 && takes_part(events, other, id));
        }
    }
}

/// Takes the standings of `year` into an aggregation of the years before.
fn absorb_year(
    entries: &mut Vec<OverallScoredMember>,
    index: &mut HashMap<MemberId, usize>,
    year: EventYear,
    board: &Vec<ScoredMember>,
    Ghost(events): Ghost<Map<EventYear, Event>>,
    Ghost(order): Ghost<LeaderboardOrder>,
    Ghost(from): Ghost<int>,
)
    requires
        from <= year,
        accumulated(old(entries)@, old(index)@, events, order, from, year - 1),
        events.contains_key(year),
        valid_between(events, from, year as int),
        ranks_members(board@, events[year].members(), order, None),
        NUM_PUZZLES * members_between(events, from, year as int) <= usize::MAX,
    ensures
        accumulated(final(entries)@, final(index)@, events, order, from, year as int),
{
    broadcast use vstd::std_specs::hash::group_hash_axioms;

    proof {
        lemma_year_entries(events, order, year, board@);
    }
    let mut k: usize = 0;
    while k < board.len()
        invariant
            k <= board@.len(),
            from <= year,
            events.contains_key(year),
            valid_between(events, from, year as int),
            ranks_members(board@, events[year].members(), order, None),
            NUM_PUZZLES * members_between(events, from, year as int) <= usize::MAX,
            absorbed(entries@, index@, events, order, from, year as int, board@, k as int),
            forall|j: int|
                0 <= j < board@.len() ==> on_record(#[trigger] board@[j], events, order, year as int),
            forall|i: int, j: int|
                0 <= i < j < board@.len() ==> (#[trigger] board@[i]).id() != (
                #[trigger] board@[j]).id(),
        decreases board@.len() - k,
    {
        let scored = &board[k];
        let id = scored.get_id();
        let ghost entries_before = entries@;
        let ghost index_before = index@;
        proof {
            assert(on_record(board@[k as int], events, order, year as int));
            lemma_total_bound(events, order, from, year as int, id);
            assert(!lists(board@, k as int, id)) by {
                if lists(board@, k as int, id) {
                    let j = choose|j: int| 0 <= j < k && (#[trigger] board@[j]).id() == id;
                    assert(board@[j].id() != board@[k as int].id());
                }
            }
            assert forall|other: MemberId| lists(board@, k + 1, other) <==> lists(
                board@,
                k as int,
                other,
            ) || other == id by {
                if lists(board@, k + 1, other) {
                    let j = choose|j: int| 0 <= j < k + 1 && (#[trigger] board@[j]).id() == other;
                    if j < k {
                        assert(lists(board@, k as int, other));
                    }
                }
                if lists(board@, k as int, other) {
                    let j = choose|j: int| 0 <= j < k && (#[trigger] board@[j]).id() == other;
                    assert(0 <= j < k + 1 && board@[j].id() == other);
                }
                if other == id {
                    assert(0 <= k < k + 1 && board@[k as int].id() == other);
                }
            }
        }
        let known = match index.get(&id) {
            Some(at) => Some(*at),
            None => None,
        };
        match known {
            Some(at) => {
                proof {
                    let before = entries_before[at as int];
                    assert(before.id() == id);
                    assert(sums_up(before, events, order, from, year - 1));
                    lemma_total_bound(events, order, from, year - 1, id);
                    assert(!before.scores().contains_key(year));
                }
                entries[at].add_score(year, scored.get_score(), scored.get_last_star());
                proof {
                    lemma_sums_up_present(
                        entries_before[at as int],
                        entries@[at as int],
                        events,
                        order,
                        from,
                        year,
                    );
                    assert forall|j: int| 0 <= j < entries@.len() implies (#[trigger] entries@[j]).id()
                        == entries_before[j].id() by {}
                }
            },
            None => {
                proof {
                    assert(!took_part_between(events, from, year - 1, id));
                }
                let entry = OverallScoredMember::from(scored, year);
                proof {
                    lemma_sums_up_first(entry, events, order, from, year);
                }
                index.insert(id, entries.len());
                entries.push(entry);
                proof {
                    assert forall|j: int| 0 <= j < entries_before.len() implies entries@[j]
                        == entries_before[j] by {}
                }
            },
        }
        proof {
            assert(indexes(index@, entries@)) by {
                assert forall|j: int| 0 <= j < entries@.len() implies index@.contains_key(
                    (#[trigger] entries@[j]).id(),
                ) && index@[entries@[j].id()] == j by {
                    if j < entries_before.len() {
                        assert(index_before.contains_key(entries_before[j].id()));
                    }
                }
                assert forall|other: MemberId| #[trigger] index@.contains_key(other) implies 0
                    <= index@[other] < entries@.len() && entries@[index@[other] as int].id()
                    == other by {
                    if index_before.contains_key(other) {
                        assert(entries_before[index_before[other] as int].id() == other);
                    }
                }
            }
            assert forall|j: int| 0 <= j < entries@.len() implies (#[trigger] entries@[j]).wf()
                && sums_up(
                entries@[j],
                events,
                order,
                from,
                if lists(board@, k + 1, entries@[j].id()) {
                    year as int
                } else {
                    year - 1
                },
            ) by {
                if j < entries_before.len() && entries@[j].id() != id {
                    assert(entries@[j] == entries_before[j]);
                    assert(entries_before[j].wf());
                }
            }
        }
        k += 1;
    }
    proof {
        assert forall|j: int| 0 <= j < entries@.len() implies (#[trigger] entries@[j]).wf()
            && sums_up(entries@[j], events, order, from, year as int) by {
            if !lists(board@, board@.len() as int, entries@[j].id()) {
                lemma_sums_up_absent(entries@[j], events, order, from, year as int);
            }
        }
        assert forall|id: MemberId|
            took_part_between(events, from, year as int, id) implies #[trigger] index@.contains_key(
            id,
        ) by {
            let taken = choose|taken: int|
                from <= taken <= year && #[trigger] takes_part(events, taken, id);
            if taken < year {
                assert(from <= taken <= year - 1 && takes_part(events, taken, id));
            }
        }
    }
}

/// The years `from` to `to` in ascending order.
pub open spec fn years_between(from: int, to: int) -> Seq<EventYear> {
    Seq::new(
        if to < from {
            0nat
        } else {
            (to - from + 1) as nat
        },
        |i: int| (from + i) as EventYear,
    )
}

/// The earliest capture time among the snapshots of the years `from` to
/// `to`; where there is no such year, `now`.
pub open spec fn oldest_capture(
    events: Map<EventYear, Event>,
    from: int,
    to: int,
    now: Timestamp,
) -> Timestamp
    decreases to - from + 1,
{
    if to < from {
        now
    } else {
        let captured = events[to as EventYear].updated_at();
        if to == from {
            captured
        } else {
            let others = oldest_capture(events, from, to - 1, now);
            if captured < others {
                captured
            } else {
                others
            }
        }
    }
}

/// Whether one of the entries is that of member `id`.
pub open spec fn names(entries: Seq<OverallScoredMember>, id: MemberId) -> bool {
    exists|k: int| 0 <= k < entries.len() && (#[trigger] entries[k]).id() == id
}

/// The entries rank the members of the years `from` to `to`: one entry for
/// each member with a record in any of these years, each summing up what
/// its member did, from first place to last.
pub open spec fn ranks_overall(
    entries: Seq<OverallScoredMember>,
    events: Map<EventYear, Event>,
    order: LeaderboardOrder,
    from: int,
    to: int,
) -> bool {
    &&& forall|k: int|
        0 <= k < entries.len() ==> (#[trigger] entries[k]).wf() && sums_up(
            entries[k],
            events,
            order,
            from,
            to,
        )
    &&& forall|id: MemberId|
        took_part_between(events, from, to, id) ==> #[trigger] names(entries, id)
    &&& forall|j: int, k: int|
        0 <= j < k < entries.len() ==> (#[trigger] entries[j]).id() != (#[trigger] entries[k]).id()
    &&& forall|j: int, k: int|
        0 <= j < k < entries.len() ==> placed_before(
            #[trigger] entries[j].rank_key(),
            #[trigger] entries[k].rank_key(),
        )
}

/// The standings over a range of event years.
#[derive(Debug)]
pub struct OverallLeaderboard {
    updated_at: Timestamp,
    years: Vec<EventYear>,
    members: Vec<OverallScoredMember>,
}

impl OverallLeaderboard {
    /// Capture time of the oldest snapshot that went into the standings.
    pub closed spec fn updated_at(&self) -> Timestamp {
        self.updated_at
    }

    /// The years covered, in ascending order.
    pub closed spec fn years(&self) -> Seq<EventYear> {
        self.years@
    }

    /// The entries from first place to last.
    pub closed spec fn members(&self) -> Seq<OverallScoredMember> {
        self.members@
    }

    pub fn get_updated_at(&self) -> (updated_at: Timestamp)
        ensures
            updated_at == self.updated_at(),
    {
        self.updated_at
    }

    pub fn get_years(&self) -> (years: &Vec<EventYear>)
        ensures
            years@ == self.years(),
    {
        &self.years
    }

    pub fn get_members(self) -> (members: Vec<OverallScoredMember>)
        ensures
            members@ == self.members(),
    {
        self.members
    }
}

/// Snapshots of more years hold no fewer records.
pub proof fn lemma_members_grow(events: Map<EventYear, Event>, from: int, mid: int, to: int)
    requires
        mid <= to,
    ensures
        0 <= members_between(events, from, mid) <= members_between(events, from, to),
    decreases to - mid, mid - from + 1,
{
    if mid < to {
        lemma_members_grow(events, from, mid, to - 1);
    } else if mid >= from {
        lemma_members_grow(events, from, mid - 1, mid - 1);
    }
}

/// The standings over the years `from_year` to `to_year`, from the store's
/// snapshots if all of them are fresh at `now`; else the request to refresh
/// the first year whose snapshot is not. Each member's overall score is
/// the sum of its scores in the years in which it has a record. The
/// standings never show a member of an excluded identity.
pub fn build_overall_leaderboard(
    event_mgr: &EventManager,
    order: LeaderboardOrder,
    from_year: EventYear,
    to_year: EventYear,
    now: Timestamp,
) -> (found: Lookup<OverallLeaderboard>)
    requires
        event_mgr.wf(),
        NUM_PUZZLES * members_between(event_mgr.events(), from_year as int, to_year as int)
            <= usize::MAX,
    ensures
        match found {
            Lookup::Ready(board) => {
                &&& forall|year: EventYear|
                    from_year <= year <= to_year ==> #[trigger] event_mgr.is_fresh(year, now)
                &&& board.years() == years_between(from_year as int, to_year as int)
                &&& board.updated_at() == oldest_capture(
                    event_mgr.events(),
                    from_year as int,
                    to_year as int,
                    now,
                )
                &&& ranks_overall(
                    board.members(),
                    event_mgr.events(),
                    order,
                    from_year as int,
                    to_year as int,
                )
                &&& forall|k: int|
                    0 <= k < board.members().len() ==> !event_mgr.excluded().contains(
                        (#[trigger] board.members()[k]).id(),
                    )
            },
            Lookup::Refresh(stale) => {
                &&& from_year <= stale <= to_year
                &&& !event_mgr.is_fresh(stale, now)
                &&& forall|year: EventYear|
                    from_year <= year < stale ==> #[trigger] event_mgr.is_fresh(year, now)
            },
        },
{
    let ghost events = event_mgr.events();
    let ghost from = from_year as int;
    let mut updated_at = now;
    let mut years: Vec<EventYear> = Vec::new();
    let mut entries: Vec<OverallScoredMember> = Vec::new();
    let mut index: HashMap<MemberId, usize> = HashMap::new();
    let mut next: i64 = from_year as i64;
    proof {
        broadcast use vstd::std_specs::hash::group_hash_axioms;

        assert(index@ =~= Map::<MemberId, usize>::empty());
        assert(years@ =~= years_between(from, from - 1));
    }
    while next <= to_year as i64
        invariant
            event_mgr.wf(),
            events == event_mgr.events(),
            from == from_year,
            from <= next,
            next <= to_year + 1 || next == from,
            NUM_PUZZLES * members_between(events, from, to_year as int) <= usize::MAX,
            valid_between(events, from, next - 1),
            forall|year: EventYear|
                from <= year < next ==> #[trigger] event_mgr.is_fresh(year, now),
            years@ == years_between(from, next - 1),
            updated_at == oldest_capture(events, from, next - 1, now),
            accumulated(entries@, index@, events, order, from, next - 1),
        decreases to_year + 1 - next,
    {
        let year = next as EventYear;
        match get_leaderboard(event_mgr, year, order, None, now) {
            Lookup::Ready(board) => {
                if next == from_year as i64 || board.updated_at() < updated_at {
                    updated_at = board.updated_at();
                }
                proof {
                    assert(years@.push(year) =~= years_between(from, next as int));
                    lemma_members_grow(events, from, next as int, to_year as int);
                    assert(NUM_PUZZLES * members_between(events, from, next as int) <= NUM_PUZZLES
                        * members_between(events, from, to_year as int)) by (nonlinear_arith)
                        requires
                            members_between(events, from, next as int) <= members_between(
                                events,
                                from,
                                to_year as int,
                            ),
                    ;
                }
                years.push(year);
                let standings = board.get_members();
                absorb_year(
                    &mut entries,
                    &mut index,
                    year,
                    &standings,
                    Ghost(events),
                    Ghost(order),
                    Ghost(from),
                );
            },
            Lookup::Refresh(_) => {
                return Lookup::Refresh(year);
            },
        }
        next += 1;
    }
    let ghost to = to_year as int;
    proof {
        if to_year < from_year {
            assert(years_between(from, next - 1) =~= years_between(from, to));
            lemma_nothing_accumulated(entries@, index@, events, order, from, next - 1);
        }
    }
    let ghost gathered = entries@;
    let members = sort_ranked(entries);
    proof {
        lemma_ranked_overall(members@, gathered, index@, event_mgr, order, from, to);
    }
    Lookup::Ready(OverallLeaderboard { updated_at, years, members })
}

/// Over no years at all nothing is accumulated.
proof fn lemma_nothing_accumulated(
    entries: Seq<OverallScoredMember>,
    index: Map<MemberId, usize>,
    events: Map<EventYear, Event>,
    order: LeaderboardOrder,
    from: int,
    to: int,
)
    requires
        to < from,
        accumulated(entries, index, events, order, from, to),
    ensures
        entries.len() == 0,
{
    if entries.len() > 0 {
        let id = entries[0].id();
        assert(is_first_name(events, from, to, id, entries[0].name()));
        let first = choose|first: int|
            first <= to && #[trigger] is_first_year(events, from, first, id) && record_of(
                events,
                first,
                id,
            ).name() == entries[0].name();
        assert(from <= first);
    }
}

/// Sorting the entries of a finished aggregation gives the standings.
proof fn lemma_ranked_overall(
    ranked: Seq<OverallScoredMember>,
    gathered: Seq<OverallScoredMember>,
    index: Map<MemberId, usize>,
    event_mgr: &EventManager,
    order: LeaderboardOrder,
    from: int,
    to: int,
)
    requires
        event_mgr.wf(),
        to < from ==> gathered.len() == 0,
        to >= from ==> accumulated(gathered, index, event_mgr.events(), order, from, to),
        is_ranked(ranked),
        same_entries(ranked, gathered),
        ranked.len() == gathered.len(),
    ensures
        ranks_overall(ranked, event_mgr.events(), order, from, to),
        forall|k: int|
            0 <= k < ranked.len() ==> !event_mgr.excluded().contains((#[trigger] ranked[k]).id()),
{
    let events = event_mgr.events();
    assert forall|k: int| 0 <= k < ranked.len() implies exists|j: int|
        0 <= j < gathered.len() && gathered[j] == #[trigger] ranked[k] by {
        assert(ranked.contains(ranked[k]));
        vstd::seq_lib::to_multiset_contains(gathered, ranked[k]);
        vstd::seq_lib::to_multiset_contains(ranked, ranked[k]);
        assert(gathered.contains(ranked[k]));
    }
    assert forall|k: int| 0 <= k < ranked.len() implies (#[trigger] ranked[k]).wf() && sums_up(
        ranked[k],
        events,
        order,
        from,
        to,
    ) && !event_mgr.excluded().contains(ranked[k].id()) by {
        let j = choose|j: int| 0 <= j < gathered.len() && gathered[j] == ranked[k];
        assert(gathered[j].wf());
        let id = ranked[k].id();
        let first = choose|first: int|
            first <= to && #[trigger] is_first_year(events, from, first, id) && record_of(
                events,
                first,
                id,
            ).name() == ranked[k].name();
        event_mgr.lemma_snapshots(first as EventYear);
    }
    assert forall|id: MemberId| took_part_between(events, from, to, id) implies #[trigger] names(
        ranked,
        id,
    ) by {
        assert(index.contains_key(id));
        let j = index[id] as int;
        assert(gathered.contains(gathered[j]));
        vstd::seq_lib::to_multiset_contains(gathered, gathered[j]);
        vstd::seq_lib::to_multiset_contains(ranked, gathered[j]);
        let k = choose|k: int| 0 <= k < ranked.len() && ranked[k] == gathered[j];
        assert(ranked[k].id() == id);
    }
    assert(gathered.no_duplicates()) by {
        assert forall|i: int, j: int|
            0 <= i < gathered.len() && 0 <= j < gathered.len() && i != j implies gathered[i]
            != gathered[j] by {
            assert(index[gathered[i].id()] == i);
            assert(index[gathered[j].id()] == j);
        }
    }
    gathered.lemma_multiset_has_no_duplicates();
    ranked.lemma_multiset_has_no_duplicates_conv();
    assert forall|j: int, k: int| 0 <= j < k < ranked.len() implies (#[trigger] ranked[j]).id() != (
    #[trigger] ranked[k]).id() && placed_before(ranked[j].rank_key(), ranked[k].rank_key()) by {
        assert(ranked[j] != ranked[k]);
        let a = choose|a: int| 0 <= a < gathered.len() && gathered[a] == ranked[j];
        let b = choose|b: int| 0 <= b < gathered.len() && gathered[b] == ranked[k];
        assert(index[gathered[a].id()] == a);
        assert(index[gathered[b].id()] == b);
        lemma_placement_order(ranked[j].rank_key(), ranked[k].rank_key(), ranked[j].rank_key());
    }
}

/// Whether every overall score over the years `from_year` to `to_year` is
/// certain to fit a `Score`, going by the sizes of the store's snapshots.
pub fn scores_fit(event_mgr: &EventManager, from_year: EventYear, to_year: EventYear) -> (fit: bool)
    ensures
        fit == (NUM_PUZZLES * members_between(
            event_mgr.events(),
            from_year as int,
            to_year as int,
        ) <= usize::MAX),
{
    let ghost events = event_mgr.events();
    let ghost from = from_year as int;
    let mut records: u128 = 0;
    let mut next: i64 = from_year as i64;
    while next <= to_year as i64
        invariant
            events == event_mgr.events(),
            from == from_year,
            from <= next,
            next <= to_year + 1 || next == from,
            records == members_between(events, from, next - 1),
            records <= (next - from) * usize::MAX,
        decreases to_year + 1 - next,
    {
        let size = event_mgr.snapshot_size(next as EventYear);
        proof {
            assert((next + 1 - from) * usize::MAX == (next - from) * usize::MAX + usize::MAX)
                by (nonlinear_arith);
            assert((next + 1 - from) * usize::MAX <= 0x1_0000_0000 * usize::MAX)
                by (nonlinear_arith)
                requires
                    next + 1 - from <= 0x1_0000_0000,
            ;
        }
        records = records + size as u128;
        next += 1;
    }
    proof {
        if to_year < from_year {
            assert(next == from);
        }
        assert((next - from) * usize::MAX <= 0x1_0000_0000 * usize::MAX) by (nonlinear_arith)
            requires
                0 <= next - from <= 0x1_0000_0000,
        ;
    }
    match records.checked_mul(NUM_PUZZLES as u128) {
        Some(bound) => bound <= usize::MAX as u128,
        None => false,
    }
}

/// The standings over the years `from_year` to `to_year` as
/// [`build_overall_leaderboard`] gives them, or nothing where the store's
/// snapshots are too large for the overall scores to be certain to fit a
/// `Score`.
pub fn get_overall_leaderboard(
    event_mgr: &EventManager,
    order: LeaderboardOrder,
    from_year: EventYear,
    to_year: EventYear,
    now: Timestamp,
) -> (found: Option<Lookup<OverallLeaderboard>>)
    requires
        event_mgr.wf(),
    ensures
        found is Some <==> NUM_PUZZLES * members_between(
            event_mgr.events(),
            from_year as int,
            to_year as int,
        ) <= usize::MAX,
        match found {
            Some(Lookup::Ready(board)) => {
                &&& forall|year: EventYear|
                    from_year <= year <= to_year ==> #[trigger] event_mgr.is_fresh(year, now)
                &&& board.years() == years_between(from_year as int, to_year as int)
                &&& board.updated_at() == oldest_capture(
                    event_mgr.events(),
                    from_year as int,
                    to_year as int,
                    now,
                )
                &&& ranks_overall(
                    board.members(),
                    event_mgr.events(),
                    order,
                    from_year as int,
                    to_year as int,
                )
                &&& forall|k: int|
                    0 <= k < board.members().len() ==> !event_mgr.excluded().contains(
                        (#[trigger] board.members()[k]).id(),
                    )
            },
            Some(Lookup::Refresh(stale)) => {
                &&& from_year <= stale <= to_year
                &&& !event_mgr.is_fresh(stale, now)
                &&& forall|year: EventYear|
                    from_year <= year < stale ==> #[trigger] event_mgr.is_fresh(year, now)
            },
            None => true,
        },
{
    if scores_fit(event_mgr, from_year, to_year) {
        Some(build_overall_leaderboard(event_mgr, order, from_year, to_year, now))
    } else {
        None
    }
}

} // verus!
