//! Snapshots of an event year, the two scoring policies and the ranked
//! leaderboard they produce, and the store that keeps snapshots fresh.

use crate::aoc::{
    collect_members, distinct_ids, first_failure, gathered_members, is_visible,
    lemma_merged_members, member_ids, merge_members, merged_members, puzzle_at, puzzle_of,
    CompletionLevel, EventYear, FetchError, Member, MemberId, PuzzleId, Score, Timestamp,
    NUM_PUZZLES, NUM_PUZZLE_DAYS,
};
use crate::ranking::{
    is_ranked, lemma_placement_order, placed_before, ranks_above, same_entries, sort_ranked,
    RankKey, Ranked,
};
use crate::text::same_text;
use std::collections::{HashMap, HashSet};
use vstd::prelude::*;
use vstd::relations::injective_on;
use vstd::set_lib::{
    lemma_int_range, lemma_len_subset, lemma_map_size, lemma_subset_equality, set_int_range,
};

verus! {

/// How a leaderboard scores its members.
#[derive(Clone, Copy, PartialEq, Eq, Debug, Structural)]
pub enum LeaderboardOrder {
    /// Points per puzzle by order of completion.
    LocalScore,
    /// One point per star.
    Stars,
}

impl LeaderboardOrder {
    /// The name by which a policy is chosen.
    pub open spec fn name(self) -> Seq<char> {
        match self {
            LeaderboardOrder::LocalScore => "local_score"@,
            LeaderboardOrder::Stars => "stars"@,
        }
    }

    /// The name by which a policy is chosen.
    pub fn as_str(&self) -> (name: &'static str)
        ensures
            name@ == self.name(),
    {
        match self {
            LeaderboardOrder::LocalScore => "local_score",
            LeaderboardOrder::Stars => "stars",
        }
    }

    /// The policy that goes by `name`, if one does.
    pub open spec fn named(name: Seq<char>) -> Option<Self> {
        if name == LeaderboardOrder::LocalScore.name() {
            Some(LeaderboardOrder::LocalScore)
        } else if name == LeaderboardOrder::Stars.name() {
            Some(LeaderboardOrder::Stars)
        } else {
            None
        }
    }

    /// The policy called `value`.
    pub fn try_from(value: &str) -> (order: Result<Self, &'static str>)
        ensures
            match order {
                Ok(order) => Self::named(value@) == Some(order),
                Err(message) => Self::named(value@) is None && message@
                    == "Invalid leaderboard order"@,
            },
    {
        if same_text(value, "local_score") {
            Ok(LeaderboardOrder::LocalScore)
        } else if same_text(value, "stars") {
            Ok(LeaderboardOrder::Stars)
        } else {
            Err("Invalid leaderboard order")
        }
    }
}

/// Whether a finish at `time_a` by member `id_a` comes before a finish at
/// `time_b` by member `id_b`: the earlier time first, and at equal times the
/// smaller identity.
pub open spec fn finishes_before(
    time_a: Timestamp,
    id_a: MemberId,
    time_b: Timestamp,
    id_b: MemberId,
) -> bool {
    time_a < time_b || (time_a == time_b && id_a < id_b)
}

/// Positions of the members that have solved `puzzle` by the cutoff.
pub open spec fn finishers(members: Seq<Member>, puzzle: PuzzleId, as_of: Option<Timestamp>) -> Set<
    int,
> {
    Set::new(|i: int| 0 <= i < members.len() && members[i].finished(puzzle, as_of))
}

/// Positions below `limit` of the members that solved `puzzle` by the
/// cutoff and before the member at position `who` did.
pub open spec fn ahead_among(
    members: Seq<Member>,
    puzzle: PuzzleId,
    as_of: Option<Timestamp>,
    who: int,
    limit: int,
) -> Set<int> {
    Set::new(
        |j: int|
            0 <= j < limit && members[j].finished(puzzle, as_of) && finishes_before(
                members[j].completed()[puzzle],
                members[j].id(),
                members[who].completed()[puzzle],
                members[who].id(),
            ),
    )
}

/// Positions of the members that solved `puzzle` before the member at `who`.
pub open spec fn ahead_of(
    members: Seq<Member>,
    puzzle: PuzzleId,
    as_of: Option<Timestamp>,
    who: int,
) -> Set<int> {
    ahead_among(members, puzzle, as_of, who, members.len() as int)
}

/// Points that `puzzle` earns the member at `who`: as many as there are
/// members for the first to solve it, one less for each who solved it
/// before, and none for a member who has not solved it by the cutoff.
pub open spec fn puzzle_points(
    members: Seq<Member>,
    puzzle: PuzzleId,
    as_of: Option<Timestamp>,
    who: int,
) -> int {
    if members[who].finished(puzzle, as_of) {
        members.len() - ahead_of(members, puzzle, as_of, who).len()
    } else {
        0
    }
}

/// Points of the member at `who` over the first `slots` puzzles of the
/// calendar.
pub open spec fn local_points(
    members: Seq<Member>,
    as_of: Option<Timestamp>,
    who: int,
    slots: int,
) -> int
    decreases slots,
{
    if slots <= 0 {
        0
    } else {
        local_points(members, as_of, who, slots - 1) + puzzle_points(
            members,
            puzzle_at(slots - 1),
            as_of,
            who,
        )
    }
}

/// Local score of the member at `who`: its points over all puzzles.
pub open spec fn local_score(members: Seq<Member>, as_of: Option<Timestamp>, who: int) -> int {
    local_points(members, as_of, who, NUM_PUZZLES as int)
}

/// Star score of the member at `who`: the number of puzzles it has solved
/// by the cutoff.
pub open spec fn star_score(members: Seq<Member>, as_of: Option<Timestamp>, who: int) -> int {
    members[who].finished_puzzles(as_of).len() as int
}

/// Score of the member at `who` under the given policy.
pub open spec fn policy_score(
    order: LeaderboardOrder,
    members: Seq<Member>,
    as_of: Option<Timestamp>,
    who: int,
) -> int {
    match order {
        LeaderboardOrder::LocalScore => local_score(members, as_of, who),
        LeaderboardOrder::Stars => star_score(members, as_of, who),
    }
}

/// Whether `puzzle` earns some finisher exactly `points`.
pub open spec fn awards(
    members: Seq<Member>,
    puzzle: PuzzleId,
    as_of: Option<Timestamp>,
    points: int,
) -> bool {
    exists|i: int|
        finishers(members, puzzle, as_of).contains(i) && #[trigger] puzzle_points(
            members,
            puzzle,
            as_of,
            i,
        ) == points
}

/// The finishers of a puzzle are finitely many, and so are those ahead of
/// any one of them, who is never ahead of itself.
pub proof fn lemma_finishers(
    members: Seq<Member>,
    puzzle: PuzzleId,
    as_of: Option<Timestamp>,
    who: int,
)
    ensures
        finishers(members, puzzle, as_of).finite(),
        finishers(members, puzzle, as_of).len() <= members.len(),
        ahead_of(members, puzzle, as_of, who).finite(),
        ahead_of(members, puzzle, as_of, who).subset_of(finishers(members, puzzle, as_of)),
        ahead_of(members, puzzle, as_of, who).len() <= finishers(members, puzzle, as_of).len(),
        !ahead_of(members, puzzle, as_of, who).contains(who),
        finishers(members, puzzle, as_of).contains(who) ==> ahead_of(
            members,
            puzzle,
            as_of,
            who,
        ).len() < finishers(members, puzzle, as_of).len(),
{
    let solved = finishers(members, puzzle, as_of);
    let ahead = ahead_of(members, puzzle, as_of, who);
    let positions = set_int_range(0, members.len() as int);
    lemma_int_range(0, members.len() as int);
    assert(solved.subset_of(positions));
    lemma_len_subset(solved, positions);
    assert(ahead.subset_of(solved));
    lemma_len_subset(ahead, solved);
    if solved.contains(who) {
        assert(ahead.subset_of(solved.remove(who)));
        lemma_len_subset(ahead, solved.remove(who));
    }
}

/// The points that one puzzle awards: with `k` finishers among `n` members
/// they are `n`, `n - 1`, down to `n - k + 1`, each value awarded to exactly
/// one finisher, and nothing to the others.
pub proof fn lemma_puzzle_points_run(
    members: Seq<Member>,
    puzzle: PuzzleId,
    as_of: Option<Timestamp>,
)
    requires
        distinct_ids(members),
    ensures
        finishers(members, puzzle, as_of).finite(),
        finishers(members, puzzle, as_of).len() <= members.len(),
        forall|i: int|
            0 <= i < members.len() && !finishers(members, puzzle, as_of).contains(i)
                ==> #[trigger] puzzle_points(members, puzzle, as_of, i) == 0,
        forall|i: int|
            finishers(members, puzzle, as_of).contains(i) ==> members.len() - finishers(
                members,
                puzzle,
                as_of,
            ).len() < #[trigger] puzzle_points(members, puzzle, as_of, i) <= members.len(),
        forall|i: int, j: int|
            finishers(members, puzzle, as_of).contains(i) && finishers(
                members,
                puzzle,
                as_of,
            ).contains(j) && i != j ==> #[trigger] puzzle_points(members, puzzle, as_of, i)
                != #[trigger] puzzle_points(members, puzzle, as_of, j),
        forall|points: int|
            members.len() - finishers(members, puzzle, as_of).len() < points <= members.len()
                ==> #[trigger] awards(members, puzzle, as_of, points),
{
    let total = members.len() as int;
    let solved = finishers(members, puzzle, as_of);
    let place = |i: int| ahead_of(members, puzzle, as_of, i).len() as int;
    lemma_finishers(members, puzzle, as_of, 0);
    assert forall|i: int| solved.contains(i) implies total - solved.len() < #[trigger] puzzle_points(
        members,
        puzzle,
        as_of,
        i,
    ) <= total by {
        lemma_finishers(members, puzzle, as_of, i);
    }
    assert forall|i: int, j: int| solved.contains(i) && solved.contains(j) && i != j implies place(
        i,
    ) != place(j) by {
        lemma_places_differ(members, puzzle, as_of, i, j);
    }
    assert(injective_on(place, solved));
    let places = solved.map(place);
    lemma_map_size(solved, places, place);
    let run = set_int_range(0, solved.len() as int);
    lemma_int_range(0, solved.len() as int);
    assert forall|r: int| places.contains(r) implies run.contains(r) by {
        let i = choose|i: int| solved.contains(i) && place(i) == r;
        lemma_finishers(members, puzzle, as_of, i);
    }
    lemma_subset_equality(places, run);
    assert forall|points: int| total - solved.len() < points <= total implies #[trigger] awards(
        members,
        puzzle,
        as_of,
        points,
    ) by {
        assert(run.contains(total - points));
        assert(places.contains(total - points));
        let i = choose|i: int| solved.contains(i) && place(i) == total - points;
        assert(puzzle_points(members, puzzle, as_of, i) == points);
    }
}

/// Of two finishers of a puzzle the one that finished first has fewer
/// members ahead of it.
proof fn lemma_places_differ(
    members: Seq<Member>,
    puzzle: PuzzleId,
    as_of: Option<Timestamp>,
    i: int,
    j: int,
)
    requires
        distinct_ids(members),
        finishers(members, puzzle, as_of).contains(i),
        finishers(members, puzzle, as_of).contains(j),
        i != j,
    ensures
        ahead_of(members, puzzle, as_of, i).len() != ahead_of(members, puzzle, as_of, j).len(),
{
    let first = if finishes_before(
        members[i].completed()[puzzle],
        members[i].id(),
        members[j].completed()[puzzle],
        members[j].id(),
    ) {
        i
    } else {
        j
    };
    let second = if first == i {
        j
    } else {
        i
    };
    assert(members[i].id() != members[j].id()) by {
        if i < j {
            assert(members[i].id() != members[j].id());
        } else {
            assert(members[j].id() != members[i].id());
        }
    }
    let fewer = ahead_of(members, puzzle, as_of, first);
    let more = ahead_of(members, puzzle, as_of, second);
    lemma_finishers(members, puzzle, as_of, first);
    lemma_finishers(members, puzzle, as_of, second);
    assert(more.contains(first));
    assert(fewer.insert(first).subset_of(more));
    lemma_len_subset(fewer.insert(first), more);
}

/// A score is never negative and at most the number of puzzles times the
/// number of members.
pub proof fn lemma_score_bounds(
    order: LeaderboardOrder,
    members: Seq<Member>,
    as_of: Option<Timestamp>,
    who: int,
)
    requires
        0 <= who < members.len(),
    ensures
        0 <= policy_score(order, members, as_of, who) <= NUM_PUZZLES * members.len(),
{
    lemma_local_points_bounds(members, as_of, who, NUM_PUZZLES as int);
    members[who].lemma_finished_puzzles(as_of);
}

/// The points over the first puzzles of the calendar are at most their
/// number times the number of members.
pub proof fn lemma_local_points_bounds(
    members: Seq<Member>,
    as_of: Option<Timestamp>,
    who: int,
    slots: int,
)
    requires
        0 <= slots,
    ensures
        0 <= local_points(members, as_of, who, slots) <= slots * members.len(),
    decreases slots,
{
    if slots > 0 {
        lemma_local_points_bounds(members, as_of, who, slots - 1);
        lemma_finishers(members, puzzle_at(slots - 1), as_of, who);
        assert(slots * members.len() == (slots - 1) * members.len() + members.len())
            by (nonlinear_arith);
    }
}

/// Stars per day of the event that `member` holds at the cutoff.
pub open spec fn stars_by_day(member: Member, as_of: Option<Timestamp>) -> Seq<CompletionLevel> {
    Seq::new(
        NUM_PUZZLE_DAYS as nat,
        |d: int| member.finished_on((d + 1) as u8, as_of).len() as CompletionLevel,
    )
}

/// The ranking of scored members is total: of any two, either the first
/// ranks above the second, or the second above the first, or their scores
/// and last stars are both equal; and never two of these at once.
pub proof fn lemma_ranking_is_total(a: ScoredMember, b: ScoredMember)
    ensures
        ranks_above(a.rank_key(), b.rank_key()) || ranks_above(b.rank_key(), a.rank_key()) || (
        a.score() == b.score() && a.last_star() == b.last_star()),
        !(ranks_above(a.rank_key(), b.rank_key()) && ranks_above(b.rank_key(), a.rank_key())),
        !(ranks_above(a.rank_key(), b.rank_key()) && a.score() == b.score() && a.last_star()
            == b.last_star()),
        !(ranks_above(b.rank_key(), a.rank_key()) && a.score() == b.score() && a.last_star()
            == b.last_star()),
{
}

/// A member together with its standing under one scoring policy.
#[derive(Debug)]
pub struct ScoredMember {
    id: MemberId,
    name: String,
    stars: Vec<CompletionLevel>,
    last_star: Timestamp,
    score: Score,
}

impl ScoredMember {
    pub closed spec fn id(&self) -> MemberId {
        self.id
    }

    pub closed spec fn name(&self) -> Seq<char> {
        self.name@
    }

    pub closed spec fn stars(&self) -> Seq<CompletionLevel> {
        self.stars@
    }

    pub closed spec fn last_star(&self) -> Timestamp {
        self.last_star
    }

    pub closed spec fn score(&self) -> Score {
        self.score
    }

    /// The entry shows `member` as it stood at the cutoff, with `score`.
    pub open spec fn describes(&self, member: Member, as_of: Option<Timestamp>, score: int) -> bool {
        &&& self.id() == member.id()
        &&& self.name() == member.name()
        &&& self.stars() == stars_by_day(member, as_of)
        &&& self.last_star() == member.last_star(as_of)
        &&& self.score() == score
    }

    pub fn build(member: &Member, as_of: Option<Timestamp>, score: Score) -> (scored: Self)
        ensures
            scored.describes(*member, as_of, score as int),
    {
        let stars = member.get_stars(as_of);
        let scored = Self {
            id: member.get_id(),
            name: member.get_name().clone(),
            stars,
            last_star: member.get_last_star(as_of),
            score,
        };
        proof {
            member.lemma_finished_puzzles(as_of);
            assert forall|d: int| 0 <= d < NUM_PUZZLE_DAYS implies scored.stars()[d]
                == stars_by_day(*member, as_of)[d] by {
                let on_day = member.finished_on((d + 1) as u8, as_of);
                assert(on_day.subset_of(member.finished_puzzles(as_of)));
                vstd::set_lib::lemma_len_subset(on_day, member.finished_puzzles(as_of));
            }
            assert(scored.stars() =~= stars_by_day(*member, as_of));
        }
        scored
    }

    pub fn get_id(&self) -> (id: MemberId)
        ensures
            id == self.id(),
    {
        self.id
    }

    pub fn get_name(&self) -> (name: &String)
        ensures
            name@ == self.name(),
    {
        &self.name
    }

    pub fn get_stars(&self) -> (stars: &Vec<CompletionLevel>)
        ensures
            stars@ == self.stars(),
    {
        &self.stars
    }

    pub fn get_last_star(&self) -> (last_star: Timestamp)
        ensures
            last_star == self.last_star(),
    {
        self.last_star
    }

    pub fn get_score(&self) -> (score: Score)
        ensures
            score == self.score(),
    {
        self.score
    }
}

impl Ranked for ScoredMember {
    open spec fn rank_key(&self) -> RankKey {
        RankKey { score: self.score(), last_star: self.last_star(), id: self.id() }
    }

    fn key(&self) -> (key: RankKey) {
        RankKey { score: self.score, last_star: self.last_star, id: self.id }
    }
}

/// Some entry shows `member` as it stood at the cutoff, with `score`.
pub open spec fn has_entry(
    entries: Seq<ScoredMember>,
    member: Member,
    as_of: Option<Timestamp>,
    score: int,
) -> bool {
    exists|k: int| 0 <= k < entries.len() && (#[trigger] entries[k]).describes(member, as_of, score)
}

/// The entry shows one of `members` with its score under `order`.
pub open spec fn is_entry_of(
    entry: ScoredMember,
    members: Seq<Member>,
    order: LeaderboardOrder,
    as_of: Option<Timestamp>,
) -> bool {
    exists|i: int|
        0 <= i < members.len() && entry.describes(
            #[trigger] members[i],
            as_of,
            policy_score(order, members, as_of, i),
        )
}

/// The entries rank every one of `members`, each once, scored under `order`
/// as of the cutoff, from first place to last.
pub open spec fn ranks_members(
    entries: Seq<ScoredMember>,
    members: Seq<Member>,
    order: LeaderboardOrder,
    as_of: Option<Timestamp>,
) -> bool {
    &&& entries.len() == members.len()
    &&& forall|i: int|
        0 <= i < members.len() ==> has_entry(
            entries,
            #[trigger] members[i],
            as_of,
            policy_score(order, members, as_of, i),
        )
    &&& forall|k: int|
        0 <= k < entries.len() ==> is_entry_of(#[trigger] entries[k], members, order, as_of)
    &&& forall|j: int, k: int|
        0 <= j < k < entries.len() ==> placed_before(
            #[trigger] entries[j].rank_key(),
            #[trigger] entries[k].rank_key(),
        )
}

/// The ranked standings of one event year.
#[derive(Debug)]
pub struct Leaderboard {
    updated_at: Timestamp,
    members: Vec<ScoredMember>,
}

impl Leaderboard {
    pub closed spec fn spec_updated_at(&self) -> Timestamp {
        self.updated_at
    }

    /// The entries from first place to last.
    pub closed spec fn members(&self) -> Seq<ScoredMember> {
        self.members@
    }

    pub fn new(updated_at: Timestamp, members: Vec<ScoredMember>) -> (board: Self)
        ensures
            board.updated_at() == updated_at,
            board.members() == members@,
    {
        Self { updated_at, members }
    }

    /// When the snapshot behind these standings was captured.
    #[verifier::when_used_as_spec(spec_updated_at)]
    pub fn updated_at(&self) -> (updated_at: Timestamp)
        ensures
            updated_at == self.updated_at(),
    {
        self.updated_at
    }

    pub fn get_members(self) -> (members: Vec<ScoredMember>)
        ensures
            members@ == self.members(),
    {
        self.members
    }
}

/// The members of one event year as captured at one instant.
#[derive(Debug)]
pub struct Event {
    members: Vec<Member>,
    updated_at: Timestamp,
}

impl Event {
    /// A snapshot holds one record per member, and few enough members for
    /// every score to fit.
    #[verifier::type_invariant]
    pub closed spec fn wf(&self) -> bool {
        &&& distinct_ids(self.members@)
        &&& self.members@.len() * NUM_PUZZLES <= usize::MAX
    }

    pub closed spec fn members(&self) -> Seq<Member> {
        self.members@
    }

    /// The instant at which the snapshot was captured.
    pub closed spec fn updated_at(&self) -> Timestamp {
        self.updated_at
    }

    /// What a valid snapshot guarantees.
    pub proof fn lemma_wf(&self)
        requires
            self.wf(),
        ensures
            distinct_ids(self.members()),
            self.members().len() * NUM_PUZZLES <= usize::MAX,
    {
    }

    /// A snapshot of `members` captured at `updated_at`. Of several records
    /// with one identity the first is kept.
    pub fn new(members: Vec<Member>, updated_at: Timestamp) -> (event: Self)
        requires
            members@.len() * NUM_PUZZLES <= usize::MAX,
        ensures
            event.wf(),
            event.members() == merged_members(members@, Set::empty()),
            event.updated_at() == updated_at,
    {
        let nobody: HashSet<MemberId> = HashSet::new();
        proof {
            lemma_merged_members(members@, Set::empty());
        }
        Self::of_merged(merge_members(members, &nobody), updated_at)
    }

    /// A snapshot of members that are known to have distinct identities.
    fn of_merged(members: Vec<Member>, updated_at: Timestamp) -> (event: Self)
        requires
            distinct_ids(members@),
            members@.len() * NUM_PUZZLES <= usize::MAX,
        ensures
            event.wf(),
            event.members() == members@,
            event.updated_at() == updated_at,
    {
        Self { members, updated_at }
    }

    /// Number of members in the snapshot.
    pub fn member_count(&self) -> (count: usize)
        ensures
            count == self.members().len(),
    {
        self.members.len()
    }

    /// When the snapshot was captured.
    pub fn captured_at(&self) -> (updated_at: Timestamp)
        ensures
            updated_at == self.updated_at(),
    {
        self.updated_at
    }

    /// Number of members that solved `puzzle` by the cutoff and before the
    /// member at position `who` did.
    fn count_ahead(&self, puzzle: PuzzleId, as_of: Option<Timestamp>, who: usize) -> (count: usize)
        requires
            who < self.members().len(),
            self.members()[who as int].finished(puzzle, as_of),
        ensures
            count == ahead_of(self.members(), puzzle, as_of, who as int).len(),
            count < self.members().len(),
    {
        let ghost members = self.members@;
        let time = self.members[who].completed_at(puzzle).unwrap();
        let id = self.members[who].get_id();
        let mut count: usize = 0;
        let mut j: usize = 0;
        assert(ahead_among(members, puzzle, as_of, who as int, 0) =~= Set::empty());
        while j < self.members.len()
            invariant
                j <= members.len(),
                members == self.members@,
                who < members.len(),
                members[who as int].finished(puzzle, as_of),
                time == members[who as int].completed()[puzzle],
                id == members[who as int].id(),
                ahead_among(members, puzzle, as_of, who as int, j as int).finite(),
                count == ahead_among(members, puzzle, as_of, who as int, j as int).len(),
                count + (if who < j { 1int } else { 0int }) <= j,
            decreases members.len() - j,
        {
            let other = &self.members[j];
            let ahead = match other.completed_at(puzzle) {
                Some(other_time) => is_visible(other_time, as_of) && (other_time < time || (
                other_time == time && other.get_id() < id)),
                None => false,
            };
            let ghost before = ahead_among(members, puzzle, as_of, who as int, j as int);
            let ghost after = ahead_among(members, puzzle, as_of, who as int, j + 1);
            if ahead {
                assert(after =~= before.insert(j as int));
                count += 1;
            } else {
                assert(after =~= before);
            }
            j += 1;
        }
        count
    }

    /// Every member with its local score as of the cutoff, in the
    /// snapshot's own order.
    pub fn local_score(&self, as_of: Option<Timestamp>) -> (scored: Vec<ScoredMember>)
        ensures
            scored@.len() == self.members().len(),
            forall|i: int|
                0 <= i < scored@.len() ==> (#[trigger] scored@[i]).describes(
                    self.members()[i],
                    as_of,
                    local_score(self.members(), as_of, i),
                ),
    {
        proof {
            use_type_invariant(self);
        }
        let ghost members = self.members@;
        let total = self.members.len();
        let mut scored: Vec<ScoredMember> = Vec::new();
        let mut who: usize = 0;
        while who < total
            invariant
                who <= total,
                total == members.len(),
                members == self.members@,
                total * NUM_PUZZLES <= usize::MAX,
                scored@.len() == who,
                forall|i: int|
                    0 <= i < who ==> (#[trigger] scored@[i]).describes(
                        members[i],
                        as_of,
                        local_score(members, as_of, i),
                    ),
            decreases total - who,
        {
            let member = &self.members[who];
            let mut score: Score = 0;
            let mut slot: usize = 0;
            while slot < NUM_PUZZLES
                invariant
                    slot <= NUM_PUZZLES,
                    who < total,
                    total == members.len(),
                    members == self.members@,
                    *member == members[who as int],
                    total * NUM_PUZZLES <= usize::MAX,
                    score == local_points(members, as_of, who as int, slot as int),
                    score <= slot * total,
                decreases NUM_PUZZLES - slot,
            {
                let puzzle = puzzle_of(slot);
                let solved = match member.completed_at(puzzle) {
                    Some(time) => is_visible(time, as_of),
                    None => false,
                };
                proof {
                    assert((slot + 1) * total == slot * total + total) by (nonlinear_arith);
                    assert((slot + 1) * total <= NUM_PUZZLES * total) by (nonlinear_arith)
                        requires
                            slot + 1 <= NUM_PUZZLES,
                    ;
                }
                if solved {
                    let ahead = self.count_ahead(puzzle, as_of, who);
                    score += total - ahead;
                }
                slot += 1;
            }
            scored.push(ScoredMember::build(member, as_of, score));
            who += 1;
        }
        scored
    }

    /// Every member with its star count as of the cutoff, in the
    /// snapshot's own order.
    pub fn star_score(&self, as_of: Option<Timestamp>) -> (scored: Vec<ScoredMember>)
        ensures
            scored@.len() == self.members().len(),
            forall|i: int|
                0 <= i < scored@.len() ==> (#[trigger] scored@[i]).describes(
                    self.members()[i],
                    as_of,
                    star_score(self.members(), as_of, i),
                ),
    {
        let mut scored: Vec<ScoredMember> = Vec::new();
        let mut who: usize = 0;
        while who < self.members.len()
            invariant
                who <= self.members@.len(),
                scored@.len() == who,
                forall|i: int|
                    0 <= i < who ==> (#[trigger] scored@[i]).describes(
                        self.members@[i],
                        as_of,
                        star_score(self.members@, as_of, i),
                    ),
            decreases self.members@.len() - who,
        {
            let member = &self.members[who];
            scored.push(ScoredMember::build(member, as_of, member.star_count(as_of)));
            who += 1;
        }
        scored
    }

    /// The standings of the snapshot under `order` as of the cutoff.
    pub fn build_leaderboard(&self, order: LeaderboardOrder, as_of: Option<Timestamp>) -> (board:
        Leaderboard)
        ensures
            board.updated_at() == self.updated_at(),
            ranks_members(board.members(), self.members(), order, as_of),
    {
        proof {
            use_type_invariant(self);
        }
        let scored = match order {
            LeaderboardOrder::LocalScore => self.local_score(as_of),
            LeaderboardOrder::Stars => self.star_score(as_of),
        };
        let ranked = sort_ranked(scored);
        proof {
            lemma_ranked_members(ranked@, scored@, self.members@, order, as_of);
        }
        Leaderboard::new(self.updated_at, ranked)
    }
}

/// Sorting the scored members of a snapshot gives its standings.
proof fn lemma_ranked_members(
    ranked: Seq<ScoredMember>,
    scored: Seq<ScoredMember>,
    members: Seq<Member>,
    order: LeaderboardOrder,
    as_of: Option<Timestamp>,
)
    requires
        distinct_ids(members),
        scored.len() == members.len(),
        forall|i: int|
            0 <= i < scored.len() ==> (#[trigger] scored[i]).describes(
                members[i],
                as_of,
                policy_score(order, members, as_of, i),
            ),
        is_ranked(ranked),
        same_entries(ranked, scored),
        ranked.len() == scored.len(),
    ensures
        ranks_members(ranked, members, order, as_of),
{
    broadcast use vstd::seq_lib::group_to_multiset_ensures;

    assert forall|i: int| 0 <= i < members.len() implies has_entry(
        ranked,
        #[trigger] members[i],
        as_of,
        policy_score(order, members, as_of, i),
    ) by {
        assert(scored.contains(scored[i]));
        vstd::seq_lib::to_multiset_contains(scored, scored[i]);
        vstd::seq_lib::to_multiset_contains(ranked, scored[i]);
        let k = choose|k: int| 0 <= k < ranked.len() && ranked[k] == scored[i];
        assert(ranked[k].describes(members[i], as_of, policy_score(order, members, as_of, i)));
    }
    assert forall|k: int| 0 <= k < ranked.len() implies is_entry_of(
        #[trigger] ranked[k],
        members,
        order,
        as_of,
    ) by {
        assert(ranked.contains(ranked[k]));
        vstd::seq_lib::to_multiset_contains(scored, ranked[k]);
        vstd::seq_lib::to_multiset_contains(ranked, ranked[k]);
        let i = choose|i: int| 0 <= i < scored.len() && scored[i] == ranked[k];
        assert(ranked[k].describes(members[i], as_of, policy_score(order, members, as_of, i)));
    }
    assert(scored.no_duplicates()) by {
        assert forall|i: int, j: int| 0 <= i < scored.len() && 0 <= j < scored.len() && i
            != j implies scored[i] != scored[j] by {
            assert(scored[i].id() == members[i].id());
            assert(scored[j].id() == members[j].id());
        }
    }
    scored.lemma_multiset_has_no_duplicates();
    ranked.lemma_multiset_has_no_duplicates_conv();
    assert forall|j: int, k: int| 0 <= j < k < ranked.len() implies placed_before(
        #[trigger] ranked[j].rank_key(),
        #[trigger] ranked[k].rank_key(),
    ) by {
        assert(ranked[j] != ranked[k]);
        vstd::seq_lib::to_multiset_contains(scored, ranked[j]);
        vstd::seq_lib::to_multiset_contains(ranked, ranked[j]);
        vstd::seq_lib::to_multiset_contains(scored, ranked[k]);
        vstd::seq_lib::to_multiset_contains(ranked, ranked[k]);
        assert(ranked.contains(ranked[j]));
        assert(ranked.contains(ranked[k]));
        assert(scored.contains(ranked[j]));
        assert(scored.contains(ranked[k]));
        let a = choose|a: int| 0 <= a < scored.len() && scored[a] == ranked[j];
        let b = choose|b: int| 0 <= b < scored.len() && scored[b] == ranked[k];
        assert(members[a].id() != members[b].id());
        lemma_placement_order(ranked[j].rank_key(), ranked[k].rank_key(), ranked[j].rank_key());
    }
}

/// The standings of `year` from the store's snapshot, if that is fresh at
/// `now`; else the request to refresh it. The standings never show a member
/// of an excluded identity.
pub fn get_leaderboard(
    event_mgr: &EventManager,
    year: EventYear,
    leaderboard_order: LeaderboardOrder,
    as_of: Option<Timestamp>,
    now: Timestamp,
) -> (found: Lookup<Leaderboard>)
    requires
        event_mgr.wf(),
    ensures
        match found {
            Lookup::Ready(board) => {
                &&& event_mgr.is_fresh(year, now)
                &&& event_mgr.events()[year].wf()
                &&& board.updated_at() == event_mgr.events()[year].updated_at()
                &&& ranks_members(
                    board.members(),
                    event_mgr.events()[year].members(),
                    leaderboard_order,
                    as_of,
                )
                &&& forall|k: int|
                    0 <= k < board.members().len() ==> !event_mgr.excluded().contains(
                        (#[trigger] board.members()[k]).id(),
                    )
            },
            Lookup::Refresh(stale) => stale == year && !event_mgr.is_fresh(year, now),
        },
{
    match event_mgr.get_event(year, now) {
        Some(event) => {
            let board = event.build_leaderboard(leaderboard_order, as_of);
            proof {
                event_mgr.lemma_snapshots(year);
                let members = event.members();
                assert forall|k: int| 0 <= k < board.members().len() implies !event_mgr.excluded().contains(
                    (#[trigger] board.members()[k]).id(),
                ) by {
                    assert(is_entry_of(board.members()[k], members, leaderboard_order, as_of));
                    let i = choose|i: int|
                        0 <= i < members.len() && board.members()[k].describes(
                            #[trigger] members[i],
                            as_of,
                            policy_score(leaderboard_order, members, as_of, i),
                        );
                    assert(member_ids(members).contains(members[i].id()));
                }
            }
            Lookup::Ready(board)
        },
        None => Lookup::Refresh(year),
    }
}

/// Whether a snapshot captured at `captured_at` still counts as fresh at
/// `now`, given the number of seconds a snapshot stays fresh.
pub open spec fn is_fresh_at(now: Timestamp, captured_at: Timestamp, ttl_seconds: u64) -> bool {
    now - captured_at < ttl_seconds
}

/// What a caller of the store does next.
#[derive(Debug)]
pub enum Lookup<T> {
    /// Every snapshot that was needed is fresh; here is the answer.
    Ready(T),
    /// The snapshot of this year is missing or stale: refresh it and ask
    /// again.
    Refresh(EventYear),
}

/// The store of snapshots, one per event year, each fresh for a limited
/// time after its capture.
#[derive(Debug)]
pub struct EventManager {
    leaderboard_ids: Vec<String>,
    session_cookie: String,
    update_sec: u64,
    exclude_members: HashSet<MemberId>,
    events: HashMap<EventYear, Event>,
}

impl EventManager {
    /// No snapshot of the store holds a member of an excluded identity.
    pub closed spec fn wf(&self) -> bool {
        forall|year: EventYear, i: int|
            self.events@.contains_key(year) && 0 <= i < self.events@[year].members().len()
                ==> !self.exclude_members@.contains(
                (#[trigger] self.events@[year].members()[i]).id(),
            )
    }

    /// The snapshots held, by event year.
    pub closed spec fn events(&self) -> Map<EventYear, Event> {
        self.events@
    }

    /// Seconds for which a snapshot stays fresh.
    pub closed spec fn ttl_seconds(&self) -> u64 {
        self.update_sec
    }

    /// The identities that are kept out of every snapshot.
    pub closed spec fn excluded(&self) -> Set<MemberId> {
        self.exclude_members@
    }

    /// The identifiers of the leaderboards that are merged into a snapshot.
    pub closed spec fn sources(&self) -> Seq<String> {
        self.leaderboard_ids@
    }

    /// The credential presented to the upstream source.
    pub closed spec fn credential(&self) -> Seq<char> {
        self.session_cookie@
    }

    /// Whether the store holds a snapshot of `year` that is fresh at `now`.
    pub open spec fn is_fresh(&self, year: EventYear, now: Timestamp) -> bool {
        self.events().contains_key(year) && is_fresh_at(
            now,
            self.events()[year].updated_at(),
            self.ttl_seconds(),
        )
    }

    /// What holds of the store's snapshots: each is a valid snapshot without
    /// any excluded member.
    pub proof fn lemma_snapshots(&self, year: EventYear)
        requires
            self.wf(),
            self.events().contains_key(year),
        ensures
            forall|id: MemberId|
                member_ids(self.events()[year].members()).contains(id) ==> !self.excluded().contains(
                    id,
                ),
    {
        let members = self.events()[year].members();
        assert forall|id: MemberId| member_ids(members).contains(id) implies !self.excluded().contains(
            id,
        ) by {
            let i = choose|i: int| 0 <= i < members.len() && members[i].id() == id;
            assert(!self.exclude_members@.contains(self.events@[year].members()[i].id()));
        }
    }

    /// An empty store.
    pub fn new(
        leaderboard_ids: Vec<String>,
        session_cookie: String,
        update_sec: u64,
        exclude_members: HashSet<MemberId>,
    ) -> (store: Self)
        ensures
            store.wf(),
            store.events() == Map::<EventYear, Event>::empty(),
            store.ttl_seconds() == update_sec,
            store.excluded() == exclude_members@,
            store.sources() == leaderboard_ids@,
            store.credential() == session_cookie@,
    {
        Self {
            leaderboard_ids,
            session_cookie,
            update_sec,
            exclude_members,
            events: HashMap::new(),
        }
    }

    pub fn leaderboard_ids(&self) -> (ids: &Vec<String>)
        ensures
            ids@ == self.sources(),
    {
        &self.leaderboard_ids
    }

    pub fn session_cookie(&self) -> (cookie: &String)
        ensures
            cookie@ == self.credential(),
    {
        &self.session_cookie
    }

    /// The snapshot of `year`, if the store holds one that is fresh at
    /// `now`. A stale snapshot stays in the store and is not handed out.
    pub fn get_event(&self, year: EventYear, now: Timestamp) -> (found: Option<&Event>)
        ensures
            match found {
                Some(event) => self.is_fresh(year, now) && *event == self.events()[year]
                    && event.wf(),
                None => !self.is_fresh(year, now),
            },
    {
        broadcast use vstd::std_specs::hash::group_hash_axioms;

        match self.events.get(&year) {
            Some(event) => {
                proof {
                    use_type_invariant(event);
                }
                if (now as i128) - (event.updated_at as i128) < (self.update_sec as i128) {
                    Some(event)
                } else {
                    None
                }
            },
            None => None,
        }
    }

    /// Number of member records in the snapshot held for `year`, fresh or
    /// stale, and zero where none is held.
    pub fn snapshot_size(&self, year: EventYear) -> (size: usize)
        ensures
            size == if self.events().contains_key(year) {
                self.events()[year].members().len()
            } else {
                0
            },
    {
        broadcast use vstd::std_specs::hash::group_hash_axioms;

        match self.events.get(&year) {
            Some(event) => event.member_count(),
            None => 0,
        }
    }

    /// Seconds for which a snapshot stays fresh.
    pub fn update_sec(&self) -> (seconds: u64)
        ensures
            seconds == self.ttl_seconds(),
    {
        self.update_sec
    }

    /// Whether the snapshot of `year` has to be fetched anew at `now`.
    pub fn needs_update(&self, year: EventYear, now: Timestamp) -> (stale: bool)
        ensures
            stale == !self.is_fresh(year, now),
    {
        self.get_event(year, now).is_none()
    }

    /// Brings the snapshot of `year` up to date with what the sources
    /// answered at `now`, one answer per source in their configured order.
    /// Nothing happens while the store holds a fresh snapshot. Otherwise the
    /// answers are merged into a new snapshot that replaces the old one, or,
    /// where a source failed, the first failure is handed back and the store
    /// stays as it was.
    pub fn update_event(
        &mut self,
        year: EventYear,
        now: Timestamp,
        responses: Vec<Result<Vec<Member>, FetchError>>,
    ) -> (result: Result<(), FetchError>)
        requires
            old(self).wf(),
            gathered_members(responses@).len() * NUM_PUZZLES <= usize::MAX,
        ensures
            final(self).wf(),
            final(self).ttl_seconds() == old(self).ttl_seconds(),
            final(self).excluded() == old(self).excluded(),
            final(self).sources() == old(self).sources(),
            final(self).credential() == old(self).credential(),
            old(self).is_fresh(year, now) ==> result is Ok && final(self).events() == old(
                self,
            ).events(),
            !old(self).is_fresh(year, now) ==> match result {
                Ok(_) => {
                    &&& first_failure(responses@) is None
                    &&& final(self).events().contains_key(year)
                    &&& final(self).events()[year].updated_at() == now
                    &&& final(self).events()[year].members() == merged_members(
                        gathered_members(responses@),
                        old(self).excluded(),
                    )
                    &&& final(self).events().remove(year) == old(self).events().remove(year)
                },
                Err(error) => {
                    &&& first_failure(responses@) == Some(error)
                    &&& final(self).events() == old(self).events()
                },
            },
    {
        broadcast use vstd::std_specs::hash::group_hash_axioms;

        if !self.needs_update(year, now) {
            return Ok(());
        }
        let all = match collect_members(responses) {
            Ok(all) => all,
            Err(error) => {
                return Err(error);
            },
        };
        proof {
            lemma_merged_members(all@, self.exclude_members@);
        }
        let members = merge_members(all, &self.exclude_members);
        let ghost merged = members@;
        let event = Event::of_merged(members, now);
        self.events.insert(year, event);
        proof {
            assert(final(self).events().remove(year) =~= old(self).events().remove(year));
            assert forall|other: EventYear, i: int|
                self.events@.contains_key(other) && 0 <= i < self.events@[other].members().len()
                    implies !self.exclude_members@.contains(
                (#[trigger] self.events@[other].members()[i]).id(),
            ) by {
                if other == year {
                    assert(member_ids(merged).contains(merged[i].id()));
                } else {
                    assert(old(self).events@.contains_key(other));
                }
            }
        }
        Ok(())
    }
}

} // verus!
