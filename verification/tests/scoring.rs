use aoc_leaderboard::aoc::{Member, MemberId, Timestamp};
use aoc_leaderboard::ranking::{is_placed_before, sort_ranked, RankKey, Ranked};
use aoc_leaderboard::leaders::{Event, LeaderboardOrder, ScoredMember};

fn member(id: MemberId, name: &str, stars: &[((u8, u8), Timestamp)]) -> Member {
    let mut member = Member::new(id, Some(name.to_string()));
    for (puzzle_id, timestamp) in stars {
        member.add_star(*puzzle_id, *timestamp);
    }
    member
}

fn score_of(members: &[ScoredMember], id: MemberId) -> usize {
    members
        .iter()
        .find(|m| m.get_id() == id)
        .map(|m| m.get_score())
        .unwrap()
}

#[test]
fn local_score_of_one_puzzle() {
    let event = Event::new(
        vec![
            member(1, "A", &[((1, 1), 100)]),
            member(2, "B", &[((1, 1), 200)]),
            member(3, "C", &[]),
        ],
        1_000,
    );
    let board = event.build_leaderboard(LeaderboardOrder::LocalScore, None);
    assert_eq!(board.updated_at(), 1_000);
    let members = board.get_members();
    assert_eq!(score_of(&members, 1), 3);
    assert_eq!(score_of(&members, 2), 2);
    assert_eq!(score_of(&members, 3), 0);
    let ids: Vec<MemberId> = members.iter().map(|m| m.get_id()).collect();
    assert_eq!(ids, vec![1, 2, 3]);
}

#[test]
fn local_score_with_cutoff() {
    let event = Event::new(
        vec![
            member(1, "A", &[((1, 1), 100)]),
            member(2, "B", &[((1, 1), 200)]),
            member(3, "C", &[]),
        ],
        1_000,
    );
    let members = event
        .build_leaderboard(LeaderboardOrder::LocalScore, Some(150))
        .get_members();
    assert_eq!(score_of(&members, 1), 3);
    assert_eq!(score_of(&members, 2), 0);
    assert_eq!(score_of(&members, 3), 0);
}

#[test]
fn points_of_a_puzzle_run_down_from_the_member_count() {
    let finishers = 4;
    let mut members: Vec<Member> = (1..=finishers)
        .map(|id| member(id, "f", &[((9, 2), 1_000 - 10 * id as Timestamp)]))
        .collect();
    members.push(member(50, "idle", &[]));
    members.push(member(51, "other", &[((9, 1), 1)]));
    members.push(member(52, "idle too", &[]));
    let total = members.len();
    let event = Event::new(members, 0);
    let scored = event.local_score(None);
    assert_eq!(scored.len(), total);
    let mut awarded: Vec<usize> = (1..=finishers)
        .map(|id| score_of(&scored, id))
        .collect();
    awarded.sort();
    awarded.reverse();
    assert_eq!(awarded, vec![7, 6, 5, 4]);
    assert_eq!(score_of(&scored, finishers), 7);
    assert_eq!(score_of(&scored, 1), 4);
    assert_eq!(score_of(&scored, 50), 0);
    assert_eq!(score_of(&scored, 51), 7);
    assert_eq!(score_of(&scored, 52), 0);
}

#[test]
fn equal_times_are_ranked_by_identity() {
    let event = Event::new(
        vec![
            member(30, "c", &[((1, 1), 100)]),
            member(10, "a", &[((1, 1), 100)]),
            member(20, "b", &[((1, 1), 100)]),
        ],
        0,
    );
    let scored = event.local_score(None);
    assert_eq!(score_of(&scored, 10), 3);
    assert_eq!(score_of(&scored, 20), 2);
    assert_eq!(score_of(&scored, 30), 1);
    let ids: Vec<MemberId> = event
        .build_leaderboard(LeaderboardOrder::LocalScore, None)
        .get_members()
        .iter()
        .map(|m| m.get_id())
        .collect();
    assert_eq!(ids, vec![10, 20, 30]);
}

#[test]
fn local_score_sums_over_puzzles() {
    let event = Event::new(
        vec![
            member(1, "a", &[((1, 1), 10), ((1, 2), 50), ((2, 1), 70)]),
            member(2, "b", &[((1, 1), 20), ((1, 2), 40)]),
            member(3, "c", &[((1, 1), 30)]),
        ],
        0,
    );
    let scored = event.local_score(None);
    assert_eq!(score_of(&scored, 1), 3 + 2 + 3);
    assert_eq!(score_of(&scored, 2), 2 + 3);
    assert_eq!(score_of(&scored, 3), 1);
    let cut = event.local_score(Some(45));
    assert_eq!(score_of(&cut, 1), 3);
    assert_eq!(score_of(&cut, 2), 2 + 3);
    assert_eq!(score_of(&cut, 3), 1);
}

#[test]
fn star_score_counts_stars() {
    let event = Event::new(
        vec![
            member(1, "a", &[((1, 1), 10), ((1, 2), 50), ((2, 1), 70)]),
            member(2, "b", &[((1, 1), 20), ((1, 2), 40)]),
            member(3, "c", &[]),
        ],
        0,
    );
    let scored = event.star_score(None);
    assert_eq!(score_of(&scored, 1), 3);
    assert_eq!(score_of(&scored, 2), 2);
    assert_eq!(score_of(&scored, 3), 0);
    let cut = event.star_score(Some(45));
    assert_eq!(score_of(&cut, 1), 1);
    assert_eq!(score_of(&cut, 2), 2);
    let board = event.build_leaderboard(LeaderboardOrder::Stars, Some(45)).get_members();
    let ids: Vec<MemberId> = board.iter().map(|m| m.get_id()).collect();
    assert_eq!(ids, vec![2, 1, 3]);
    assert_eq!(board[0].get_last_star(), 40);
    assert_eq!(board[0].get_stars()[0], 2);
    assert_eq!(board[1].get_last_star(), 10);
    assert_eq!(board[1].get_stars()[0], 1);
    assert_eq!(board[1].get_stars()[1], 0);
    assert_eq!(board[2].get_stars(), &vec![0u8; 25]);
    assert_eq!(board[0].get_name(), "b");
}

#[test]
fn equal_scores_rank_by_the_earlier_last_star() {
    let event = Event::new(
        vec![
            member(1, "late", &[((1, 1), 10), ((1, 2), 90)]),
            member(2, "early", &[((1, 1), 20), ((1, 2), 40)]),
            member(3, "one", &[((1, 1), 5)]),
        ],
        0,
    );
    let ids: Vec<MemberId> = event
        .build_leaderboard(LeaderboardOrder::Stars, None)
        .get_members()
        .iter()
        .map(|m| m.get_id())
        .collect();
    assert_eq!(ids, vec![2, 1, 3]);
}

#[test]
fn a_cutoff_before_all_stars_leaves_everybody_at_zero() {
    let event = Event::new(
        vec![
            member(3, "c", &[((1, 1), 100)]),
            member(1, "a", &[((1, 1), 200)]),
            member(2, "b", &[]),
        ],
        0,
    );
    for order in [LeaderboardOrder::LocalScore, LeaderboardOrder::Stars] {
        let board = event.build_leaderboard(order, Some(50)).get_members();
        assert!(board.iter().all(|m| m.get_score() == 0 && m.get_last_star() == 0));
        let ids: Vec<MemberId> = board.iter().map(|m| m.get_id()).collect();
        assert_eq!(ids, vec![1, 2, 3]);
    }
}

#[test]
fn an_empty_snapshot_has_an_empty_leaderboard() {
    let event = Event::new(vec![], 77);
    assert_eq!(event.member_count(), 0);
    assert_eq!(event.captured_at(), 77);
    for order in [LeaderboardOrder::LocalScore, LeaderboardOrder::Stars] {
        let board = event.build_leaderboard(order, None);
        assert_eq!(board.updated_at(), 77);
        assert!(board.get_members().is_empty());
    }
}

#[test]
fn a_snapshot_keeps_one_record_per_identity() {
    let event = Event::new(
        vec![
            member(42, "first", &[((1, 1), 1)]),
            member(42, "second", &[]),
            member(1, "x", &[]),
        ],
        0,
    );
    assert_eq!(event.member_count(), 2);
    let board = event.build_leaderboard(LeaderboardOrder::Stars, None).get_members();
    assert_eq!(board[0].get_name(), "first");
    assert_eq!(board[0].get_score(), 1);
}

fn key(score: usize, last_star: Timestamp, id: MemberId) -> RankKey {
    RankKey { score, last_star, id }
}

#[test]
fn placement_is_a_strict_order() {
    let keys = [
        key(5, 10, 1),
        key(5, 10, 2),
        key(5, 20, 1),
        key(4, 0, 3),
        key(0, 0, 0),
        key(0, -5, 9),
    ];
    for a in &keys {
        assert!(!is_placed_before(a, a));
        for b in &keys {
            let same = a.score == b.score && a.last_star == b.last_star && a.id == b.id;
            assert_eq!(
                is_placed_before(a, b) as usize + is_placed_before(b, a) as usize,
                if same { 0 } else { 1 }
            );
        }
    }
    assert!(is_placed_before(&key(5, 10, 1), &key(4, 0, 0)));
    assert!(is_placed_before(&key(5, 10, 9), &key(5, 11, 0)));
    assert!(is_placed_before(&key(5, 10, 1), &key(5, 10, 2)));
}

#[test]
fn sorting_ranks_scored_members() {
    let event = Event::new(
        vec![
            member(4, "d", &[]),
            member(3, "c", &[((1, 1), 9)]),
            member(2, "b", &[((1, 1), 7), ((1, 2), 8)]),
            member(1, "a", &[((1, 1), 7)]),
        ],
        0,
    );
    let ranked = sort_ranked(event.star_score(None));
    let ids: Vec<MemberId> = ranked.iter().map(|m| m.get_id()).collect();
    assert_eq!(ids, vec![2, 1, 3, 4]);
    let top = ranked[0].key();
    assert_eq!((top.score, top.last_star, top.id), (2, 8, 2));
    assert!(sort_ranked(Vec::<ScoredMember>::new()).is_empty());
}
