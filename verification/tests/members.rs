use aoc_leaderboard::aoc::{
    check_puzzle_id, collect_members, is_event_year_up_to, is_valid_event_year, is_visible,
    last_unlock_day, last_unlock_day_at, latest_event_year, latest_event_year_at, merge_members,
    puzzle_of, unlock_day_since, FetchError, Member, MemberId, ResponseFormatError, Timestamp,
    FIRST_EVENT_YEAR,
};
use std::collections::HashSet;

fn with_stars(id: MemberId, stars: &[((u8, u8), Timestamp)]) -> Member {
    let mut member = Member::new(id, None);
    for (puzzle_id, timestamp) in stars {
        member.add_star(*puzzle_id, *timestamp);
    }
    member
}

#[test]
fn new_member_has_no_stars() {
    let member = Member::new(7, Some("Ada".to_string()));
    assert_eq!(member.get_id(), 7);
    assert_eq!(member.get_name(), "Ada");
    assert_eq!(member.star_count(None), 0);
    assert_eq!(member.get_last_star(None), 0);
    assert_eq!(member.get_stars(None), vec![0u8; 25]);
    assert!(member.iter_completed().is_empty());
    assert_eq!(member.completed_at((1, 1)), None);
}

#[test]
fn nameless_member_is_anonymous() {
    assert_eq!(Member::new(12345, None).get_name(), "anonymous user #12345");
    assert_eq!(Member::new(-3, None).get_name(), "anonymous user #-3");
    assert_eq!(Member::new(0, None).get_name(), "anonymous user #0");
}

#[test]
fn stars_are_counted_up_to_the_cutoff() {
    let member = with_stars(1, &[((1, 1), 100), ((1, 2), 200), ((25, 1), 300), ((3, 2), 50)]);
    assert_eq!(member.star_count(None), 4);
    assert_eq!(member.star_count(Some(300)), 4);
    assert_eq!(member.star_count(Some(299)), 3);
    assert_eq!(member.star_count(Some(100)), 2);
    assert_eq!(member.star_count(Some(49)), 0);
    assert_eq!(member.get_last_star(None), 300);
    assert_eq!(member.get_last_star(Some(250)), 200);
    assert_eq!(member.get_last_star(Some(10)), 0);
    let stars = member.get_stars(None);
    assert_eq!(stars.len(), 25);
    assert_eq!(stars[0], 2);
    assert_eq!(stars[2], 1);
    assert_eq!(stars[24], 1);
    assert_eq!(stars.iter().map(|s| *s as usize).sum::<usize>(), 4);
    let cut = member.get_stars(Some(100));
    assert_eq!(cut[0], 1);
    assert_eq!(cut[2], 1);
    assert_eq!(cut[24], 0);
}

#[test]
fn last_star_may_lie_before_the_epoch() {
    let member = with_stars(1, &[((2, 1), -50), ((2, 2), -20)]);
    assert_eq!(member.get_last_star(None), -20);
    assert_eq!(member.get_last_star(Some(-30)), -50);
    assert_eq!(member.get_last_star(Some(-60)), 0);
}

#[test]
fn a_later_record_replaces_a_star() {
    let mut member = with_stars(1, &[((4, 2), 100)]);
    member.add_star((4, 2), 70);
    assert_eq!(member.completed_at((4, 2)), Some(70));
    assert_eq!(member.star_count(None), 1);
    assert_eq!(member.iter_completed(), vec![((4, 2), 70)]);
}

#[test]
fn completions_come_in_calendar_order() {
    let member = with_stars(1, &[((5, 2), 9), ((1, 2), 8), ((5, 1), 7), ((1, 1), 6)]);
    assert_eq!(
        member.iter_completed(),
        vec![((1, 1), 6), ((1, 2), 8), ((5, 1), 7), ((5, 2), 9)]
    );
    assert_eq!(member.completed_at((0, 1)), None);
    assert_eq!(member.completed_at((26, 1)), None);
    assert_eq!(member.completed_at((1, 3)), None);
}

#[test]
fn puzzle_ids_are_days_and_parts() {
    assert!(check_puzzle_id((1, 1)));
    assert!(check_puzzle_id((25, 2)));
    assert!(!check_puzzle_id((0, 1)));
    assert!(!check_puzzle_id((26, 1)));
    assert!(!check_puzzle_id((1, 0)));
    assert!(!check_puzzle_id((1, 3)));
    assert_eq!(puzzle_of(0), (1, 1));
    assert_eq!(puzzle_of(1), (1, 2));
    assert_eq!(puzzle_of(49), (25, 2));
    assert!(is_visible(5, None));
    assert!(is_visible(5, Some(5)));
    assert!(!is_visible(6, Some(5)));
}

#[test]
fn merging_keeps_the_first_record_of_an_identity() {
    let exclude: HashSet<MemberId> = [3].into_iter().collect();
    let merged = merge_members(
        vec![
            Member::new(42, Some("first".to_string())),
            Member::new(3, Some("excluded".to_string())),
            Member::new(5, Some("five".to_string())),
            Member::new(42, Some("second".to_string())),
            Member::new(3, Some("again".to_string())),
            Member::new(6, Some("six".to_string())),
        ],
        &exclude,
    );
    let seen: Vec<(MemberId, String)> = merged
        .iter()
        .map(|m| (m.get_id(), m.get_name().clone()))
        .collect();
    assert_eq!(
        seen,
        vec![
            (42, "first".to_string()),
            (5, "five".to_string()),
            (6, "six".to_string())
        ]
    );
}

#[test]
fn collecting_gives_all_records_or_the_first_failure() {
    let all = collect_members(vec![
        Ok(vec![Member::new(1, None), Member::new(2, None)]),
        Ok(vec![]),
        Ok(vec![Member::new(1, None)]),
    ])
    .unwrap();
    let ids: Vec<MemberId> = all.iter().map(|m| m.get_id()).collect();
    assert_eq!(ids, vec![1, 2, 1]);

    let failed = collect_members(vec![
        Ok(vec![Member::new(1, None)]),
        Err(FetchError::Transport("timed out".to_string())),
        Err(FetchError::ResponseFormat(ResponseFormatError::new("bad".to_string()))),
    ]);
    match failed {
        Err(FetchError::Transport(text)) => assert_eq!(text, "timed out"),
        _ => panic!("expected the transport failure"),
    }
    assert!(collect_members(vec![]).unwrap().is_empty());
}

#[test]
fn response_format_error_has_a_message() {
    let err = ResponseFormatError::new("'id' missing or not a string".to_string());
    assert_eq!(
        err.message(),
        "Response format error: 'id' missing or not a string"
    );
}

// 2020-12-01T05:00:00Z, midnight of 1 December 2020 in the zone of release.
const START_2020: Timestamp = 1_606_798_800;

#[test]
fn latest_event_year_turns_in_december() {
    assert_eq!(latest_event_year_at(START_2020), Some(2020));
    assert_eq!(latest_event_year_at(START_2020 - 1), Some(2019));
    assert_eq!(latest_event_year_at(START_2020 + 31 * 86_400 - 1), Some(2020));
    assert_eq!(latest_event_year_at(START_2020 + 31 * 86_400), Some(2020));
    assert_eq!(latest_event_year_at(0), Some(1969));
    assert_eq!(latest_event_year_at(Timestamp::MAX), None);
    assert_eq!(latest_event_year_at(Timestamp::MIN), None);
}

#[test]
fn unlock_day_counts_days_since_the_start() {
    assert_eq!(last_unlock_day_at(2020, START_2020 - 1), 0);
    assert_eq!(last_unlock_day_at(2020, START_2020), 1);
    assert_eq!(last_unlock_day_at(2020, START_2020 + 86_399), 1);
    assert_eq!(last_unlock_day_at(2020, START_2020 + 86_400), 2);
    assert_eq!(last_unlock_day_at(2020, START_2020 + 24 * 86_400), 25);
    assert_eq!(last_unlock_day_at(2020, START_2020 + 400 * 86_400), 25);
    assert_eq!(last_unlock_day_at(2021, START_2020 + 86_400), 0);
    assert_eq!(unlock_day_since(None, 5), 0);
    assert_eq!(unlock_day_since(Some(10), 9), 0);
    assert_eq!(unlock_day_since(Some(10), 10), 1);
    assert_eq!(unlock_day_since(Some(Timestamp::MIN), Timestamp::MAX), 25);
    assert_eq!(unlock_day_since(Some(Timestamp::MAX), Timestamp::MIN), 0);
}

#[test]
fn the_clock_gives_a_year_of_an_event() {
    let latest = latest_event_year();
    assert!(latest >= 2024);
    assert!(is_valid_event_year(FIRST_EVENT_YEAR));
    assert!(is_valid_event_year(latest));
    assert!(!is_valid_event_year(latest + 1));
    assert!(!is_valid_event_year(FIRST_EVENT_YEAR - 1));
    let day = last_unlock_day(latest);
    assert!((1..=25).contains(&day));
    assert_eq!(last_unlock_day(latest + 1), 0);
    assert_eq!(last_unlock_day(FIRST_EVENT_YEAR), 25);
}

#[test]
fn event_years_start_with_the_first_event() {
    assert!(is_event_year_up_to(2015, 2020));
    assert!(is_event_year_up_to(2020, 2020));
    assert!(!is_event_year_up_to(2014, 2020));
    assert!(!is_event_year_up_to(2021, 2020));
    assert!(!is_event_year_up_to(2015, 2014));
}
