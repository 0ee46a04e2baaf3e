use aoc_leaderboard::aoc::{leaderboard_url, Member, MemberId, Timestamp};
use aoc_leaderboard::leaderboard::AsOf;
use aoc_leaderboard::leaders::{
    get_leaderboard, EventManager, Leaderboard, LeaderboardOrder, Lookup,
};
use aoc_leaderboard::overall::{build_overall_leaderboard, OverallLeaderboard};
use aoc_leaderboard::overall_view::largest_score;
use aoc_leaderboard::settings::{AppSettings, RawSettings};
use std::collections::HashSet;

fn settings(latest_event_year: Option<i64>) -> AppSettings {
    AppSettings::from_raw(RawSettings {
        leaderboard_name: "Friends".to_string(),
        leaderboard_ids: vec!["1".to_string()],
        leaderboard_default_order: Some("stars".to_string()),
        leaderboard_update_sec: Some(600),
        exclude_members: vec![],
        session_cookie: "session=x".to_string(),
        latest_event_year,
    })
    .unwrap()
}

fn solver(id: MemberId, name: &str, solved: usize, at: Timestamp) -> Member {
    let mut member = Member::new(id, Some(name.to_string()));
    for slot in 0..solved {
        member.add_star(((slot / 2 + 1) as u8, (slot % 2 + 1) as u8), at + slot as Timestamp);
    }
    member
}

fn store() -> EventManager {
    let mut mgr = EventManager::new(vec![], String::new(), 1_000_000, HashSet::new());
    let many: Vec<Member> = (1..=12)
        .map(|id| solver(id, &format!("m{}", id), (13 - id) as usize, 1_000 * id as Timestamp))
        .collect();
    mgr.update_event(2020, 1_606_800_000, vec![Ok(many)]).unwrap();
    mgr.update_event(
        2021,
        1_606_900_000,
        vec![Ok(vec![solver(1, "m1", 50, 5), solver(77, "late", 1, 9)])],
    )
    .unwrap();
    mgr
}

fn board(mgr: &EventManager, year: i32) -> Leaderboard {
    match get_leaderboard(mgr, year, LeaderboardOrder::Stars, None, 1_606_900_000) {
        Lookup::Ready(board) => board,
        Lookup::Refresh(_) => panic!("snapshot should be fresh"),
    }
}

fn overall(mgr: &EventManager) -> OverallLeaderboard {
    match build_overall_leaderboard(mgr, LeaderboardOrder::Stars, 2020, 2021, 1_606_900_000) {
        Lookup::Ready(board) => board,
        Lookup::Refresh(_) => panic!("snapshots should be fresh"),
    }
}

#[test]
fn leaderboard_page_lays_out_its_columns() {
    let mgr = store();
    let context = aoc_leaderboard::leaderboard::Context::build(
        &settings(None),
        2020,
        Some("cutoff".to_string()),
        "captured".to_string(),
        3,
        board(&mgr, 2020),
        LeaderboardOrder::LocalScore,
    );
    assert_eq!(context.year, 2020);
    assert_eq!(context.as_of_str, Some("cutoff".to_string()));
    assert_eq!(context.updated_at_str, "captured");
    assert_eq!(context.last_unlock_day, 3);
    assert_eq!(context.leaderboard_name, "Friends");
    assert_eq!(context.leaderboard_order, LeaderboardOrder::LocalScore);
    assert_eq!(context.leaderboard_default_order, LeaderboardOrder::Stars);
    assert_eq!(context.leaderboard_update_sec, 600);
    assert_eq!(context.members.len(), 12);
    let ranks: Vec<String> = (1..=12).map(|rank| format!("{:2}", rank)).collect();
    assert_eq!(context.rank_str, ranks);
    let scores: Vec<String> = (1..=12).map(|id| format!("{:2}", 13 - id)).collect();
    assert_eq!(context.score_str, scores);
    assert_eq!(context.table_head_pad, "    ");
}

#[test]
fn leaderboard_page_of_nobody_is_empty() {
    let mut mgr = EventManager::new(vec![], String::new(), 10, HashSet::new());
    mgr.update_event(2020, 0, vec![]).unwrap();
    let empty = match get_leaderboard(&mgr, 2020, LeaderboardOrder::LocalScore, None, 0) {
        Lookup::Ready(board) => board,
        Lookup::Refresh(_) => panic!("snapshot should be fresh"),
    };
    let context = aoc_leaderboard::leaderboard::Context::build(
        &settings(None),
        2020,
        None,
        String::new(),
        0,
        empty,
        LeaderboardOrder::Stars,
    );
    assert!(context.members.is_empty());
    assert!(context.rank_str.is_empty());
    assert!(context.score_str.is_empty());
    assert_eq!(context.table_head_pad, "  ");
}

#[test]
fn leaderboard_page_tells_the_time() {
    let mgr = store();
    let as_of = AsOf::parse("2020-12-03T10:15:00+01:00").unwrap();
    assert_eq!(as_of.timestamp(), 1_606_986_900);
    let context = aoc_leaderboard::leaderboard::Context::render(
        &settings(None),
        2020,
        Some(as_of),
        board(&mgr, 2020),
        LeaderboardOrder::Stars,
        1_606_798_800 + 2 * 86_400,
    )
    .unwrap();
    assert_eq!(
        context.as_of_str,
        Some("2020-12-03 10:15:00 +01:00".to_string())
    );
    assert_eq!(context.updated_at_str, "2020-12-01 05:20:00 UTC");
    assert_eq!(context.last_unlock_day, 3);
    assert_eq!(context.members.len(), 12);
    assert!(aoc_leaderboard::leaderboard::Context::render(
        &settings(None),
        300_000,
        None,
        board(&mgr, 2020),
        LeaderboardOrder::Stars,
        0,
    )
    .is_none());
}

#[test]
fn cutoffs_are_read_after_rfc_3339() {
    assert_eq!(AsOf::parse("1970-01-01T00:00:00Z").unwrap().timestamp(), 0);
    assert_eq!(
        AsOf::parse("1970-01-01T00:00:00Z").unwrap().to_text(),
        Some("1970-01-01 00:00:00 +00:00".to_string())
    );
    assert_eq!(
        AsOf::parse("2020-12-01T00:00:00-05:00").unwrap().timestamp(),
        1_606_798_800
    );
    assert!(AsOf::parse("2020-12-01").is_none());
    assert!(AsOf::parse("").is_none());
    assert!(AsOf::parse("yesterday").is_none());
}

#[test]
fn overall_page_lays_out_its_table() {
    let mgr = store();
    let context = aoc_leaderboard::overall_view::Context::build(
        &settings(None),
        2021,
        "captured".to_string(),
        overall(&mgr),
        LeaderboardOrder::Stars,
    );
    assert_eq!(context.year, 2021);
    assert_eq!(context.updated_at, "captured");
    assert_eq!(context.years, vec![2020, 2021]);
    assert_eq!(
        context.col_header,
        vec!["&nbsp;&nbsp;2020".to_string(), "&nbsp;&nbsp;2021".to_string()]
    );
    assert_eq!(context.rank.len(), 13);
    assert_eq!(context.rank[0], " 1) ");
    assert_eq!(context.rank[12], "13) ");
    assert_eq!(context.overall_score[0], "62");
    assert_eq!(context.overall_score[1], "11");
    assert_eq!(context.overall_score[12], " 1");
    assert_eq!(context.scores[0], "    12    50");
    assert_eq!(context.scores[1], "    11     0");
    assert_eq!(context.member_name[0], "m1");
    assert_eq!(context.member_name[1], "m2");
    assert_eq!(context.table_head_pad, "      ");
    let last = context.member_name.len() - 1;
    assert!(context.member_name[last - 1..].contains(&"late".to_string()));
}

#[test]
fn overall_page_tells_the_time() {
    let mgr = store();
    let context = aoc_leaderboard::overall_view::Context::render(
        &settings(None),
        2021,
        overall(&mgr),
        LeaderboardOrder::Stars,
    )
    .unwrap();
    assert_eq!(context.updated_at, "2020-12-01 05:20:00 UTC");
}

#[test]
fn year_columns_grow_with_the_scores() {
    let mut mgr = EventManager::new(vec![], String::new(), 10, HashSet::new());
    let crowd: Vec<Member> = (1..=300).map(|id| solver(id, "x", 50, id as Timestamp)).collect();
    mgr.update_event(2019, 0, vec![Ok(crowd)]).unwrap();
    let standings = match build_overall_leaderboard(&mgr, LeaderboardOrder::LocalScore, 2019, 2019, 0)
    {
        Lookup::Ready(board) => board,
        Lookup::Refresh(_) => panic!("snapshot should be fresh"),
    };
    let context = aoc_leaderboard::overall_view::Context::build(
        &settings(None),
        2019,
        String::new(),
        standings,
        LeaderboardOrder::LocalScore,
    );
    assert_eq!(context.overall_score[0], "15000");
    assert_eq!(context.scores[0], "  15000");
    assert_eq!(context.col_header[0], "&nbsp;&nbsp;&nbsp;2019");
    assert_eq!(context.rank[0], "  1) ");
    assert_eq!(context.table_head_pad, " ".repeat(3 + 5 + 2));
}

#[test]
fn largest_score_of_nothing_is_zero() {
    assert_eq!(largest_score(&vec![], &vec![2020]), 0);
    let mgr = store();
    let members = overall(&mgr).get_members();
    assert_eq!(largest_score(&members, &vec![]), 0);
    assert_eq!(largest_score(&members, &vec![2020]), 12);
    assert_eq!(largest_score(&members, &vec![2020, 2021]), 50);
    assert_eq!(largest_score(&members, &vec![1999]), 0);
}

#[test]
fn events_are_listed_latest_first() {
    let context = aoc_leaderboard::events::Context::build(&settings(None), 2016, 2018);
    assert_eq!(context.year, 2016);
    assert_eq!(context.events, vec![2018, 2017, 2016, 2015]);
    let pinned = aoc_leaderboard::events::Context::build(&settings(Some(2019)), 2019, 2017);
    assert_eq!(pinned.events, vec![2019, 2018, 2017, 2016, 2015]);
    let early = aoc_leaderboard::events::Context::build(&settings(Some(2016)), 2016, 2017);
    assert_eq!(early.events, vec![2017, 2016, 2015]);
    let none = aoc_leaderboard::events::Context::build(&settings(None), 2010, 2014);
    assert!(none.events.is_empty());
    let first = aoc_leaderboard::events::Context::build(&settings(None), 2015, 2015);
    assert_eq!(first.events, vec![2015]);
}

#[test]
fn leaderboards_are_fetched_by_year_and_identifier() {
    assert_eq!(
        leaderboard_url(2020, "123456"),
        "https://adventofcode.com/2020/leaderboard/private/view/123456.json"
    );
    assert_eq!(
        leaderboard_url(-1, ""),
        "https://adventofcode.com/-1/leaderboard/private/view/.json"
    );
}
