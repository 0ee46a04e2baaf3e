use aoc_leaderboard::aoc::Member;
use aoc_leaderboard::decode::parse_leaderboard;
use aoc_leaderboard::json::Json;
use aoc_leaderboard::leaders::LeaderboardOrder;
use aoc_leaderboard::settings::{AppSettings, RawSettings, DEFAULT_UPDATE_SEC};
use aoc_leaderboard::text::{
    align_right, joined, number_column, number_error_message, parse_integer, repeat, same_text,
    NumberError,
};
use aoc_leaderboard::util::number_width;

fn text(value: &str) -> Json {
    Json::Text(value.to_string())
}

fn object(members: Vec<(&str, Json)>) -> Json {
    Json::Object(
        members
            .into_iter()
            .map(|(key, value)| (key.to_string(), value))
            .collect(),
    )
}

fn star(timestamp: i64) -> Json {
    object(vec![("get_star_ts", Json::Integer(timestamp))])
}

fn record(id: &str, name: Option<&str>, days: Json) -> Json {
    let mut members = vec![("id", text(id))];
    if let Some(name) = name {
        members.push(("name", text(name)));
    }
    members.push(("completion_day_level", days));
    object(members)
}

#[test]
fn integers_are_read_as_the_standard_library_reads_them() {
    let cases = [
        "", "+", "-", "0", "-0", "+0", "007", "12", "-12", "+12", "1x", "x1", " 1", "1 ", "--1",
        "+-1", "1_0", "255", "256", "-1", "2147483647", "2147483648", "-2147483648",
        "-2147483649", "99999999999999999999", "99999999999999999999x", "-99999999999999999999",
        "٣", "1.0", "0x10",
    ];
    for case in cases {
        let as_i32 = match parse_integer(case, i32::MIN as i64, i32::MAX as i64) {
            Ok(value) => Ok(value as i32),
            Err(error) => Err(number_error_message(error).to_string()),
        };
        assert_eq!(
            as_i32,
            case.parse::<i32>().map_err(|err| err.to_string()),
            "as i32: {:?}",
            case
        );
        let as_u8 = match parse_integer(case, 0, u8::MAX as i64) {
            Ok(value) => Ok(value as u8),
            Err(error) => Err(number_error_message(error).to_string()),
        };
        assert_eq!(
            as_u8,
            case.parse::<u8>().map_err(|err| err.to_string()),
            "as u8: {:?}",
            case
        );
    }
    assert_eq!(parse_integer("", 0, 9), Err(NumberError::Empty));
    assert_eq!(parse_integer("a", 0, 9), Err(NumberError::InvalidDigit));
    assert_eq!(parse_integer("10", 0, 9), Err(NumberError::PosOverflow));
    assert_eq!(parse_integer("-10", -9, 9), Err(NumberError::NegOverflow));
}

#[test]
fn a_member_record_is_decoded() {
    let value = record(
        "42",
        Some("Ada"),
        object(vec![
            ("1", object(vec![("1", star(100)), ("2", star(200))])),
            ("25", object(vec![("1", star(300))])),
            ("7", Json::Null),
        ]),
    );
    let member = Member::try_from(&value).unwrap();
    assert_eq!(member.get_id(), 42);
    assert_eq!(member.get_name(), "Ada");
    assert_eq!(
        member.iter_completed(),
        vec![((1, 1), 100), ((1, 2), 200), ((25, 1), 300)]
    );
}

#[test]
fn a_record_without_name_is_anonymous() {
    let member = Member::try_from(&record("9", None, object(vec![]))).unwrap();
    assert_eq!(member.get_name(), "anonymous user #9");
    let numbered = object(vec![
        ("id", text("9")),
        ("name", Json::Integer(5)),
        ("completion_day_level", object(vec![])),
    ]);
    assert_eq!(
        Member::try_from(&numbered).unwrap().get_name(),
        "anonymous user #9"
    );
}

fn failure(value: Json) -> String {
    match Member::try_from(&value) {
        Ok(_) => panic!("the record should be refused"),
        Err(message) => message,
    }
}

#[test]
fn malformed_records_are_refused() {
    assert_eq!(
        failure(object(vec![("completion_day_level", object(vec![]))])),
        "'id' missing or not a string"
    );
    assert_eq!(
        failure(object(vec![
            ("id", Json::Integer(1)),
            ("completion_day_level", object(vec![]))
        ])),
        "'id' missing or not a string"
    );
    assert_eq!(failure(Json::Array(vec![])), "'id' missing or not a string");
    assert_eq!(
        failure(record("abc", None, object(vec![]))),
        "invalid 'id': invalid digit found in string"
    );
    assert_eq!(
        failure(record("", None, object(vec![]))),
        "invalid 'id': cannot parse integer from empty string"
    );
    assert_eq!(
        failure(record("2147483648", None, object(vec![]))),
        "invalid 'id': number too large to fit in target type"
    );
    assert_eq!(
        failure(record("-2147483649", None, object(vec![]))),
        "invalid 'id': number too small to fit in target type"
    );
    assert_eq!(
        failure(object(vec![("id", text("1"))])),
        "'completion_day_level' missing or invalid"
    );
    assert_eq!(
        failure(record("1", None, Json::Array(vec![]))),
        "'completion_day_level' missing or invalid"
    );
    assert_eq!(
        failure(record("1", None, object(vec![("one", object(vec![]))]))),
        "invalid puzzle day one: invalid digit found in string"
    );
    assert_eq!(
        failure(record("1", None, object(vec![("256", object(vec![]))]))),
        "invalid puzzle day 256: number too large to fit in target type"
    );
    assert_eq!(
        failure(record("1", None, object(vec![("26", object(vec![]))]))),
        "invalid puzzle day 26: not a day of the event"
    );
    assert_eq!(
        failure(record("1", None, object(vec![("0", Json::Null)]))),
        "invalid puzzle day 0: not a day of the event"
    );
    assert_eq!(
        failure(record(
            "1",
            None,
            object(vec![("3", object(vec![("x", star(1))]))])
        )),
        "invalid puzzle part x: invalid digit found in string"
    );
    assert_eq!(
        failure(record(
            "1",
            None,
            object(vec![("3", object(vec![("3", star(1))]))])
        )),
        "invalid puzzle part 3: not a part of a puzzle"
    );
    assert_eq!(
        failure(record(
            "17",
            None,
            object(vec![("3", object(vec![("1", object(vec![]))]))])
        )),
        "'get_star_ts' missing for member 17, day 3"
    );
    assert_eq!(
        failure(record(
            "17",
            None,
            object(vec![("3", object(vec![("1", Json::Integer(5))]))])
        )),
        "'get_star_ts' missing for member 17, day 3"
    );
    assert_eq!(
        failure(record(
            "-17",
            None,
            object(vec![(
                "12",
                object(vec![("2", object(vec![("get_star_ts", text("77"))]))])
            )])
        )),
        "invalid 'get_star_ts' for member -17, day 12"
    );
    assert_eq!(
        failure(record(
            "17",
            None,
            object(vec![(
                "12",
                object(vec![("2", object(vec![("get_star_ts", Json::Number)]))])
            )])
        )),
        "invalid 'get_star_ts' for member 17, day 12"
    );
}

#[test]
fn the_first_fault_of_a_record_is_reported() {
    let value = record(
        "5",
        None,
        object(vec![
            ("1", object(vec![("1", star(1)), ("9", star(2))])),
            ("99", object(vec![])),
        ]),
    );
    assert_eq!(failure(value), "invalid puzzle part 9: not a part of a puzzle");
}

#[test]
fn a_leaderboard_document_is_decoded() {
    let document = object(vec![
        ("event", text("2020")),
        (
            "members",
            object(vec![
                ("42", record("42", Some("Ada"), object(vec![]))),
                (
                    "7",
                    record("7", None, object(vec![("2", object(vec![("1", star(5))]))])),
                ),
            ]),
        ),
    ]);
    let members = parse_leaderboard(&document).unwrap();
    assert_eq!(members.len(), 2);
    assert_eq!(members[0].get_id(), 42);
    assert_eq!(members[1].get_id(), 7);
    assert_eq!(members[1].completed_at((2, 1)), Some(5));
}

#[test]
fn a_malformed_document_is_refused() {
    let without = object(vec![("event", text("2020"))]);
    assert_eq!(
        parse_leaderboard(&without).unwrap_err().message(),
        "Response format error: 'members' field missing or not an object"
    );
    let listed = object(vec![("members", Json::Array(vec![]))]);
    assert_eq!(
        parse_leaderboard(&listed).unwrap_err().message(),
        "Response format error: 'members' field missing or not an object"
    );
    let broken = object(vec![(
        "members",
        object(vec![
            ("1", record("1", None, object(vec![]))),
            ("2", record("two", None, object(vec![]))),
            ("3", Json::Null),
        ]),
    )]);
    assert_eq!(
        parse_leaderboard(&broken).unwrap_err().message(),
        "Response format error: invalid 'id': invalid digit found in string"
    );
}

#[test]
fn json_values_are_read_by_kind() {
    let value = object(vec![
        ("a", Json::Integer(1)),
        ("b", text("x")),
        ("a", Json::Integer(2)),
        ("c", Json::Bool(true)),
    ]);
    assert_eq!(value.get("a").and_then(|v| v.as_i64()), Some(1));
    assert_eq!(value.get("b").and_then(|v| v.as_str()), Some("x"));
    assert!(value.get("d").is_none());
    assert!(value.get("c").unwrap().as_i64().is_none());
    assert!(value.get("c").unwrap().as_str().is_none());
    assert!(value.get("c").unwrap().as_object().is_none());
    assert_eq!(value.as_object().unwrap().len(), 4);
    assert!(Json::Null.get("a").is_none());
    assert!(text("a").get("a").is_none());
}

#[test]
fn leaderboard_order_goes_by_name() {
    assert!(matches!(
        LeaderboardOrder::try_from("local_score"),
        Ok(LeaderboardOrder::LocalScore)
    ));
    assert!(matches!(
        LeaderboardOrder::try_from("stars"),
        Ok(LeaderboardOrder::Stars)
    ));
    assert_eq!(
        LeaderboardOrder::try_from("Stars").unwrap_err(),
        "Invalid leaderboard order"
    );
    assert_eq!(
        LeaderboardOrder::try_from("").unwrap_err(),
        "Invalid leaderboard order"
    );
    assert_eq!(LeaderboardOrder::LocalScore.as_str(), "local_score");
    assert_eq!(LeaderboardOrder::Stars.as_str(), "stars");
}

fn raw() -> RawSettings {
    RawSettings {
        leaderboard_name: "Friends".to_string(),
        leaderboard_ids: vec!["1".to_string()],
        leaderboard_default_order: None,
        leaderboard_update_sec: None,
        exclude_members: vec![4],
        session_cookie: "session=x".to_string(),
        latest_event_year: None,
    }
}

#[test]
fn settings_fill_in_defaults() {
    let settings = AppSettings::from_raw(raw()).unwrap();
    assert_eq!(settings.leaderboard_name, "Friends");
    assert_eq!(settings.leaderboard_ids, vec!["1".to_string()]);
    assert_eq!(settings.leaderboard_default_order, LeaderboardOrder::LocalScore);
    assert_eq!(settings.leaderboard_update_sec, 900);
    assert_eq!(DEFAULT_UPDATE_SEC, 900);
    assert_eq!(settings.exclude_members, vec![4]);
    assert_eq!(settings.session_cookie, "session=x");
    assert_eq!(settings.latest_event_year, None);
    assert_eq!(settings.current_event_year(2020), 2020);
    assert_eq!(settings.last_listed_year(2020), 2020);
    assert!(settings.is_known_year(2015, 2020));
    assert!(!settings.is_known_year(2021, 2020));
}

#[test]
fn settings_take_what_is_given() {
    let mut given = raw();
    given.leaderboard_default_order = Some("stars".to_string());
    given.leaderboard_update_sec = Some(0);
    given.latest_event_year = Some(2030);
    let settings = AppSettings::from_raw(given).unwrap();
    assert_eq!(settings.leaderboard_default_order, LeaderboardOrder::Stars);
    assert_eq!(settings.leaderboard_update_sec, 0);
    assert_eq!(settings.latest_event_year, Some(2030));
    assert_eq!(settings.current_event_year(2020), 2030);
    assert_eq!(settings.last_listed_year(2020), 2030);
    assert_eq!(settings.last_listed_year(2040), 2040);
    assert!(settings.is_known_year(2030, 2020));
    assert!(!settings.is_known_year(2029, 2020));
}

fn fault(given: RawSettings) -> String {
    match AppSettings::from_raw(given) {
        Ok(_) => panic!("the settings should be refused"),
        Err(message) => message,
    }
}

#[test]
fn unusable_settings_are_refused() {
    let mut given = raw();
    given.leaderboard_default_order = Some("score".to_string());
    given.leaderboard_update_sec = Some(-1);
    assert_eq!(fault(given), "invalid leaderboard_default_order");
    let mut given = raw();
    given.leaderboard_update_sec = Some(-1);
    given.latest_event_year = Some(i64::MAX);
    assert_eq!(fault(given), "leaderboard_update_sec must not be negative");
    let mut given = raw();
    given.latest_event_year = Some(1 << 31);
    assert_eq!(
        fault(given),
        "invalid latest_event_year: out of range integral type conversion attempted"
    );
    let mut given = raw();
    given.latest_event_year = Some(-(1 << 31) - 1);
    assert_eq!(
        fault(given),
        "invalid latest_event_year: out of range integral type conversion attempted"
    );
}

#[test]
fn numbers_have_the_width_of_their_digits() {
    assert_eq!(number_width(0), 1);
    assert_eq!(number_width(9), 1);
    assert_eq!(number_width(10), 2);
    assert_eq!(number_width(99), 2);
    assert_eq!(number_width(100), 3);
    assert_eq!(number_width(12_345), 5);
    assert_eq!(number_width(usize::MAX), usize::MAX.to_string().len());
}

#[test]
fn texts_are_joined_and_aligned() {
    assert_eq!(joined("ab", "cd"), "abcd");
    assert_eq!(joined("", ""), "");
    assert_eq!(repeat("ab", 3), "ababab");
    assert_eq!(repeat("x", 0), "");
    assert_eq!(align_right("42", 5, " "), "   42");
    assert_eq!(align_right("42", 2, " "), "42");
    assert_eq!(align_right("42", 1, " "), "42");
    assert_eq!(align_right("é", 3, "&nbsp;"), "&nbsp;&nbsp;é");
    assert_eq!(number_column(7, 3), format!("{:3}", 7));
    assert_eq!(number_column(-7, 4), format!("{:4}", -7));
    assert_eq!(number_column(12345, 2), "12345");
    assert_eq!(
        number_column(i128::MIN, 0),
        "-170141183460469231731687303715884105728"
    );
    assert!(same_text("stars", "stars"));
    assert!(!same_text("stars", "star"));
    assert!(same_text("", ""));
}
