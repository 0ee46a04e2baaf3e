//! Decoding of the upstream leaderboard document into member records.

use crate::aoc::{
    Member, MemberId, PuzzleDay, PuzzleId, PuzzlePart, ResponseFormatError, Timestamp,
    NUM_PUZZLE_DAYS, NUM_PUZZLE_PARTS,
};
use crate::json::Json;
use crate::text::{
    decimal_string, decimal_text, number_error_message, number_error_text, parse_integer,
    read_integer,
};
use vstd::prelude::*;
use vstd::string::StringExecFns;

verus! {

/// What a record of the document says of a member.
pub struct MemberData {
    pub id: MemberId,
    pub name: Seq<char>,
    pub completed: Map<PuzzleId, Timestamp>,
}

/// Said of the name of a day or part that is no number of its kind.
pub open spec fn bad_number_text(what: Seq<char>, name: Seq<char>, reason: Seq<char>) -> Seq<char> {
    "invalid puzzle "@ + what + " "@ + name + ": "@ + reason
}

/// Said of a star of `id` on `day` whose time is `problem`.
pub open spec fn bad_star_text(problem: Seq<char>, id: MemberId, day: PuzzleDay) -> Seq<char> {
    problem + " for member "@ + decimal_text(id as int) + ", day "@ + decimal_text(day as int)
}

/// Reads one part of a day: its number from the member's name, its time
/// from the `get_star_ts` of the member's value.
pub open spec fn read_star(id: MemberId, day: PuzzleDay, name: Seq<char>, value: Json) -> Result<
    (PuzzlePart, Timestamp),
    Seq<char>,
> {
    match read_integer(name, 0, u8::MAX as int) {
        Err(error) => Err(bad_number_text("part"@, name, number_error_text(error))),
        Ok(part) => if !(1 <= part <= NUM_PUZZLE_PARTS) {
            Err(bad_number_text("part"@, name, "not a part of a puzzle"@))
        } else {
            match value.member("get_star_ts"@) {
                None => Err(bad_star_text("'get_star_ts' missing"@, id, day)),
                Some(time) => match time.integer() {
                    None => Err(bad_star_text("invalid 'get_star_ts'"@, id, day)),
                    Some(timestamp) => Ok((part as PuzzlePart, timestamp)),
                },
            }
        },
    }
}

/// Reads the parts of one day, one after the other, into `completed`. The
/// first part that cannot be read decides the outcome.
pub open spec fn read_parts(
    id: MemberId,
    day: PuzzleDay,
    parts: Seq<(String, Json)>,
    completed: Map<PuzzleId, Timestamp>,
) -> Result<Map<PuzzleId, Timestamp>, Seq<char>>
    decreases parts.len(),
{
    if parts.len() == 0 {
        Ok(completed)
    } else {
        match read_parts(id, day, parts.drop_last(), completed) {
            Err(error) => Err(error),
            Ok(earlier) => match read_star(id, day, parts.last().0@, parts.last().1) {
                Err(error) => Err(error),
                Ok((part, timestamp)) => Ok(earlier.insert((day, part), timestamp)),
            },
        }
    }
}

/// Reads one day: its number from the member's name, its parts from the
/// member's value. A value that is no object holds no parts.
pub open spec fn read_day(
    id: MemberId,
    name: Seq<char>,
    value: Json,
    completed: Map<PuzzleId, Timestamp>,
) -> Result<Map<PuzzleId, Timestamp>, Seq<char>> {
    match read_integer(name, 0, u8::MAX as int) {
        Err(error) => Err(bad_number_text("day"@, name, number_error_text(error))),
        Ok(day) => if !(1 <= day <= NUM_PUZZLE_DAYS) {
            Err(bad_number_text("day"@, name, "not a day of the event"@))
        } else {
            match value.members() {
                None => Ok(completed),
                Some(parts) => read_parts(id, day as PuzzleDay, parts, completed),
            }
        },
    }
}

/// Reads the days of a record, one after the other, into `completed`. The
/// first day that cannot be read decides the outcome.
pub open spec fn read_days(
    id: MemberId,
    days: Seq<(String, Json)>,
    completed: Map<PuzzleId, Timestamp>,
) -> Result<Map<PuzzleId, Timestamp>, Seq<char>>
    decreases days.len(),
{
    if days.len() == 0 {
        Ok(completed)
    } else {
        match read_days(id, days.drop_last(), completed) {
            Err(error) => Err(error),
            Ok(earlier) => read_day(id, days.last().0@, days.last().1, earlier),
        }
    }
}

/// The text of the member of `value` called `key`, if it has one that is a
/// text.
pub open spec fn text_of(value: Json, key: Seq<char>) -> Option<Seq<char>> {
    match value.member(key) {
        Some(found) => found.text(),
        None => None,
    }
}

/// Reads the record of one member: the identity from `id`, the name from
/// `name` where there is one, the stars from `completion_day_level`.
pub open spec fn read_member(value: Json) -> Result<MemberData, Seq<char>> {
    match text_of(value, "id"@) {
        None => Err("'id' missing or not a string"@),
        Some(id_text) => match read_integer(id_text, i32::MIN as int, i32::MAX as int) {
            Err(error) => Err("invalid 'id': "@ + number_error_text(error)),
            Ok(id) => {
                let id = id as MemberId;
                let name = match text_of(value, "name"@) {
                    Some(name) => name,
                    None => Member::anonymous_name(id),
                };
                let days = match value.member("completion_day_level"@) {
                    Some(level) => level.members(),
                    None => None,
                };
                match days {
                    None => Err("'completion_day_level' missing or invalid"@),
                    Some(days) => match read_days(id, days, Map::empty()) {
                        Err(error) => Err(error),
                        Ok(completed) => Ok(MemberData { id, name, completed }),
                    },
                }
            },
        },
    }
}

/// Reads the records of a leaderboard document, one after the other. The
/// first record that cannot be read decides the outcome.
pub open spec fn read_records(records: Seq<(String, Json)>) -> Result<Seq<MemberData>, Seq<char>>
    decreases records.len(),
{
    if records.len() == 0 {
        Ok(Seq::empty())
    } else {
        match read_records(records.drop_last()) {
            Err(error) => Err(error),
            Ok(earlier) => match read_member(records.last().1) {
                Err(error) => Err(error),
                Ok(data) => Ok(earlier.push(data)),
            },
        }
    }
}

/// Reads a leaderboard document: the records are the members of its
/// `members` object.
pub open spec fn read_leaderboard(document: Json) -> Result<Seq<MemberData>, Seq<char>> {
    let records = match document.member("members"@) {
        Some(members) => members.members(),
        None => None,
    };
    match records {
        None => Err("'members' field missing or not an object"@),
        Some(records) => read_records(records),
    }
}

/// What a record says of a member.
pub open spec fn data_of(member: Member) -> MemberData {
    MemberData { id: member.id(), name: member.name(), completed: member.completed() }
}

fn bad_number(what: &str, name: &str, reason: &str) -> (message: String)
    ensures
        message@ == bad_number_text(what@, name@, reason@),
{
    let mut message = String::from_str("invalid puzzle ");
    message.append(what);
    message.append(" ");
    message.append(name);
    message.append(": ");
    message.append(reason);
    message
}

fn bad_star(problem: &str, id: MemberId, day: PuzzleDay) -> (message: String)
    ensures
        message@ == bad_star_text(problem@, id, day),
{
    let mut message = String::from_str(problem);
    message.append(" for member ");
    message.append(decimal_string(id as i128).as_str());
    message.append(", day ");
    message.append(decimal_string(day as i128).as_str());
    message
}

fn star_of(id: MemberId, day: PuzzleDay, name: &str, value: &Json) -> (star: Result<
    (PuzzlePart, Timestamp),
    String,
>)
    ensures
        match star {
            Ok(found) => read_star(id, day, name@, *value) == Ok::<
                (PuzzlePart, Timestamp),
                Seq<char>,
            >(found),
            Err(message) => read_star(id, day, name@, *value) == Err::<
                (PuzzlePart, Timestamp),
                Seq<char>,
            >(message@),
        },
{
    let part = match parse_integer(name, 0, u8::MAX as i64) {
        Ok(part) => part,
        Err(error) => {
            return Err(bad_number("part", name, number_error_message(error)));
        },
    };
    if !(1 <= part && part <= NUM_PUZZLE_PARTS as i64) {
        return Err(bad_number("part", name, "not a part of a puzzle"));
    }
    match value.get("get_star_ts") {
        None => Err(bad_star("'get_star_ts' missing", id, day)),
        Some(time) => match time.as_i64() {
            None => Err(bad_star("invalid 'get_star_ts'", id, day)),
            Some(timestamp) => Ok((part as PuzzlePart, timestamp)),
        },
    }
}

#[verifier::loop_isolation(false)]
fn add_day(member: &mut Member, name: &str, value: &Json) -> (added: Result<(), String>)
    ensures
        final(member).id() == old(member).id(),
        final(member).name() == old(member).name(),
        match added {
            Ok(_) => read_day(old(member).id(), name@, *value, old(member).completed()) == Ok::<
                Map<PuzzleId, Timestamp>,
                Seq<char>,
            >(final(member).completed()),
            Err(message) => read_day(old(member).id(), name@, *value, old(member).completed())
                == Err::<Map<PuzzleId, Timestamp>, Seq<char>>(message@),
        },
{
    let id = member.get_id();
    let day = match parse_integer(name, 0, u8::MAX as i64) {
        Ok(day) => day,
        Err(error) => {
            return Err(bad_number("day", name, number_error_message(error)));
        },
    };
    if !(1 <= day && day <= NUM_PUZZLE_DAYS as i64) {
        return Err(bad_number("day", name, "not a day of the event"));
    }
    let day = day as PuzzleDay;
    let parts = match value.as_object() {
        Some(parts) => parts,
        None => {
            return Ok(());
        },
    };
    let ghost before = member.completed();
    let mut at: usize = 0;
    while at < parts.len()
        invariant
            at <= parts@.len(),
            1 <= day <= NUM_PUZZLE_DAYS,
            member.id() == id,
            member.name() == old(member).name(),
            read_parts(id, day, parts@.take(at as int), before) == Ok::<
                Map<PuzzleId, Timestamp>,
                Seq<char>,
            >(member.completed()),
        decreases parts@.len() - at,
    {
        proof {
            assert(parts@.take(at + 1).drop_last() =~= parts@.take(at as int));
        }
        match star_of(id, day, parts[at].0.as_str(), &parts[at].1) {
            Ok((part, timestamp)) => {
                member.add_star((day, part), timestamp);
            },
            Err(message) => {
                proof {
                    lemma_read_parts_fails(id, day, parts@, before, at + 1);
                }
                return Err(message);
            },
        }
        at += 1;
    }
    proof {
        assert(parts@.take(at as int) =~= parts@);
    }
    Ok(())
}

/// Once a part cannot be read, reading further parts changes nothing.
proof fn lemma_read_parts_fails(
    id: MemberId,
    day: PuzzleDay,
    parts: Seq<(String, Json)>,
    completed: Map<PuzzleId, Timestamp>,
    upto: int,
)
    requires
        0 <= upto <= parts.len(),
        read_parts(id, day, parts.take(upto), completed) is Err,
    ensures
        read_parts(id, day, parts, completed) == read_parts(id, day, parts.take(upto), completed),
    decreases parts.len() - upto,
{
    if upto < parts.len() {
        assert(parts.take(upto + 1).drop_last() =~= parts.take(upto));
        lemma_read_parts_fails(id, day, parts, completed, upto + 1);
    } else {
        assert(parts.take(upto) =~= parts);
    }
}

/// Once a day cannot be read, reading further days changes nothing.
proof fn lemma_read_days_fails(
    id: MemberId,
    days: Seq<(String, Json)>,
    completed: Map<PuzzleId, Timestamp>,
    upto: int,
)
    requires
        0 <= upto <= days.len(),
        read_days(id, days.take(upto), completed) is Err,
    ensures
        read_days(id, days, completed) == read_days(id, days.take(upto), completed),
    decreases days.len() - upto,
{
    if upto < days.len() {
        assert(days.take(upto + 1).drop_last() =~= days.take(upto));
        lemma_read_days_fails(id, days, completed, upto + 1);
    } else {
        assert(days.take(upto) =~= days);
    }
}

/// Once a record cannot be read, reading further records changes nothing.
proof fn lemma_read_records_fails(records: Seq<(String, Json)>, upto: int)
    requires
        0 <= upto <= records.len(),
        read_records(records.take(upto)) is Err,
    ensures
        read_records(records) == read_records(records.take(upto)),
    decreases records.len() - upto,
{
    if upto < records.len() {
        assert(records.take(upto + 1).drop_last() =~= records.take(upto));
        lemma_read_records_fails(records, upto + 1);
    } else {
        assert(records.take(upto) =~= records);
    }
}

impl Member {
    /// Reads the record of one member from its value in the leaderboard
    /// document.
    #[verifier::loop_isolation(false)]
    pub fn try_from(value: &Json) -> (read: Result<Member, String>)
        ensures
            match read {
                Ok(member) => read_member(*value) == Ok::<MemberData, Seq<char>>(data_of(member)),
                Err(message) => read_member(*value) == Err::<MemberData, Seq<char>>(message@),
            },
    {
        let id_text = match value.get("id") {
            Some(found) => found.as_str(),
            None => None,
        };
        let id_text = match id_text {
            Some(id_text) => id_text,
            None => {
                return Err("'id' missing or not a string".to_string());
            },
        };
        let id = match parse_integer(id_text, i32::MIN as i64, i32::MAX as i64) {
            Ok(id) => id as MemberId,
            Err(error) => {
                let mut message = String::from_str("invalid 'id': ");
                message.append(number_error_message(error));
                return Err(message);
            },
        };
        let name = match value.get("name") {
            Some(found) => match found.as_str() {
                Some(name) => Some(name.to_string()),
                None => None,
            },
            None => None,
        };
        let mut member = Member::new(id, name);
        let days = match value.get("completion_day_level") {
            Some(level) => level.as_object(),
            None => None,
        };
        let days = match days {
            Some(days) => days,
            None => {
                return Err("'completion_day_level' missing or invalid".to_string());
            },
        };
        let ghost named = member.name();
        let mut at: usize = 0;
        while at < days.len()
            invariant
                at <= days@.len(),
                member.id() == id,
                member.name() == named,
                read_days(id, days@.take(at as int), Map::empty()) == Ok::<
                    Map<PuzzleId, Timestamp>,
                    Seq<char>,
                >(member.completed()),
            decreases days@.len() - at,
        {
            proof {
                assert(days@.take(at + 1).drop_last() =~= days@.take(at as int));
            }
            match add_day(&mut member, days[at].0.as_str(), &days[at].1) {
                Ok(_) => {},
                Err(message) => {
                    proof {
                        lemma_read_days_fails(id, days@, Map::empty(), at + 1);
                    }
                    return Err(message);
                },
            }
            at += 1;
        }
        proof {
            assert(days@.take(at as int) =~= days@);
        }
        Ok(member)
    }
}

/// The records of `members`, each as [`data_of`] gives it.
pub open spec fn records_of(members: Seq<Member>) -> Seq<MemberData> {
    members.map_values(|member: Member| data_of(member))
}

/// Reads the member records of a leaderboard document, in the order of the
/// document.
#[verifier::loop_isolation(false)]
pub fn parse_leaderboard(document: &Json) -> (read: Result<Vec<Member>, ResponseFormatError>)
    ensures
        match read {
            Ok(members) => read_leaderboard(*document) == Ok::<Seq<MemberData>, Seq<char>>(
                records_of(members@),
            ),
            Err(error) => read_leaderboard(*document) == Err::<Seq<MemberData>, Seq<char>>(
                error.error(),
            ),
        },
{
    let records = match document.get("members") {
        Some(members) => members.as_object(),
        None => None,
    };
    let records = match records {
        Some(records) => records,
        None => {
            return Err(
                ResponseFormatError::new("'members' field missing or not an object".to_string()),
            );
        },
    };
    let mut members: Vec<Member> = Vec::new();
    let mut at: usize = 0;
    proof {
        assert(records_of(members@) =~= Seq::empty());
    }
    while at < records.len()
        invariant
            at <= records@.len(),
            read_records(records@.take(at as int)) == Ok::<Seq<MemberData>, Seq<char>>(
                records_of(members@),
            ),
        decreases records@.len() - at,
    {
        proof {
            assert(records@.take(at + 1).drop_last() =~= records@.take(at as int));
        }
        match Member::try_from(&records[at].1) {
            Ok(member) => {
                let ghost before = members@;
                members.push(member);
                proof {
                    assert(records_of(members@) =~= records_of(before).push(data_of(member)));
                }
            },
            Err(message) => {
                proof {
                    lemma_read_records_fails(records@, at + 1);
                }
                return Err(ResponseFormatError::new(message));
            },
        }
        at += 1;
    }
    proof {
        assert(records@.take(at as int) =~= records@);
    }
    Ok(members)
}

} // verus!
