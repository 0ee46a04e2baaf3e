//! A value of a JSON document, as far as the leaderboard's decoding reads
//! it.

use vstd::prelude::*;

verus! {

/// A JSON value.
#[derive(Debug)]
pub enum Json {
    Null,
    Bool(bool),
    /// A number that is an integer of 64 bits.
    Integer(i64),
    /// Any other number.
    Number,
    Text(String),
    Array(Vec<Json>),
    /// The members of an object in the order of the document.
    Object(Vec<(String, Json)>),
}

/// Position of the first of `members` that is called `key`, if any is.
pub open spec fn position_of_key(members: Seq<(String, Json)>, key: Seq<char>) -> Option<int>
    decreases members.len(),
{
    if members.len() == 0 {
        None
    } else {
        match position_of_key(members.drop_last(), key) {
            Some(at) => Some(at),
            None => if members.last().0@ == key {
                Some(members.len() - 1)
            } else {
                None
            },
        }
    }
}

impl Json {
    /// The members of an object, and nothing for any other value.
    pub open spec fn members(self) -> Option<Seq<(String, Json)>> {
        match self {
            Json::Object(members) => Some(members@),
            _ => None,
        }
    }

    /// The first member of an object that is called `key`; nothing for an
    /// object without one and for any other value.
    pub open spec fn member(self, key: Seq<char>) -> Option<Json> {
        match self {
            Json::Object(members) => match position_of_key(members@, key) {
                Some(at) => Some(members@[at].1),
                None => None,
            },
            _ => None,
        }
    }

    /// The characters of a text, and nothing for any other value.
    pub open spec fn text(self) -> Option<Seq<char>> {
        match self {
            Json::Text(text) => Some(text@),
            _ => None,
        }
    }

    /// The value of an integer, and nothing for any other value.
    pub open spec fn integer(self) -> Option<i64> {
        match self {
            Json::Integer(value) => Some(value),
            _ => None,
        }
    }

    #[verifier::loop_isolation(false)]
    pub fn get(&self, key: &str) -> (found: Option<&Json>)
        ensures
            match found {
                Some(value) => self.member(key@) == Some(*value),
                None => self.member(key@) is None,
            },
    {
        match self {
            Json::Object(members) => {
                let wanted = key.to_string();
                let mut at: usize = 0;
                while at < members.len()
                    invariant
                        at <= members@.len(),
                        wanted@ == key@,
                        position_of_key(members@.take(at as int), key@) is None,
                    decreases members@.len() - at,
                {
                    proof {
                        assert(members@.take(at + 1).drop_last() =~= members@.take(at as int));
                    }
                    if members[at].0 == wanted {
                        proof {
                            lemma_key_found(members@, key@, at as int);
                        }
                        return Some(&members[at].1);
                    }
                    at += 1;
                }
                proof {
                    assert(members@.take(at as int) =~= members@);
                }
                None
            },
            _ => None,
        }
    }

    pub fn as_object(&self) -> (members: Option<&Vec<(String, Json)>>)
        ensures
            match members {
                Some(members) => self.members() == Some(members@),
                None => self.members() is None,
            },
    {
        match self {
            Json::Object(members) => Some(members),
            _ => None,
        }
    }

    pub fn as_str(&self) -> (text: Option<&str>)
        ensures
            match text {
                Some(text) => self.text() == Some(text@),
                None => self.text() is None,
            },
    {
        match self {
            Json::Text(text) => Some(text.as_str()),
            _ => None,
        }
    }

    pub fn as_i64(&self) -> (value: Option<i64>)
        ensures
            value == self.integer(),
    {
        match self {
            Json::Integer(value) => Some(*value),
            _ => None,
        }
    }
}

/// A key found after a stretch without it is the first of its name.
proof fn lemma_key_found(members: Seq<(String, Json)>, key: Seq<char>, at: int)
    requires
        0 <= at < members.len(),
        position_of_key(members.take(at), key) is None,
        members[at].0@ == key,
    ensures
        position_of_key(members, key) == Some(at),
    decreases members.len(),
{
    if at == members.len() - 1 {
        assert(members.drop_last() =~= members.take(at));
    } else {
        assert(members.drop_last().take(at) =~= members.take(at));
        lemma_key_found(members.drop_last(), key, at);
    }
}

} // verus!
