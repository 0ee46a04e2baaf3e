//! The order in which scored members are placed on a leaderboard.

use crate::aoc::{MemberId, Score, Timestamp};
use vstd::prelude::*;

verus! {

/// What decides a member's place: the score, the time of the last star and
/// the member's identity.
#[derive(Clone, Copy, Debug)]
pub struct RankKey {
    pub score: Score,
    pub last_star: Timestamp,
    pub id: MemberId,
}

/// `a` ranks above `b`: a higher score wins, and between equal scores the
/// member whose last star came earlier.
pub open spec fn ranks_above(a: RankKey, b: RankKey) -> bool {
    a.score > b.score || (a.score == b.score && a.last_star < b.last_star)
}

/// Neither ranks above the other: scores and last stars are both equal.
pub open spec fn ranks_level(a: RankKey, b: RankKey) -> bool {
    a.score == b.score && a.last_star == b.last_star
}

/// `a` is placed before `b`: it ranks above `b`, or the two rank level and
/// `a` has the smaller identity.
pub open spec fn placed_before(a: RankKey, b: RankKey) -> bool {
    ranks_above(a, b) || (ranks_level(a, b) && a.id < b.id)
}

/// Something that takes a place on a leaderboard.
pub trait Ranked {
    spec fn rank_key(&self) -> RankKey;

    fn key(&self) -> (key: RankKey)
        ensures
            key == self.rank_key(),
    ;
}

/// No entry is placed after one that it should precede.
pub open spec fn is_ranked<T: Ranked>(entries: Seq<T>) -> bool {
    forall|j: int, k: int|
        0 <= j < k < entries.len() ==> !placed_before(
            #[trigger] entries[k].rank_key(),
            #[trigger] entries[j].rank_key(),
        )
}

/// Both sequences hold the same entries, each as often as the other.
pub open spec fn same_entries<T>(a: Seq<T>, b: Seq<T>) -> bool {
    a.to_multiset() == b.to_multiset()
}

/// Executable form of [`placed_before`].
pub fn is_placed_before(a: &RankKey, b: &RankKey) -> (before: bool)
    ensures
        before == placed_before(*a, *b),
{
    if a.score != b.score {
        a.score > b.score
    } else if a.last_star != b.last_star {
        a.last_star < b.last_star
    } else {
        a.id < b.id
    }
}

/// Of two keys exactly one of three holds: the first ranks above the second,
/// the second above the first, or score and last star are equal in both.
pub proof fn lemma_ranking_trichotomy(a: RankKey, b: RankKey)
    ensures
        ranks_above(a, b) || ranks_above(b, a) || ranks_level(a, b),
        !(ranks_above(a, b) && ranks_above(b, a)),
        !(ranks_above(a, b) && ranks_level(a, b)),
        !(ranks_above(b, a) && ranks_level(a, b)),
{
}

/// Placement is a strict total order on keys with distinct identities.
pub proof fn lemma_placement_order(a: RankKey, b: RankKey, c: RankKey)
    ensures
        !placed_before(a, a),
        placed_before(a, b) ==> !placed_before(b, a),
        placed_before(a, b) && placed_before(b, c) ==> placed_before(a, c),
        a.id != b.id ==> placed_before(a, b) || placed_before(b, a),
{
}

/// Index of an entry of `entries` that none of the others is placed before.
fn first_place<T: Ranked>(entries: &Vec<T>) -> (best: usize)
    requires
        entries@.len() > 0,
    ensures
        best < entries@.len(),
        forall|k: int|
            0 <= k < entries@.len() ==> !placed_before(
                #[trigger] entries@[k].rank_key(),
                entries@[best as int].rank_key(),
            ),
{
    let mut best: usize = 0;
    let mut best_key = entries[0].key();
    let mut k: usize = 1;
    while k < entries.len()
        invariant
            1 <= k <= entries@.len(),
            best < k,
            best_key == entries@[best as int].rank_key(),
            forall|j: int|
                0 <= j < k ==> !placed_before(#[trigger] entries@[j].rank_key(), best_key),
        decreases entries@.len() - k,
    {
        let key = entries[k].key();
        if is_placed_before(&key, &best_key) {
            proof {
                assert forall|j: int| 0 <= j < k + 1 implies !placed_before(
                    #[trigger] entries@[j].rank_key(),
                    key,
                ) by {
                    lemma_placement_order(entries@[j].rank_key(), key, best_key);
                }
            }
            best = k;
            best_key = key;
        }
        k += 1;
    }
    best
}

/// Puts the entries in leaderboard order.
pub fn sort_ranked<T: Ranked>(entries: Vec<T>) -> (ranked: Vec<T>)
    ensures
        is_ranked(ranked@),
        same_entries(ranked@, entries@),
        ranked@.len() == entries@.len(),
{
    let ghost unsorted = entries@;
    let mut rest = entries;
    let mut ranked: Vec<T> = Vec::new();
    proof {
        assert(ranked@ + rest@ =~= unsorted);
    }
    while rest.len() > 0
        invariant
            is_ranked(ranked@),
            same_entries(ranked@ + rest@, unsorted),
            forall|j: int, k: int|
                0 <= j < ranked@.len() && 0 <= k < rest@.len() ==> !placed_before(
                    #[trigger] rest@[k].rank_key(),
                    #[trigger] ranked@[j].rank_key(),
                ),
        decreases rest@.len(),
    {
        let best = first_place(&rest);
        let ghost ranked_before = ranked@;
        let ghost rest_before = rest@;
        let entry = rest.remove(best);
        ranked.push(entry);
        proof {
            let key = entry.rank_key();
            assert forall|j: int, k: int| 0 <= j < k < ranked@.len() implies !placed_before(
                #[trigger] ranked@[k].rank_key(),
                #[trigger] ranked@[j].rank_key(),
            ) by {
                if k == ranked@.len() - 1 {
                    assert(ranked@[j] == ranked_before[j]);
                    assert(rest_before[best as int].rank_key() == key);
                }
            }
            assert forall|j: int, k: int|
                0 <= j < ranked@.len() && 0 <= k < rest@.len() implies !placed_before(
                #[trigger] rest@[k].rank_key(),
                #[trigger] ranked@[j].rank_key(),
            ) by {
                let from = if k < best { k } else { k + 1 };
                assert(rest@[k] == rest_before[from]);
                if j < ranked_before.len() {
                    assert(ranked@[j] == ranked_before[j]);
                }
            }
            lemma_move_keeps_entries(ranked_before, rest_before, best as int);
        }
    }
    proof {
        assert(ranked@ + rest@ =~= ranked@);
        ranked@.to_multiset_ensures();
        unsorted.to_multiset_ensures();
    }
    ranked
}

/// Moving one entry from the second sequence to the end of the first keeps
/// the entries of the two together.
proof fn lemma_move_keeps_entries<T>(head: Seq<T>, tail: Seq<T>, at: int)
    requires
        0 <= at < tail.len(),
    ensures
        same_entries(head.push(tail[at]) + tail.remove(at), head + tail),
{
    broadcast use vstd::seq_lib::group_to_multiset_ensures;
    broadcast use vstd::multiset::group_multiset_axioms;

    vstd::seq_lib::lemma_multiset_commutative(head.push(tail[at]), tail.remove(at));
    vstd::seq_lib::lemma_multiset_commutative(head, tail);
    assert(tail.contains(tail[at]));
    assert((head.push(tail[at]) + tail.remove(at)).to_multiset() =~= (head + tail).to_multiset());
}

} // verus!
