//! Reducing the answers of several providers to the one that most of them gave.

use vstd::prelude::*;

use crate::eth_rpc::RpcError;
use crate::key::{key_order, KeyOrder};
use crate::multi_call::{MultiCallError, MultiCallErrorView, MultiCallResults};
use crate::ordered::into_entries;
use crate::providers::RpcNodeProvider;

verus! {

/// The votes for a key, in the order in which they came.
pub open spec fn ballot<T, K: Ord>(
    votes: Seq<(RpcNodeProvider, T)>,
    keys: Seq<K>,
    key: K,
) -> Seq<(RpcNodeProvider, T)>
    decreases keys.len(),
{
    if keys.len() == 0 {
        Seq::empty()
    } else {
        let earlier = ballot(votes, keys.drop_last(), key);
        if crate::key::same_key(keys.last(), key) {
            earlier.push(votes[keys.len() - 1])
        } else {
            earlier
        }
    }
}

/// Whether the vote at `j` is the last one before `i` for the same key.
pub open spec fn precedes<K: Ord>(keys: Seq<K>, j: int, i: int) -> bool {
    &&& 0 <= j < i < keys.len()
    &&& crate::key::same_key(keys[j], keys[i])
    &&& forall|k: int| j < k < i ==> !crate::key::same_key(#[trigger] keys[k], keys[i])
}

/// Whether each of the first `n` votes was found equal to the vote before it for the same key.
pub open spec fn agreeing<T: PartialEq, K: Ord>(
    votes: Seq<(RpcNodeProvider, T)>,
    keys: Seq<K>,
    n: int,
) -> bool {
    forall|j: int, i: int|
        i < n && #[trigger] precedes(keys, j, i) ==> call_ensures(
            T::ne,
            (&votes[i].1, &votes[j].1),
            false,
        )
}

/// Whether the last vote, and none before it, was found to differ from the vote before it for the
/// same key.
pub open spec fn clashing<T: PartialEq, K: Ord>(
    votes: Seq<(RpcNodeProvider, T)>,
    keys: Seq<K>,
) -> bool {
    &&& agreeing(votes, keys, keys.len() - 1)
    &&& exists|j: int| #[trigger]
        precedes(keys, j, keys.len() - 1) && call_ensures(
            T::ne,
            (&votes[keys.len() - 1].1, &votes[j].1),
            true,
        )
}

/// Whether key `a` has more votes than key `b`, or as many and stands above it.
pub open spec fn outranks<T, K: Ord>(
    votes: Seq<(RpcNodeProvider, T)>,
    keys: Seq<K>,
    a: K,
    b: K,
) -> bool {
    let a_votes = ballot(votes, keys, a).len();
    let b_votes = ballot(votes, keys, b).len();
    a_votes > b_votes || (a_votes == b_votes && crate::key::key_below(b, a))
}

/// Whether the key of the vote at `top` outranks every other key, and that vote is its last one.
pub open spec fn is_top<T, K: Ord>(
    votes: Seq<(RpcNodeProvider, T)>,
    keys: Seq<K>,
    top: int,
) -> bool {
    &&& 0 <= top < keys.len()
    &&& forall|i: int|
        top < i < keys.len() ==> !crate::key::same_key(#[trigger] keys[i], keys[top])
    &&& forall|i: int|
        0 <= i < keys.len() && !crate::key::same_key(#[trigger] keys[i], keys[top]) ==> outranks(
            votes,
            keys,
            keys[top],
            keys[i],
        )
}

/// Whether the key of the vote at `second` outranks every key but the one of the vote at `top`.
pub open spec fn is_runner_up<T, K: Ord>(
    votes: Seq<(RpcNodeProvider, T)>,
    keys: Seq<K>,
    top: int,
    second: int,
) -> bool {
    &&& 0 <= second < keys.len()
    &&& !crate::key::same_key(keys[second], keys[top])
    &&& forall|i: int|
        0 <= i < keys.len() && !crate::key::same_key(#[trigger] keys[i], keys[top])
            && !crate::key::same_key(keys[i], keys[second]) ==> outranks(
            votes,
            keys,
            keys[second],
            keys[i],
        )
}

/// Whether the key of the vote at `top` has strictly more votes than every other key.
pub open spec fn leads<T, K: Ord>(
    votes: Seq<(RpcNodeProvider, T)>,
    keys: Seq<K>,
    top: int,
) -> bool {
    forall|i: int|
        0 <= i < keys.len() && !crate::key::same_key(#[trigger] keys[i], keys[top]) ==> ballot(
            votes,
            keys,
            keys[top],
        ).len() > ballot(votes, keys, keys[i]).len()
}

/// The report that votes contradict one another.
pub open spec fn contradiction<T>(votes: Seq<(RpcNodeProvider, T)>) -> MultiCallErrorView<T> {
    MultiCallErrorView::InconsistentResults(
        crate::ordered::collected(
            votes.map_values(|v: (RpcNodeProvider, T)| (v.0, Ok::<T, RpcError>(v.1))),
        ),
    )
}

/// Whether a vote without a winner reports the ballots of the top key and of the runner-up.
pub open spec fn contested<T, K: Ord>(
    votes: Seq<(RpcNodeProvider, T)>,
    keys: Seq<K>,
    top: int,
    second: int,
    r: Result<T, MultiCallErrorView<T>>,
) -> bool {
    is_runner_up(votes, keys, top, second) && r == Err::<T, MultiCallErrorView<T>>(
        contradiction(ballot(votes, keys, keys[top]) + ballot(votes, keys, keys[second])),
    )
}

/// How a vote ends, given the last vote for its top key.
pub open spec fn decided<T, K: Ord>(
    votes: Seq<(RpcNodeProvider, T)>,
    keys: Seq<K>,
    top: int,
    r: Result<T, MultiCallErrorView<T>>,
) -> bool {
    is_top(votes, keys, top) && if leads(votes, keys, top) {
        r == Ok::<T, MultiCallErrorView<T>>(votes[top].1)
    } else {
        exists|second: int| contested(votes, keys, top, second, r)
    }
}

/// How votes that agree for each key are counted. The key with the most votes wins if it has
/// strictly more of them than every other key; the answer is then its last vote. Otherwise the
/// two highest ranking ballots are reported.
pub open spec fn tallied<T, K: Ord>(
    votes: Seq<(RpcNodeProvider, T)>,
    keys: Seq<K>,
    r: Result<T, MultiCallErrorView<T>>,
) -> bool {
    exists|top: int| decided(votes, keys, top, r)
}

/// How values reduce by strict majority, given the keys that were extracted. The values are taken
/// in increasing order of provider. The first one that differs from an earlier one with the same
/// key ends the vote, and the votes for that key are reported; otherwise the votes are counted.
pub open spec fn reduced_by_majority<T: PartialEq, K: Ord>(
    votes: Seq<(RpcNodeProvider, T)>,
    keys: Seq<K>,
    r: Result<T, MultiCallErrorView<T>>,
) -> bool {
    ||| clashing(votes, keys) && r == Err::<T, MultiCallErrorView<T>>(
        contradiction(ballot(votes, keys, keys.last())),
    )
    ||| keys.len() == votes.len() && agreeing(votes, keys, keys.len() as int) && tallied(
        votes,
        keys,
        r,
    )
}

/// The votes that were cast for one key.
struct Ballot<T, K> {
    key: K,
    votes: Vec<(RpcNodeProvider, T)>,
}

/// Whether no two ballots have the same key.
spec fn distinct_keys<T, K: Ord>(ballots: Seq<Ballot<T, K>>) -> bool {
    forall|a: int, b: int|
        0 <= a < ballots.len() && 0 <= b < ballots.len() && a != b ==> !crate::key::same_key(
            #[trigger] ballots[a].key,
            #[trigger] ballots[b].key,
        )
}

/// Whether the ballots are those of the keys seen so far, one for each.
spec fn counted<T, K: Ord>(
    ballots: Seq<Ballot<T, K>>,
    votes: Seq<(RpcNodeProvider, T)>,
    keys: Seq<K>,
) -> bool {
    &&& distinct_keys(ballots)
    &&& forall|b: int|
        0 <= b < ballots.len() ==> (#[trigger] ballots[b]).votes@ == ballot(
            votes,
            keys,
            ballots[b].key,
        )
    &&& forall|i: int|
        0 <= i < keys.len() ==> exists|b: int|
            0 <= b < ballots.len() && crate::key::same_key(
                #[trigger] keys[i],
                (#[trigger] ballots[b]).key,
            )
}

/// Whether every vote on the ballots is one of these.
spec fn cast_from<T, K: Ord>(
    ballots: Seq<Ballot<T, K>>,
    votes: Seq<(RpcNodeProvider, T)>,
) -> bool {
    forall|b: int, k: int|
        0 <= b < ballots.len() && 0 <= k < ballots[b].votes@.len() ==> votes.contains(
            #[trigger] ballots[b].votes@[k],
        )
}

/// Whether the outcome of a vote is one of the votes, or a report of some of them.
spec fn made_of<T>(
    votes: Seq<(RpcNodeProvider, T)>,
    r: Result<T, MultiCallErrorView<T>>,
) -> bool {
    match r {
        Ok(value) => exists|i: int| 0 <= i < votes.len() && (#[trigger] votes[i]).1 == value,
        Err(e) => exists|cast: Seq<(RpcNodeProvider, T)>| #[trigger]
            contradiction(cast) == e && forall|k: int|
                0 <= k < cast.len() ==> votes.contains(#[trigger] cast[k]),
    }
}

/// An outcome that is made of the values of providers is drawn from their answers.
proof fn lemma_made_of<T>(
    results: Map<RpcNodeProvider, Result<T, RpcError>>,
    r: Result<T, MultiCallErrorView<T>>,
)
    requires
        results.dom().finite(),
        crate::multi_call::failure(results) is None,
        made_of(crate::ordered::entries(crate::multi_call::ok_values(results)), r),
    ensures
        crate::multi_call::drawn_from(results, r),
{
    let values = crate::multi_call::ok_values(results);
    let votes = crate::ordered::entries(values);
    assert(values.dom() =~= results.dom());
    crate::ordered::lemma_entries(values);
    crate::laws::law_failure_iff_error(results);
    match r {
        Ok(value) => {
            let i = choose|i: int| 0 <= i < votes.len() && (#[trigger] votes[i]).1 == value;
            assert(results.contains_key(votes[i].0));
        },
        Err(e) => {
            let cast = choose|cast: Seq<(RpcNodeProvider, T)>| #[trigger]
                contradiction(cast) == e && forall|k: int|
                    0 <= k < cast.len() ==> votes.contains(#[trigger] cast[k]);
            let pairs = cast.map_values(|v: (RpcNodeProvider, T)| (v.0, Ok::<T, RpcError>(v.1)));
            assert forall|k: int| 0 <= k < pairs.len() implies results.contains_key(
                (#[trigger] pairs[k]).0,
            ) && results[pairs[k].0] == pairs[k].1 by {
                assert(votes.contains(cast[k]));
                let i = choose|i: int| 0 <= i < votes.len() && votes[i] == cast[k];
                assert(results.contains_key(votes[i].0));
            }
            crate::ordered::lemma_collected_submap(pairs, results);
        },
    }
}

/// Equal keys have the same ballot.
pub proof fn lemma_ballot_of_same_key<T, K: Ord>(
    votes: Seq<(RpcNodeProvider, T)>,
    keys: Seq<K>,
    a: K,
    b: K,
)
    requires
        crate::key::totally_ordered::<K>(),
        crate::key::same_key(a, b),
    ensures
        ballot(votes, keys, a) == ballot(votes, keys, b),
    decreases keys.len(),
{
    if keys.len() > 0 {
        lemma_ballot_of_same_key(votes, keys.drop_last(), a, b);
        crate::key::lemma_key_order(keys.last(), a, b);
        crate::key::lemma_key_order(a, b, a);
        crate::key::lemma_key_order(keys.last(), b, a);
    }
}

/// A key that no vote has has no ballot.
proof fn lemma_ballot_empty<T, K: Ord>(
    votes: Seq<(RpcNodeProvider, T)>,
    keys: Seq<K>,
    key: K,
)
    requires
        forall|i: int|
            0 <= i < keys.len() ==> !crate::key::same_key(#[trigger] keys[i], key),
    ensures
        ballot(votes, keys, key).len() == 0,
    decreases keys.len(),
{
    if keys.len() > 0 {
        let front = keys.drop_last();
        assert forall|i: int| 0 <= i < front.len() implies !crate::key::same_key(
            #[trigger] front[i],
            key,
        ) by {
            assert(front[i] == keys[i]);
        }
        lemma_ballot_empty(votes, front, key);
    }
}

/// A ballot ends with the last vote for its key.
pub proof fn lemma_ballot_last<T, K: Ord>(
    votes: Seq<(RpcNodeProvider, T)>,
    keys: Seq<K>,
    key: K,
) -> (j: int)
    requires
        ballot(votes, keys, key).len() > 0,
    ensures
        0 <= j < keys.len(),
        crate::key::same_key(keys[j], key),
        forall|k: int| j < k < keys.len() ==> !crate::key::same_key(#[trigger] keys[k], key),
        ballot(votes, keys, key).last() == votes[j],
    decreases keys.len(),
{
    if crate::key::same_key(keys.last(), key) {
        keys.len() - 1
    } else {
        let front = keys.drop_last();
        let j = lemma_ballot_last(votes, front, key);
        assert forall|k: int| j < k < keys.len() implies !crate::key::same_key(
            #[trigger] keys[k],
            key,
        ) by {
            if k < front.len() {
                assert(front[k] == keys[k]);
            }
        }
        j
    }
}

/// The ballot with the given key, if there is one.
fn find_ballot<T, K: Ord>(ballots: &Vec<Ballot<T, K>>, key: &K) -> (r: Option<usize>)
    ensures
        r matches Some(b) ==> b < ballots@.len(),
        crate::key::totally_ordered::<K>() ==> match r {
            Some(b) => crate::key::same_key(*key, ballots@[b as int].key),
            None => forall|b: int|
                0 <= b < ballots@.len() ==> !crate::key::same_key(
                    *key,
                    (#[trigger] ballots@[b]).key,
                ),
        },
{
    let mut b: usize = 0;
    while b < ballots.len()
        invariant
            b <= ballots@.len(),
            crate::key::totally_ordered::<K>() ==> forall|a: int|
                0 <= a < b ==> !crate::key::same_key(*key, (#[trigger] ballots@[a]).key),
        decreases ballots@.len() - b,
    {
        if key_order(key, &ballots[b].key) == KeyOrder::Same {
            return Some(b);
        }
        b += 1;
    }
    None
}

/// Whether one ballot has more votes than another, or as many and the higher key.
spec fn ballot_outranks<T, K: Ord>(a: Ballot<T, K>, b: Ballot<T, K>) -> bool {
    a.votes@.len() > b.votes@.len() || (a.votes@.len() == b.votes@.len() && crate::key::key_below(
        b.key,
        a.key,
    ))
}

/// Takes out the ballot that outranks the others.
fn take_top_ballot<T, K: Ord>(ballots: &mut Vec<Ballot<T, K>>) -> (r: Ballot<T, K>)
    requires
        old(ballots)@.len() > 0,
        crate::key::totally_ordered::<K>() ==> distinct_keys(old(ballots)@),
    ensures
        exists|top: int|
            0 <= top < old(ballots)@.len() && r == #[trigger] old(ballots)@[top]
                && final(ballots)@ == old(ballots)@.remove(top) && (
            crate::key::totally_ordered::<K>() ==> forall|b: int|
                0 <= b < old(ballots)@.len() && b != top ==> ballot_outranks(
                    r,
                    #[trigger] old(ballots)@[b],
                )),
{
    let mut top: usize = 0;
    let mut b: usize = 1;
    while b < ballots.len()
        invariant
            top < b,
            1 <= b <= ballots@.len(),
            ballots@ == old(ballots)@,
            crate::key::totally_ordered::<K>() ==> distinct_keys(ballots@) && forall|a: int|
                0 <= a < b && a != top ==> ballot_outranks(
                    ballots@[top as int],
                    #[trigger] ballots@[a],
                ),
        decreases ballots@.len() - b,
    {
        let better: bool = if ballots[b].votes.len() == ballots[top].votes.len() {
            key_order(&ballots[b].key, &ballots[top].key) == KeyOrder::Above
        } else {
            ballots[b].votes.len() > ballots[top].votes.len()
        };
        proof {
            if crate::key::totally_ordered::<K>() {
                let old_top = ballots@[top as int];
                let next = ballots@[b as int];
                crate::key::lemma_key_order(next.key, old_top.key, old_top.key);
                assert forall|a: int| 0 <= a < b && better implies ballot_outranks(
                    next,
                    #[trigger] ballots@[a],
                ) by {
                    crate::key::lemma_key_order(ballots@[a].key, old_top.key, next.key);
                }
            }
        }
        if better {
            top = b;
        }
        b += 1;
    }
    let r = ballots.remove(top);
    assert(r == old(ballots)@[top as int]);
    r
}

/// What one vote more changes.
proof fn lemma_vote_cast<T, K: Ord>(votes: Seq<(RpcNodeProvider, T)>, keys: Seq<K>, key: K)
    ensures
        forall|k: K| #[trigger]
            ballot(votes, keys.push(key), k) == if crate::key::same_key(key, k) {
                ballot(votes, keys, k).push(votes[keys.len() as int])
            } else {
                ballot(votes, keys, k)
            },
        forall|j: int, i: int|
            i < keys.len() ==> (#[trigger] precedes(keys.push(key), j, i) <==> precedes(
                keys,
                j,
                i,
            )),
{
    let more = keys.push(key);
    assert(more.drop_last() =~= keys);
    assert forall|j: int, i: int| i < keys.len() implies (#[trigger] precedes(more, j, i)
        <==> precedes(keys, j, i)) by {
        if precedes(more, j, i) {
            assert forall|k: int| j < k < i implies !crate::key::same_key(
                #[trigger] keys[k],
                keys[i],
            ) by {
                assert(more[k] == keys[k]);
            }
        }
        if precedes(keys, j, i) {
            assert forall|k: int| j < k < i implies !crate::key::same_key(
                #[trigger] more[k],
                more[i],
            ) by {
                assert(more[k] == keys[k]);
            }
        }
    }
}

/// A vote for a key that has a ballot goes onto that ballot, and stands behind its last vote.
proof fn lemma_vote_joins<T, K: Ord>(
    ballots: Seq<Ballot<T, K>>,
    votes: Seq<(RpcNodeProvider, T)>,
    keys: Seq<K>,
    key: K,
    b: int,
    joined: Ballot<T, K>,
) -> (j: int)
    requires
        crate::key::totally_ordered::<K>(),
        counted(ballots, votes, keys),
        0 <= b < ballots.len(),
        ballots[b].votes@.len() > 0,
        crate::key::same_key(key, ballots[b].key),
        joined.key == ballots[b].key,
        joined.votes@ == ballots[b].votes@.push(votes[keys.len() as int]),
    ensures
        precedes(keys.push(key), j, keys.len() as int),
        forall|i: int| #[trigger] precedes(keys.push(key), i, keys.len() as int) ==> i == j,
        ballots[b].votes@.last() == votes[j],
        joined.votes@ == ballot(votes, keys.push(key), key),
        counted(ballots.update(b, joined), votes, keys.push(key)),
{
    let more = keys.push(key);
    let n = keys.len() as int;
    let own = ballots[b].key;
    let j = lemma_ballot_last(votes, keys, own);
    lemma_vote_cast(votes, keys, key);
    lemma_ballot_of_same_key(votes, keys, key, own);
    crate::key::lemma_key_order(key, own, key);
    crate::key::lemma_key_order(keys[j], own, key);
    assert forall|k: int| j < k < n implies !crate::key::same_key(#[trigger] more[k], more[n]) by {
        assert(more[k] == keys[k]);
        crate::key::lemma_key_order(keys[k], key, own);
    }
    assert(precedes(more, j, n));
    assert forall|i: int| #[trigger] precedes(more, i, n) implies i == j by {
        if i < j {
            assert(!crate::key::same_key(more[j], more[n]));
        }
        if j < i {
            assert(!crate::key::same_key(more[i], more[n]));
        }
    }
    let after = ballots.update(b, joined);
    assert forall|c: int| 0 <= c < after.len() implies (#[trigger] after[c]).votes@ == ballot(
        votes,
        more,
        after[c].key,
    ) by {
        if c != b {
            assert(after[c] == ballots[c]);
            assert(!crate::key::same_key(ballots[b].key, ballots[c].key));
            crate::key::lemma_key_order(own, key, after[c].key);
        }
    }
    assert forall|c: int, d: int|
        0 <= c < after.len() && 0 <= d < after.len() && c != d implies !crate::key::same_key(
        #[trigger] after[c].key,
        #[trigger] after[d].key,
    ) by {
        assert(after[c].key == ballots[c].key && after[d].key == ballots[d].key);
    }
    assert forall|i: int| 0 <= i < more.len() implies exists|c: int|
        0 <= c < after.len() && crate::key::same_key(
            #[trigger] more[i],
            (#[trigger] after[c]).key,
        ) by {
        if i < n {
            assert(more[i] == keys[i]);
            let c = choose|c: int|
                0 <= c < ballots.len() && crate::key::same_key(
                    keys[i],
                    (#[trigger] ballots[c]).key,
                );
            assert(after[c].key == ballots[c].key);
        } else {
            assert(crate::key::same_key(more[i], after[b].key));
        }
    }
    j
}

/// A vote for a new key makes a new ballot, and stands behind no other vote.
proof fn lemma_vote_opens<T, K: Ord>(
    ballots: Seq<Ballot<T, K>>,
    votes: Seq<(RpcNodeProvider, T)>,
    keys: Seq<K>,
    opened: Ballot<T, K>,
)
    requires
        crate::key::totally_ordered::<K>(),
        counted(ballots, votes, keys),
        forall|b: int|
            0 <= b < ballots.len() ==> !crate::key::same_key(
                opened.key,
                (#[trigger] ballots[b]).key,
            ),
        opened.votes@ == seq![votes[keys.len() as int]],
    ensures
        forall|i: int| !#[trigger] precedes(keys.push(opened.key), i, keys.len() as int),
        counted(ballots.push(opened), votes, keys.push(opened.key)),
{
    let key = opened.key;
    let more = keys.push(key);
    let n = keys.len() as int;
    lemma_vote_cast(votes, keys, key);
    crate::key::lemma_key_order(key, key, key);
    assert forall|i: int| 0 <= i < n implies !crate::key::same_key(#[trigger] keys[i], key) by {
        let b = choose|b: int|
            0 <= b < ballots.len() && crate::key::same_key(keys[i], (#[trigger] ballots[b]).key);
        crate::key::lemma_key_order(keys[i], key, key);
        crate::key::lemma_key_order(key, keys[i], ballots[b].key);
    }
    lemma_ballot_empty(votes, keys, key);
    assert(opened.votes@ =~= ballot(votes, more, key));
    assert forall|i: int| !#[trigger] precedes(more, i, n) by {
        if precedes(more, i, n) {
            assert(more[i] == keys[i]);
        }
    }
    let after = ballots.push(opened);
    assert forall|c: int| 0 <= c < after.len() implies (#[trigger] after[c]).votes@ == ballot(
        votes,
        more,
        after[c].key,
    ) by {
        if c < ballots.len() {
            assert(after[c] == ballots[c]);
        }
    }
    assert forall|c: int, d: int|
        0 <= c < after.len() && 0 <= d < after.len() && c != d implies !crate::key::same_key(
        #[trigger] after[c].key,
        #[trigger] after[d].key,
    ) by {
        if c < ballots.len() && d < ballots.len() {
            assert(after[c].key == ballots[c].key && after[d].key == ballots[d].key);
        } else {
            crate::key::lemma_key_order(after[c].key, after[d].key, after[c].key);
        }
    }
    assert forall|i: int| 0 <= i < more.len() implies exists|c: int|
        0 <= c < after.len() && crate::key::same_key(
            #[trigger] more[i],
            (#[trigger] after[c]).key,
        ) by {
        if i < n {
            assert(more[i] == keys[i]);
            let c = choose|c: int|
                0 <= c < ballots.len() && crate::key::same_key(
                    keys[i],
                    (#[trigger] ballots[c]).key,
                );
            assert(after[c].key == ballots[c].key);
        } else {
            assert(crate::key::same_key(more[i], after[ballots.len() as int].key));
        }
    }
}

/// Ranking ballots is ranking the keys of their votes.
proof fn lemma_ranking<T, K: Ord>(
    votes: Seq<(RpcNodeProvider, T)>,
    keys: Seq<K>,
    a: Ballot<T, K>,
    b: Ballot<T, K>,
    a_key: K,
    b_key: K,
)
    requires
        crate::key::totally_ordered::<K>(),
        a.votes@ == ballot(votes, keys, a.key),
        b.votes@ == ballot(votes, keys, b.key),
        crate::key::same_key(a_key, a.key),
        crate::key::same_key(b_key, b.key),
    ensures
        ballot(votes, keys, a_key) == a.votes@,
        ballot(votes, keys, b_key) == b.votes@,
        ballot_outranks(a, b) ==> outranks(votes, keys, a_key, b_key),
{
    lemma_ballot_of_same_key(votes, keys, a_key, a.key);
    lemma_ballot_of_same_key(votes, keys, b_key, b.key);
    crate::key::lemma_key_order(b_key, b.key, a.key);
    crate::key::lemma_key_order(a_key, a.key, a.key);
    crate::key::lemma_key_order(b_key, a.key, a_key);
}

/// Reports that votes contradict one another.
fn report<T>(votes: Vec<(RpcNodeProvider, T)>) -> (r: MultiCallError<T>)
    requires
        votes@.len() > 0,
    ensures
        r@ == contradiction(votes@),
        r.well_formed(),
{
    let ghost all = votes@;
    let ghost answer = |v: (RpcNodeProvider, T)| (v.0, Ok::<T, RpcError>(v.1));
    let mut answers: Vec<(RpcNodeProvider, Result<T, RpcError>)> = Vec::new();
    for vote in it: votes.into_iter()
        invariant
            it.seq() == all,
            answer == (|v: (RpcNodeProvider, T)| (v.0, Ok::<T, RpcError>(v.1))),
            answers@ == all.take(it.index()).map_values(answer),
    {
        answers.push((vote.0, Ok(vote.1)));
        assert(answers@ =~= all.take(it.index() + 1).map_values(answer));
    }
    assert(all.take(all.len() as int) =~= all);
    MultiCallError::InconsistentResults(MultiCallResults::from_non_empty_iter(answers))
}

/// The ballot that outranks the others is the one of the top key.
proof fn lemma_top<T, K: Ord>(
    ballots: Seq<Ballot<T, K>>,
    votes: Seq<(RpcNodeProvider, T)>,
    keys: Seq<K>,
    t: int,
) -> (j: int)
    requires
        crate::key::totally_ordered::<K>(),
        counted(ballots, votes, keys),
        forall|b: int| 0 <= b < ballots.len() ==> (#[trigger] ballots[b]).votes@.len() > 0,
        0 <= t < ballots.len(),
        forall|b: int|
            0 <= b < ballots.len() && b != t ==> ballot_outranks(ballots[t], #[trigger] ballots[b]),
    ensures
        is_top(votes, keys, j),
        crate::key::same_key(keys[j], ballots[t].key),
        votes[j] == ballots[t].votes@.last(),
        ballot(votes, keys, keys[j]) == ballots[t].votes@,
        leads(votes, keys, j) <==> forall|b: int|
            0 <= b < ballots.len() && b != t ==> ballots[t].votes@.len() > (
            #[trigger] ballots[b]).votes@.len(),
{
    let top = ballots[t];
    let j = lemma_ballot_last(votes, keys, top.key);
    lemma_ballot_of_same_key(votes, keys, keys[j], top.key);
    assert forall|i: int| j < i < keys.len() implies !crate::key::same_key(
        #[trigger] keys[i],
        keys[j],
    ) by {
        crate::key::lemma_key_order(keys[i], keys[j], top.key);
    }
    let narrow = forall|b: int|
        0 <= b < ballots.len() && b != t ==> top.votes@.len() > (
        #[trigger] ballots[b]).votes@.len();
    assert forall|i: int|
        0 <= i < keys.len() && !crate::key::same_key(#[trigger] keys[i], keys[j]) implies outranks(
        votes,
        keys,
        keys[j],
        keys[i],
    ) && (narrow ==> top.votes@.len() > ballot(votes, keys, keys[i]).len()) by {
        let b = choose|b: int|
            0 <= b < ballots.len() && crate::key::same_key(keys[i], (#[trigger] ballots[b]).key);
        crate::key::lemma_key_order(keys[j], top.key, keys[j]);
        crate::key::lemma_key_order(keys[i], top.key, keys[j]);
        assert(b != t);
        lemma_ranking(votes, keys, top, ballots[b], keys[j], keys[i]);
    }
    if leads(votes, keys, j) {
        assert forall|b: int| 0 <= b < ballots.len() && b != t implies top.votes@.len() > (
        #[trigger] ballots[b]).votes@.len() by {
            let i = lemma_ballot_last(votes, keys, ballots[b].key);
            lemma_ballot_of_same_key(votes, keys, keys[i], ballots[b].key);
            crate::key::lemma_key_order(keys[i], keys[j], top.key);
            crate::key::lemma_key_order(keys[i], ballots[b].key, keys[i]);
            crate::key::lemma_key_order(ballots[b].key, keys[i], top.key);
            assert(!crate::key::same_key(ballots[b].key, ballots[t].key));
        }
    }
    j
}

/// The ballot that outranks all the others but one is the one of the runner-up.
proof fn lemma_runner_up<T, K: Ord>(
    ballots: Seq<Ballot<T, K>>,
    votes: Seq<(RpcNodeProvider, T)>,
    keys: Seq<K>,
    t: int,
    j: int,
    s: int,
) -> (i: int)
    requires
        crate::key::totally_ordered::<K>(),
        counted(ballots, votes, keys),
        0 <= t < ballots.len(),
        0 <= s < ballots.len(),
        s != t,
        ballots[s].votes@.len() > 0,
        0 <= j < keys.len(),
        crate::key::same_key(keys[j], ballots[t].key),
        forall|b: int|
            0 <= b < ballots.len() && b != t && b != s ==> ballot_outranks(
                ballots[s],
                #[trigger] ballots[b],
            ),
    ensures
        is_runner_up(votes, keys, j, i),
        ballot(votes, keys, keys[i]) == ballots[s].votes@,
{
    let second = ballots[s];
    let i = lemma_ballot_last(votes, keys, second.key);
    lemma_ballot_of_same_key(votes, keys, keys[i], second.key);
    assert(!crate::key::same_key(ballots[s].key, ballots[t].key));
    crate::key::lemma_key_order(keys[i], second.key, keys[i]);
    crate::key::lemma_key_order(second.key, keys[i], keys[j]);
    crate::key::lemma_key_order(second.key, keys[j], ballots[t].key);
    assert forall|k: int|
        0 <= k < keys.len() && !crate::key::same_key(#[trigger] keys[k], keys[j])
            && !crate::key::same_key(keys[k], keys[i]) implies outranks(
        votes,
        keys,
        keys[i],
        keys[k],
    ) by {
        let b = choose|b: int|
            0 <= b < ballots.len() && crate::key::same_key(keys[k], (#[trigger] ballots[b]).key);
        crate::key::lemma_key_order(keys[j], ballots[t].key, keys[j]);
        crate::key::lemma_key_order(keys[k], ballots[t].key, keys[j]);
        crate::key::lemma_key_order(keys[k], second.key, keys[i]);
        assert(b != t && b != s);
        lemma_ranking(votes, keys, second, ballots[b], keys[i], keys[k]);
    }
    i
}

/// The last vote on a ballot is one of the votes.
proof fn lemma_last_vote<T, K: Ord>(
    ballots: Seq<Ballot<T, K>>,
    votes: Seq<(RpcNodeProvider, T)>,
    b: int,
)
    requires
        cast_from(ballots, votes),
        0 <= b < ballots.len(),
        ballots[b].votes@.len() > 0,
    ensures
        made_of(votes, Ok(ballots[b].votes@.last().1)),
{
    let last = ballots[b].votes@.len() - 1;
    assert(votes.contains(ballots[b].votes@[last]));
}

/// Counts the ballots of votes that agree for each key.
fn tally<T, K: Ord>(
    ballots: Vec<Ballot<T, K>>,
    Ghost(votes): Ghost<Seq<(RpcNodeProvider, T)>>,
    Ghost(keys): Ghost<Seq<K>>,
) -> (r: Result<T, MultiCallError<T>>)
    requires
        ballots@.len() > 0,
        forall|b: int| 0 <= b < ballots@.len() ==> (#[trigger] ballots@[b]).votes@.len() > 0,
        cast_from(ballots@, votes),
        crate::key::totally_ordered::<K>() ==> counted(ballots@, votes, keys),
    ensures
        crate::key::totally_ordered::<K>() ==> tallied(
            votes,
            keys,
            crate::multi_call::verdict(r),
        ),
        made_of(votes, crate::multi_call::verdict(r)),
        r matches Err(e) ==> e.well_formed(),
{
    let ghost all = ballots@;
    let mut ballots = ballots;
    let first = take_top_ballot(&mut ballots);
    let ghost t = choose|top: int|
        0 <= top < all.len() && first == #[trigger] all[top] && ballots@ == all.remove(top) && (
        crate::key::totally_ordered::<K>() ==> forall|b: int|
            0 <= b < all.len() && b != top ==> ballot_outranks(first, #[trigger] all[b]));
    let ghost j = if crate::key::totally_ordered::<K>() {
        lemma_top(all, votes, keys, t)
    } else {
        0
    };
    let ghost rest = ballots@;
    proof {
        lemma_last_vote(all, votes, t);
    }
    if ballots.len() == 0 {
        let value = last_vote(first.votes);
        assert(crate::key::totally_ordered::<K>() ==> decided(votes, keys, j, Ok(value)));
        return Ok(value);
    }
    proof {
        if crate::key::totally_ordered::<K>() {
            assert forall|a: int, b: int|
                0 <= a < rest.len() && 0 <= b < rest.len() && a != b implies !crate::key::same_key(
                #[trigger] rest[a].key,
                #[trigger] rest[b].key,
            ) by {
                let c = if a < t { a } else { a + 1 };
                let d = if b < t { b } else { b + 1 };
                assert(rest[a] == all[c] && rest[b] == all[d]);
            }
        }
    }
    let second = take_top_ballot(&mut ballots);
    let ghost u = choose|top: int|
        0 <= top < rest.len() && second == #[trigger] rest[top] && ballots@ == rest.remove(top) && (
        crate::key::totally_ordered::<K>() ==> forall|b: int|
            0 <= b < rest.len() && b != top ==> ballot_outranks(second, #[trigger] rest[b]));
    let ghost s = if u < t { u } else { u + 1 };
    let ghost mut i = 0int;
    proof {
        assert(second == all[s]);
        if crate::key::totally_ordered::<K>() {
            assert forall|b: int| 0 <= b < all.len() && b != t && b != s implies ballot_outranks(
                all[s],
                #[trigger] all[b],
            ) by {
                let c = if b < t { b } else { b - 1 };
                assert(rest[c] == all[b]);
            }
            i = lemma_runner_up(all, votes, keys, t, j, s);
            assert(leads(votes, keys, j) <==> first.votes@.len() > second.votes@.len());
        }
    }
    if first.votes.len() > second.votes.len() {
        let value = last_vote(first.votes);
        assert(crate::key::totally_ordered::<K>() ==> decided(votes, keys, j, Ok(value)));
        Ok(value)
    } else {
        let mut contradicting = first.votes;
        let mut more = second.votes;
        contradicting.append(&mut more);
        proof {
            let cast = contradicting@;
            assert forall|k: int| 0 <= k < cast.len() implies votes.contains(
                #[trigger] cast[k],
            ) by {
                if k < all[t].votes@.len() {
                    assert(cast[k] == all[t].votes@[k]);
                } else {
                    assert(cast[k] == all[s].votes@[k - all[t].votes@.len()]);
                }
            }
        }
        let error = report(contradicting);
        assert(crate::key::totally_ordered::<K>() ==> contested(votes, keys, j, i, Err(error@)));
        assert(crate::key::totally_ordered::<K>() ==> decided(votes, keys, j, Err(error@)));
        Err(error)
    }
}

/// The last of some votes.
fn last_vote<T>(votes: Vec<(RpcNodeProvider, T)>) -> (r: T)
    requires
        votes@.len() > 0,
    ensures
        r == votes@.last().1,
{
    let mut votes = votes;
    let last: usize = votes.len() - 1;
    votes.swap_remove(last).1
}

impl<T: PartialEq> MultiCallResults<T> {
    /// Expects more providers to answer with one value than with any other. Values are told apart
    /// by the key that the extractor gives for them; values with the same key must be equal.
    pub fn reduce_with_strict_majority_by_key<F: Fn(&T) -> K, K: Ord>(self, extractor: F) -> (r:
        Result<T, MultiCallError<T>>)
        requires
            self.well_formed(),
            crate::multi_call::failure(self@) is None ==> forall|p: RpcNodeProvider| #[trigger]
                self@.contains_key(p) ==> call_requires(extractor, (&self@[p]->Ok_0,)),
        ensures
            match crate::multi_call::failure(self@) {
                Some(e) => crate::multi_call::verdict(r) == Err::<T, MultiCallErrorView<T>>(e),
                None => crate::key::totally_ordered::<K>() ==> exists|keys: Seq<K>| #[trigger]
                    crate::multi_call::extracted(
                        extractor,
                        crate::ordered::entries(crate::multi_call::ok_values(self@)),
                        keys,
                    ) && reduced_by_majority(
                        crate::ordered::entries(crate::multi_call::ok_values(self@)),
                        keys,
                        crate::multi_call::verdict(r),
                    ),
            },
            crate::multi_call::drawn_from(self@, crate::multi_call::verdict(r)),
            r matches Err(e) ==> e.well_formed(),
    {
        let values = match self.all_ok() {
            Ok(values) => values,
            Err(e) => {
                proof {
                    crate::laws::law_errors_are_drawn(self@);
                }
                return Err(e);
            },
        };
        let ghost known = values@;
        let ghost all = crate::ordered::entries(known);
        proof {
            assert(known.dom() =~= self@.dom());
            crate::ordered::lemma_entries(known);
            assert forall|i: int| 0 <= i < all.len() implies call_requires(
                extractor,
                (&(#[trigger] all[i]).1,),
            ) by {
                assert(self@.contains_key(all[i].0));
            }
        }
        let mut ballots: Vec<Ballot<T, K>> = Vec::new();
        let ghost mut keys = Seq::<K>::empty();
        for vote in it: into_entries(values).into_iter()
            invariant
                it.seq() == all,
                forall|i: int|
                    0 <= i < all.len() ==> call_requires(extractor, (&(#[trigger] all[i]).1,)),
                all == crate::ordered::entries(crate::multi_call::ok_values(self@)),
                crate::multi_call::failure(self@) is None,
                keys.len() == it.index(),
                crate::multi_call::extracted(extractor, all, keys),
                ballots@.len() > 0 <==> it.index() > 0,
                cast_from(ballots@, all),
                forall|b: int|
                    0 <= b < ballots@.len() ==> (#[trigger] ballots@[b]).votes@.len() > 0,
                crate::key::totally_ordered::<K>() ==> counted(ballots@, all, keys) && agreeing(
                    all,
                    keys,
                    keys.len() as int,
                ),
        {
            let (provider, value) = vote;
            let key = extractor(&value);
            let ghost before = keys;
            let ghost cast = key;
            let ghost old_ballots = ballots@;
            proof {
                keys = keys.push(key);
                lemma_vote_cast(all, before, key);
            }
            match find_ballot(&ballots, &key) {
                Some(b) => {
                    let mut ballot = ballots.remove(b);
                    let last: usize = ballot.votes.len() - 1;
                    let differs: bool = value != ballot.votes[last].1;
                    ballot.votes.push((provider, value));
                    proof {
                        if crate::key::totally_ordered::<K>() {
                            let j = lemma_vote_joins(
                                old_ballots,
                                all,
                                before,
                                cast,
                                b as int,
                                ballot,
                            );
                            let n = before.len() as int;
                            assert(call_ensures(T::ne, (&all[n].1, &all[j].1), differs));
                            assert forall|k: int, i: int|
                                i < n && #[trigger] precedes(keys, k, i) implies call_ensures(
                                T::ne,
                                (&all[i].1, &all[k].1),
                                false,
                            ) by {
                                assert(precedes(before, k, i));
                            }
                        }
                    }
                    if differs {
                        proof {
                            if crate::key::totally_ordered::<K>() {
                                assert(clashing(all, keys));
                                assert(ballot.votes@ == crate::majority::ballot(
                                    all,
                                    keys,
                                    keys.last(),
                                ));
                            }
                        }
                        let error = report(ballot.votes);
                        proof {
                            lemma_made_of(self@, Err(error@));
                        }
                        assert(crate::multi_call::extracted(extractor, all, keys));
                        return Err(error);
                    }
                    ballots.insert(b, ballot);
                    assert(ballots@ =~= old_ballots.update(b as int, ballot));
                },
                None => {
                    let ballot = Ballot { key, votes: vec![(provider, value)] };
                    proof {
                        if crate::key::totally_ordered::<K>() {
                            assert(ballot.votes@ =~= seq![all[before.len() as int]]);
                            lemma_vote_opens(old_ballots, all, before, ballot);
                            assert forall|k: int, i: int|
                                i < keys.len() && #[trigger] precedes(
                                    keys,
                                    k,
                                    i,
                                ) implies call_ensures(
                                T::ne,
                                (&all[i].1, &all[k].1),
                                false,
                            ) by {
                                assert(precedes(before, k, i));
                            }
                        }
                    }
                    ballots.push(ballot);
                },
            }
        }
        let r = tally(ballots, Ghost(all), Ghost(keys));
        proof {
            lemma_made_of(self@, crate::multi_call::verdict(r));
        }
        r
    }
}

} // verus!
