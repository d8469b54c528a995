//! What holds of reducing several answers to one.

use vstd::prelude::*;
use vstd::std_specs::cmp::PartialEqSpec;

use crate::eth_rpc::{FeeHistory, Quantity, RpcError};
use crate::multi_call::MultiCallErrorView;
use crate::providers::RpcNodeProvider;

verus! {

broadcast use vstd::laws_cmp::group_laws_cmp;

/// Where `==` is determined by the values, reducing by equality has one outcome.
pub proof fn law_equality_determined<T: PartialEq>(
    results: Map<RpcNodeProvider, Result<T, RpcError>>,
    r: Result<T, MultiCallErrorView<T>>,
    s: Result<T, MultiCallErrorView<T>>,
)
    requires
        T::obeys_eq_spec(),
        crate::multi_call::agreed_upon(results, r),
        crate::multi_call::agreed_upon(results, s),
    ensures
        r == s,
{
    if crate::multi_call::failure(results) is None {
        let values = crate::multi_call::ok_values(results);
        let c = lemma_differing(values, r);
        let d = lemma_differing(values, s);
        assert(c =~= d);
    }
}

/// The providers whose values were found to differ.
pub proof fn lemma_differing<T: PartialEq>(
    values: Map<RpcNodeProvider, T>,
    r: Result<T, MultiCallErrorView<T>>,
) -> (differing: Set<RpcNodeProvider>)
    requires
        crate::multi_call::reduced_by_equality(values, r),
    ensures
        ({
            let (base_provider, base) = crate::ordered::entries(values)[0];
            &&& differing.subset_of(values.dom().remove(base_provider))
            &&& forall|p: RpcNodeProvider|
                values.contains_key(p) && p != base_provider ==> call_ensures(
                    T::ne,
                    (&values[p], &base),
                    #[trigger] differing.contains(p),
                )
            &&& T::obeys_eq_spec() ==> forall|p: RpcNodeProvider|
                values.contains_key(p) && p != base_provider ==> (#[trigger] differing.contains(p)
                    <==> !values[p].eq_spec(&base))
            &&& r == if differing.is_empty() {
                Ok(base)
            } else {
                Err(
                    MultiCallErrorView::InconsistentResults(
                        crate::multi_call::as_answers(
                            values.restrict(differing.insert(base_provider)),
                        ),
                    ),
                )
            }
        }),
{
    let (base_provider, base) = crate::ordered::entries(values)[0];
    choose|differing: Set<RpcNodeProvider>|
        {
            &&& differing.subset_of(values.dom().remove(base_provider))
            &&& forall|p: RpcNodeProvider|
                values.contains_key(p) && p != base_provider ==> call_ensures(
                    T::ne,
                    (&values[p], &base),
                    #[trigger] differing.contains(p),
                )
            &&& r == if differing.is_empty() {
                Ok(base)
            } else {
                Err(
                    MultiCallErrorView::InconsistentResults(
                        crate::multi_call::as_answers(
                            values.restrict(differing.insert(base_provider)),
                        ),
                    ),
                )
            }
        }
}

/// Reducing by equality succeeds if and only if every provider answered with a value, and each of
/// these equals the one of the lowest provider; that one is then the outcome.
pub proof fn law_equality_succeeds<T: PartialEq>(
    results: Map<RpcNodeProvider, Result<T, RpcError>>,
    r: Result<T, MultiCallErrorView<T>>,
)
    requires
        T::obeys_eq_spec(),
        results.dom().finite(),
        results.len() > 0,
        crate::multi_call::agreed_upon(results, r),
    ensures
        ({
            let lowest = crate::ordered::in_order(results.dom())[0];
            &&& r is Ok <==> forall|p: RpcNodeProvider| #[trigger]
                results.contains_key(p) ==> results[p] is Ok && (p != lowest
                    ==> results[p]->Ok_0.eq_spec(&results[lowest]->Ok_0))
            &&& r matches Ok(value) ==> results[lowest] == Ok::<T, RpcError>(value)
        }),
{
    crate::laws::law_failure_iff_error(results);
    crate::ordered::lemma_in_order(results.dom());
    let lowest = crate::ordered::in_order(results.dom())[0];
    assert(crate::ordered::in_order(results.dom()).contains(lowest));
    assert(results.contains_key(lowest));
    if crate::multi_call::failure(results) is None {
        let values = crate::multi_call::ok_values(results);
        assert(values.dom() =~= results.dom());
        assert(crate::ordered::entries(values)[0] == (lowest, values[lowest]));
        let differing = lemma_differing(values, r);
        if differing.is_empty() {
            assert forall|p: RpcNodeProvider| #[trigger]
                results.contains_key(p) implies results[p] is Ok && (p != lowest
                ==> results[p]->Ok_0.eq_spec(&results[lowest]->Ok_0)) by {
                assert(!differing.contains(p));
            }
        } else {
            let p = choose|p: RpcNodeProvider| differing.contains(p);
            assert(differing.contains(p));
            assert(results.contains_key(p) && p != lowest);
        }
    }
}

/// A report of values that are not equal holds the answers of at least two providers, as they gave
/// them, that of the lowest provider among them.
pub proof fn law_equality_report<T: PartialEq>(
    results: Map<RpcNodeProvider, Result<T, RpcError>>,
    report: Map<RpcNodeProvider, Result<T, RpcError>>,
)
    requires
        results.dom().finite(),
        results.len() > 0,
        crate::multi_call::failure(results) is None,
        crate::multi_call::agreed_upon(
            results,
            Err(MultiCallErrorView::InconsistentResults(report)),
        ),
    ensures
        report.submap_of(results),
        report.dom().finite(),
        report.len() >= 2,
        report.contains_key(crate::ordered::in_order(results.dom())[0]),
{
    crate::laws::law_failure_iff_error(results);
    crate::ordered::lemma_in_order(results.dom());
    let lowest = crate::ordered::in_order(results.dom())[0];
    assert(crate::ordered::in_order(results.dom()).contains(lowest));
    let values = crate::multi_call::ok_values(results);
    assert(values.dom() =~= results.dom());
    assert(crate::ordered::entries(values)[0] == (lowest, values[lowest]));
    let differing = lemma_differing::<T>(
        values,
        Err(MultiCallErrorView::InconsistentResults(report)),
    );
    assert(!differing.is_empty());
    let p = choose|p: RpcNodeProvider| differing.contains(p);
    assert(differing.contains(p));
    assert(report =~= crate::multi_call::as_answers(values.restrict(differing.insert(lowest))));
    assert forall|q: RpcNodeProvider| #[trigger]
        report.contains_key(q) implies results.contains_key(q) && results[q] == report[q] by {
        assert(results[q] is Ok);
    }
    lemma_two_members(report.dom(), results.dom(), p, lowest);
}

/// Reducing by equality makes nothing up.
pub proof fn law_equality_is_drawn<T: PartialEq>(
    results: Map<RpcNodeProvider, Result<T, RpcError>>,
    r: Result<T, MultiCallErrorView<T>>,
)
    requires
        results.dom().finite(),
        results.len() > 0,
        crate::multi_call::agreed_upon(results, r),
    ensures
        crate::multi_call::drawn_from(results, r),
{
    crate::laws::law_errors_are_drawn(results);
    if crate::multi_call::failure(results) is None {
        match r {
            Ok(_) => {
                crate::laws::law_failure_iff_error(results);
                let values = crate::multi_call::ok_values(results);
                assert(values.dom() =~= results.dom());
                crate::ordered::lemma_entries(values);
                assert(results.contains_key(crate::ordered::entries(values)[0].0));
            },
            Err(MultiCallErrorView::InconsistentResults(report)) => {
                law_equality_report(results, report);
            },
            Err(MultiCallErrorView::ConsistentError(_)) => {},
        }
    }
}

/// A part of a finite set that holds two members has at least two of them.
proof fn lemma_two_members(
    part: Set<RpcNodeProvider>,
    whole: Set<RpcNodeProvider>,
    p: RpcNodeProvider,
    q: RpcNodeProvider,
)
    requires
        whole.finite(),
        part.subset_of(whole),
        part.contains(p),
        part.contains(q),
        p != q,
    ensures
        part.finite(),
        part.len() >= 2,
{
    vstd::set_lib::lemma_set_subset_finite(whole, part);
    let two = set![p, q];
    assert(two.len() == 2);
    vstd::set_lib::lemma_len_subset(two, part);
}

/// Reducing to the lowest key has one outcome.
pub proof fn law_min_determined<T, K: Ord>(
    votes: Seq<(RpcNodeProvider, T)>,
    keys: Seq<K>,
    r: Result<T, MultiCallErrorView<T>>,
    s: Result<T, MultiCallErrorView<T>>,
)
    requires
        crate::multi_call::reduced_by_min(votes, keys, r),
        crate::multi_call::reduced_by_min(votes, keys, s),
    ensures
        r == s,
{
    let m = choose|m: int| #[trigger]
        crate::multi_call::is_first_lowest(keys, m) && r == Ok::<T, MultiCallErrorView<T>>(
            votes[m].1,
        );
    let n = choose|n: int| #[trigger]
        crate::multi_call::is_first_lowest(keys, n) && s == Ok::<T, MultiCallErrorView<T>>(
            votes[n].1,
        );
    assert(!crate::key::key_below(keys[m], keys[n]) && !crate::key::key_below(keys[n], keys[m]));
}

/// Whether some vote for a key is this one.
pub open spec fn is_cast<T, K: Ord>(
    votes: Seq<(RpcNodeProvider, T)>,
    keys: Seq<K>,
    key: K,
    vote: (RpcNodeProvider, T),
) -> bool {
    exists|i: int|
        0 <= i < keys.len() && crate::key::same_key(#[trigger] keys[i], key) && votes[i] == vote
}

/// A ballot holds votes for its key, and every vote for its key.
pub proof fn lemma_ballot_members<T, K: Ord>(
    votes: Seq<(RpcNodeProvider, T)>,
    keys: Seq<K>,
    key: K,
)
    ensures
        crate::majority::ballot(votes, keys, key).len() <= keys.len(),
        forall|b: int|
            0 <= b < crate::majority::ballot(votes, keys, key).len() ==> is_cast(
                votes,
                keys,
                key,
                #[trigger] crate::majority::ballot(votes, keys, key)[b],
            ),
        forall|i: int|
            0 <= i < keys.len() && crate::key::same_key(#[trigger] keys[i], key)
                ==> crate::majority::ballot(votes, keys, key).contains(votes[i]),
    decreases keys.len(),
{
    if keys.len() > 0 {
        let front = keys.drop_last();
        lemma_ballot_members(votes, front, key);
        let earlier = crate::majority::ballot(votes, front, key);
        let all = crate::majority::ballot(votes, keys, key);
        assert forall|b: int| 0 <= b < all.len() implies is_cast(
            votes,
            keys,
            key,
            #[trigger] all[b],
        ) by {
            if b < earlier.len() {
                assert(all[b] == earlier[b]);
                assert(is_cast(votes, front, key, earlier[b]));
                let i = choose|i: int|
                    0 <= i < front.len() && crate::key::same_key(#[trigger] front[i], key)
                        && votes[i] == earlier[b];
                assert(keys[i] == front[i]);
            } else {
                assert(votes[keys.len() - 1] == all[b]);
                assert(crate::key::same_key(keys[keys.len() - 1], key));
            }
        }
        assert forall|i: int|
            0 <= i < keys.len() && crate::key::same_key(
                #[trigger] keys[i],
                key,
            ) implies all.contains(votes[i]) by {
            if i < front.len() {
                assert(front[i] == keys[i]);
                let b = choose|b: int| 0 <= b < earlier.len() && earlier[b] == votes[i];
                assert(all[b] == earlier[b]);
            } else {
                assert(all[all.len() - 1] == votes[i]);
            }
        }
    }
}

/// Two different keys share no vote.
proof fn lemma_two_ballots<T, K: Ord>(
    votes: Seq<(RpcNodeProvider, T)>,
    keys: Seq<K>,
    a: K,
    b: K,
)
    requires
        crate::key::totally_ordered::<K>(),
        !crate::key::same_key(a, b),
    ensures
        crate::majority::ballot(votes, keys, a).len() + crate::majority::ballot(
            votes,
            keys,
            b,
        ).len() <= keys.len(),
    decreases keys.len(),
{
    if keys.len() > 0 {
        lemma_two_ballots(votes, keys.drop_last(), a, b);
        crate::key::lemma_key_order(keys.last(), a, keys.last());
        crate::key::lemma_key_order(a, keys.last(), b);
    }
}

/// The answer that wins a vote has strictly more votes for its key than any other key has, and all
/// providers that voted for that key gave an equal value.
pub proof fn law_majority_winner<T: PartialEq, K: Ord>(
    votes: Seq<(RpcNodeProvider, T)>,
    keys: Seq<K>,
    value: T,
)
    requires
        vstd::laws_eq::obeys_eq::<T>(),
        crate::key::totally_ordered::<K>(),
        crate::majority::reduced_by_majority(votes, keys, Ok(value)),
    ensures
        keys.len() == votes.len(),
        exists|top: int|
            {
                &&& 0 <= top < votes.len()
                &&& votes[top].1 == value
                &&& #[trigger] crate::majority::leads(votes, keys, top)
                &&& forall|i: int|
                    0 <= i < votes.len() && i != top && crate::key::same_key(
                        #[trigger] keys[i],
                        keys[top],
                    ) ==> value.eq_spec(&votes[i].1)
            },
{
    let top = choose|top: int|
        crate::majority::decided(votes, keys, top, Ok::<T, MultiCallErrorView<T>>(value));
    assert(crate::majority::decided(votes, keys, top, Ok::<T, MultiCallErrorView<T>>(value)));
    assert forall|i: int|
        0 <= i < votes.len() && i != top && crate::key::same_key(
            #[trigger] keys[i],
            keys[top],
        ) implies value.eq_spec(&votes[i].1) by {
        assert(i < top);
        lemma_agreement(votes, keys, keys.len() as int, i, top);
    }
}

/// Votes for one key that agree one after another agree with the last one.
pub proof fn lemma_agreement<T: PartialEq, K: Ord>(
    votes: Seq<(RpcNodeProvider, T)>,
    keys: Seq<K>,
    n: int,
    i: int,
    top: int,
)
    requires
        vstd::laws_eq::obeys_eq::<T>(),
        crate::key::totally_ordered::<K>(),
        keys.len() <= votes.len(),
        n <= keys.len(),
        crate::majority::agreeing(votes, keys, n),
        0 <= i < top < n,
        crate::key::same_key(keys[i], keys[top]),
    ensures
        votes[top].1.eq_spec(&votes[i].1),
    decreases top - i,
{
    reveal(vstd::laws_eq::obeys_eq_spec_properties);
    if crate::majority::precedes(keys, i, top) {
        assert(call_ensures(T::ne, (&votes[top].1, &votes[i].1), false));
    } else {
        let k = choose|k: int| i < k < top && crate::key::same_key(#[trigger] keys[k], keys[top]);
        crate::key::lemma_key_order(keys[k], keys[top], keys[i]);
        crate::key::lemma_key_order(keys[i], keys[top], keys[k]);
        crate::key::lemma_key_order(keys[top], keys[k], keys[i]);
        lemma_agreement(votes, keys, n, k, top);
        lemma_agreement(votes, keys, n, i, k);
        assert(votes[top].1.eq_spec(&votes[k].1) && votes[k].1.eq_spec(&votes[i].1));
    }
}

/// Where all values with the same key are equal, a key that has more than half of the votes wins,
/// and the outcome is the last vote for it.
pub proof fn law_more_than_half_wins<T: PartialEq, K: Ord>(
    votes: Seq<(RpcNodeProvider, T)>,
    keys: Seq<K>,
    n: int,
    r: Result<T, MultiCallErrorView<T>>,
    key: K,
)
    requires
        T::obeys_eq_spec(),
        crate::key::totally_ordered::<K>(),
        keys.len() == votes.len(),
        forall|i: int, j: int|
            0 <= i < keys.len() && 0 <= j < keys.len() && i != j && crate::key::same_key(
                #[trigger] keys[i],
                #[trigger] keys[j],
            ) ==> votes[i].1.eq_spec(&votes[j].1),
        0 <= n <= keys.len(),
        crate::majority::reduced_by_majority(votes, keys.take(n), r),
        2 * crate::majority::ballot(votes, keys, key).len() > votes.len(),
    ensures
        r == Ok::<T, MultiCallErrorView<T>>(crate::majority::ballot(votes, keys, key).last().1),
{
    if crate::majority::clashing(votes, keys.take(n)) {
        let seen = keys.take(n);
        let j = choose|j: int| #[trigger]
            crate::majority::precedes(seen, j, n - 1) && call_ensures(
                T::ne,
                (&votes[n - 1].1, &votes[j].1),
                true,
            );
        assert(crate::majority::precedes(seen, j, n - 1));
        assert(seen[j] == keys[j] && seen[n - 1] == keys[n - 1]);
        crate::key::lemma_key_order(keys[j], keys[n - 1], keys[j]);
        assert(votes[n - 1].1.eq_spec(&votes[j].1));
    }
    assert(keys.take(n) =~= keys);
    let top = choose|top: int| crate::majority::decided(votes, keys, top, r);
    assert(crate::majority::decided(votes, keys, top, r));
    lemma_ballot_members(votes, keys, key);
    let own = crate::majority::ballot(votes, keys, key);
    assert(is_cast(votes, keys, key, own[0]));
    let i = choose|i: int|
        0 <= i < keys.len() && crate::key::same_key(#[trigger] keys[i], key) && votes[i] == own[0];
    crate::majority::lemma_ballot_of_same_key(votes, keys, keys[i], key);
    if !crate::key::same_key(keys[i], keys[top]) {
        lemma_two_ballots(votes, keys, keys[i], keys[top]);
        assert(crate::majority::outranks(votes, keys, keys[top], keys[i]));
    }
    crate::majority::lemma_ballot_of_same_key(votes, keys, keys[i], keys[top]);
    assert forall|j: int|
        0 <= j < keys.len() && !crate::key::same_key(
            #[trigger] keys[j],
            keys[top],
        ) implies own.len() > crate::majority::ballot(votes, keys, keys[j]).len() by {
        lemma_two_ballots(votes, keys, keys[j], keys[top]);
    }
    assert(crate::majority::leads(votes, keys, top));
    let last = crate::majority::lemma_ballot_last(votes, keys, keys[top]);
    crate::key::lemma_key_order(keys[top], keys[top], keys[top]);
    assert(last == top);
}

/// Where all providers answer with equal values and keys, the vote goes to the answer of the
/// highest provider.
pub proof fn law_unanimous_vote<T: PartialEq, K: Ord>(
    votes: Seq<(RpcNodeProvider, T)>,
    keys: Seq<K>,
    n: int,
    r: Result<T, MultiCallErrorView<T>>,
)
    requires
        T::obeys_eq_spec(),
        crate::key::totally_ordered::<K>(),
        votes.len() > 0,
        keys.len() == votes.len(),
        forall|i: int, j: int|
            0 <= i < keys.len() && 0 <= j < keys.len() && i != j ==> crate::key::same_key(
                #[trigger] keys[i],
                #[trigger] keys[j],
            ) && votes[i].1.eq_spec(&votes[j].1),
        0 <= n <= keys.len(),
        crate::majority::reduced_by_majority(votes, keys.take(n), r),
    ensures
        r == Ok::<T, MultiCallErrorView<T>>(votes.last().1),
{
    let key = keys.last();
    crate::key::lemma_key_order(key, key, key);
    lemma_whole_ballot(votes, keys, key);
    law_more_than_half_wins(votes, keys, n, r, key);
}

/// A key that every vote has has a ballot with all votes.
proof fn lemma_whole_ballot<T, K: Ord>(
    votes: Seq<(RpcNodeProvider, T)>,
    keys: Seq<K>,
    key: K,
)
    requires
        keys.len() <= votes.len(),
        forall|i: int| 0 <= i < keys.len() ==> crate::key::same_key(#[trigger] keys[i], key),
    ensures
        crate::majority::ballot(votes, keys, key) == votes.take(keys.len() as int),
    decreases keys.len(),
{
    if keys.len() > 0 {
        let front = keys.drop_last();
        assert forall|i: int| 0 <= i < front.len() implies crate::key::same_key(
            #[trigger] front[i],
            key,
        ) by {
            assert(front[i] == keys[i]);
        }
        lemma_whole_ballot(votes, front, key);
        assert(crate::key::same_key(keys[keys.len() - 1], key));
        assert(crate::majority::ballot(votes, keys, key) =~= votes.take(keys.len() as int));
    } else {
        assert(crate::majority::ballot(votes, keys, key) =~= votes.take(0));
    }
}

/// A report of votes that contradict one another holds the answers of at least two providers, as
/// they gave them.
pub proof fn law_majority_report<T: PartialEq, K: Ord>(
    values: Map<RpcNodeProvider, T>,
    keys: Seq<K>,
    report: Map<RpcNodeProvider, Result<T, RpcError>>,
)
    requires
        values.dom().finite(),
        crate::key::totally_ordered::<K>(),
        keys.len() <= values.len(),
        crate::majority::reduced_by_majority(
            crate::ordered::entries(values),
            keys,
            Err(MultiCallErrorView::InconsistentResults(report)),
        ),
    ensures
        report.submap_of(crate::multi_call::as_answers(values)),
        report.dom().finite(),
        report.len() >= 2,
{
    let votes = crate::ordered::entries(values);
    let r = Err::<T, MultiCallErrorView<T>>(MultiCallErrorView::InconsistentResults(report));
    if crate::majority::clashing(votes, keys) && r == Err::<T, MultiCallErrorView<T>>(
        crate::majority::contradiction(crate::majority::ballot(votes, keys, keys.last())),
    ) {
        lemma_clash_report(values, keys);
    } else {
        let top = choose|top: int| crate::majority::decided(votes, keys, top, r);
        let second = choose|second: int| crate::majority::contested(votes, keys, top, second, r);
        lemma_tie_report(values, keys, top, second);
    }
}

/// What a vote that ended with a clash reports.
proof fn lemma_clash_report<T: PartialEq, K: Ord>(values: Map<RpcNodeProvider, T>, keys: Seq<K>)
    requires
        values.dom().finite(),
        crate::key::totally_ordered::<K>(),
        keys.len() <= values.len(),
        crate::majority::clashing(crate::ordered::entries(values), keys),
    ensures
        is_part(
            values,
            crate::majority::contradiction(
                crate::majority::ballot(crate::ordered::entries(values), keys, keys.last()),
            ),
        ),
{
    let votes = crate::ordered::entries(values);
    crate::ordered::lemma_entries(values);
    let n = keys.len() - 1;
    let j = choose|j: int| #[trigger]
        crate::majority::precedes(keys, j, n) && call_ensures(
            T::ne,
            (&votes[n].1, &votes[j].1),
            true,
        );
    assert(crate::majority::precedes(keys, j, n));
    crate::key::lemma_key_order(keys[n], keys[n], keys[n]);
    lemma_ballot_members(votes, keys, keys[n]);
    let cast = crate::majority::ballot(votes, keys, keys[n]);
    assert forall|k: int| 0 <= k < cast.len() implies votes.contains(#[trigger] cast[k]) by {
        assert(is_cast(votes, keys, keys[n], cast[k]));
    }
    assert(votes[j].0 < votes[n].0);
    lemma_contradiction(values, cast, votes[j], votes[n]);
}

/// What a vote without a winner reports.
proof fn lemma_tie_report<T, K: Ord>(
    values: Map<RpcNodeProvider, T>,
    keys: Seq<K>,
    top: int,
    second: int,
)
    requires
        values.dom().finite(),
        crate::key::totally_ordered::<K>(),
        keys.len() <= values.len(),
        0 <= top < keys.len(),
        0 <= second < keys.len(),
        !crate::key::same_key(keys[second], keys[top]),
    ensures
        is_part(
            values,
            crate::majority::contradiction(
                crate::majority::ballot(crate::ordered::entries(values), keys, keys[top])
                    + crate::majority::ballot(crate::ordered::entries(values), keys, keys[second]),
            ),
        ),
{
    let votes = crate::ordered::entries(values);
    crate::ordered::lemma_entries(values);
    crate::key::lemma_key_order(keys[top], keys[top], keys[top]);
    crate::key::lemma_key_order(keys[second], keys[second], keys[second]);
    lemma_ballot_members(votes, keys, keys[top]);
    lemma_ballot_members(votes, keys, keys[second]);
    let a = crate::majority::ballot(votes, keys, keys[top]);
    let b = crate::majority::ballot(votes, keys, keys[second]);
    let i = choose|i: int| 0 <= i < a.len() && a[i] == votes[top];
    let j = choose|j: int| 0 <= j < b.len() && b[j] == votes[second];
    assert((a + b)[i] == votes[top]);
    assert((a + b)[a.len() + j] == votes[second]);
    assert forall|k: int| 0 <= k < (a + b).len() implies votes.contains(#[trigger] (a + b)[k]) by {
        if k < a.len() {
            assert(is_cast(votes, keys, keys[top], a[k]));
        } else {
            assert(is_cast(votes, keys, keys[second], b[k - a.len()]));
        }
    }
    assert(top != second);
    assert(votes[top].0 != votes[second].0) by {
        if top < second {
            assert(votes[top].0 < votes[second].0);
        } else {
            assert(votes[second].0 < votes[top].0);
        }
    }
    lemma_contradiction(values, a + b, votes[top], votes[second]);
}

/// Whether a report holds the answers of at least two providers, as they gave them.
spec fn is_part<T>(values: Map<RpcNodeProvider, T>, error: MultiCallErrorView<T>) -> bool {
    let report = error->InconsistentResults_0;
    &&& report.submap_of(crate::multi_call::as_answers(values))
    &&& report.dom().finite()
    &&& report.len() >= 2
}

/// What a report of votes holds.
proof fn lemma_contradiction<T>(
    values: Map<RpcNodeProvider, T>,
    cast: Seq<(RpcNodeProvider, T)>,
    one: (RpcNodeProvider, T),
    other: (RpcNodeProvider, T),
)
    requires
        values.dom().finite(),
        forall|k: int|
            0 <= k < cast.len() ==> crate::ordered::entries(values).contains(#[trigger] cast[k]),
        cast.contains(one),
        cast.contains(other),
        one.0 != other.0,
    ensures
        is_part(values, crate::majority::contradiction(cast)),
{
    let votes = crate::ordered::entries(values);
    crate::ordered::lemma_entries(values);
    let answers = crate::multi_call::as_answers(values);
    let pairs = cast.map_values(|v: (RpcNodeProvider, T)| (v.0, Ok::<T, RpcError>(v.1)));
    let report = crate::ordered::collected(pairs);
    assert forall|k: int| 0 <= k < pairs.len() implies answers.contains_key(
        (#[trigger] pairs[k]).0,
    ) && answers[pairs[k].0] == pairs[k].1 by {
        let l = choose|l: int| 0 <= l < votes.len() && votes[l] == cast[k];
        assert(values.contains_key(votes[l].0));
    }
    crate::ordered::lemma_collected_submap(pairs, answers);
    crate::ordered::lemma_collected(pairs);
    let i = choose|i: int| 0 <= i < cast.len() && cast[i] == one;
    let j = choose|j: int| 0 <= j < cast.len() && cast[j] == other;
    assert(pairs[i].0 == one.0 && pairs[j].0 == other.0);
    assert(report.contains_key(one.0) && report.contains_key(other.0));
    lemma_two_members(report.dom(), report.dom(), one.0, other.0);
}

/// Where `==` is determined by the values, and the order of keys is total, reducing by strict
/// majority has one outcome: it does not matter how many of the keys are looked at.
pub proof fn law_majority_determined<T: PartialEq, K: Ord>(
    votes: Seq<(RpcNodeProvider, T)>,
    keys: Seq<K>,
    m: int,
    n: int,
    r: Result<T, MultiCallErrorView<T>>,
    s: Result<T, MultiCallErrorView<T>>,
)
    requires
        T::obeys_eq_spec(),
        crate::key::totally_ordered::<K>(),
        keys.len() == votes.len(),
        0 <= m <= keys.len(),
        0 <= n <= keys.len(),
        crate::majority::reduced_by_majority(votes, keys.take(m), r),
        crate::majority::reduced_by_majority(votes, keys.take(n), s),
    ensures
        r == s,
{
    if crate::majority::clashing(votes, keys.take(m)) {
        lemma_clash_ends_vote(votes, keys, m, n, s);
    }
    if crate::majority::clashing(votes, keys.take(n)) {
        lemma_clash_ends_vote(votes, keys, n, m, r);
    }
    if !crate::majority::clashing(votes, keys.take(m)) {
        lemma_tally_determined(votes, keys.take(m), r, s);
    }
}

/// A vote that ends with a clash ends there, whatever else is looked at.
proof fn lemma_clash_ends_vote<T: PartialEq, K: Ord>(
    votes: Seq<(RpcNodeProvider, T)>,
    keys: Seq<K>,
    m: int,
    n: int,
    s: Result<T, MultiCallErrorView<T>>,
)
    requires
        T::obeys_eq_spec(),
        keys.len() == votes.len(),
        0 <= m <= keys.len(),
        0 <= n <= keys.len(),
        crate::majority::clashing(votes, keys.take(m)),
        crate::majority::reduced_by_majority(votes, keys.take(n), s),
    ensures
        n <= m,
        s is Err,
        crate::majority::clashing(votes, keys.take(n)),
{
    let few = keys.take(m);
    let j = choose|j: int| #[trigger]
        crate::majority::precedes(few, j, m - 1) && call_ensures(
            T::ne,
            (&votes[m - 1].1, &votes[j].1),
            true,
        );
    assert(crate::majority::precedes(few, j, m - 1));
    let many = keys.take(n);
    let seen = if crate::majority::clashing(votes, many) {
        n - 1
    } else {
        n
    };
    assert(crate::majority::agreeing(votes, many, seen));
    if m <= seen {
        assert forall|k: int| j < k < m - 1 implies !crate::key::same_key(
            #[trigger] many[k],
            many[m - 1],
        ) by {
            assert(few[k] == many[k]);
        }
        assert(crate::majority::precedes(many, j, m - 1));
        assert(call_ensures(T::ne, (&votes[m - 1].1, &votes[j].1), false));
    }
}

/// Counting votes has one outcome.
proof fn lemma_tally_determined<T, K: Ord>(
    votes: Seq<(RpcNodeProvider, T)>,
    keys: Seq<K>,
    r: Result<T, MultiCallErrorView<T>>,
    s: Result<T, MultiCallErrorView<T>>,
)
    requires
        crate::key::totally_ordered::<K>(),
        crate::majority::tallied(votes, keys, r),
        crate::majority::tallied(votes, keys, s),
    ensures
        r == s,
{
    let a = choose|top: int| crate::majority::decided(votes, keys, top, r);
    let b = choose|top: int| crate::majority::decided(votes, keys, top, s);
    crate::key::lemma_key_order(keys[a], keys[b], keys[a]);
    crate::key::lemma_key_order(keys[b], keys[a], keys[b]);
    if !crate::key::same_key(keys[a], keys[b]) {
        assert(crate::majority::outranks(votes, keys, keys[a], keys[b]));
        assert(crate::majority::outranks(votes, keys, keys[b], keys[a]));
    }
    assert(a == b);
    if !crate::majority::leads(votes, keys, a) {
        let c = choose|second: int| crate::majority::contested(votes, keys, a, second, r);
        let d = choose|second: int| crate::majority::contested(votes, keys, a, second, s);
        crate::key::lemma_key_order(keys[c], keys[d], keys[c]);
        crate::key::lemma_key_order(keys[d], keys[c], keys[d]);
        if !crate::key::same_key(keys[c], keys[d]) {
            assert(crate::majority::outranks(votes, keys, keys[c], keys[d]));
            assert(crate::majority::outranks(votes, keys, keys[d], keys[c]));
        }
        crate::majority::lemma_ballot_of_same_key(votes, keys, keys[c], keys[d]);
    }
}

/// Reducing fee histories has one outcome.
pub proof fn law_fee_history_determined(
    results: Map<RpcNodeProvider, Result<FeeHistory, RpcError>>,
    r: Result<FeeHistory, MultiCallErrorView<FeeHistory>>,
    s: Result<FeeHistory, MultiCallErrorView<FeeHistory>>,
)
    requires
        crate::client::fee_history_agreed_upon(results, r),
        crate::client::fee_history_agreed_upon(results, s),
    ensures
        r == s,
{
    if crate::multi_call::failure(results) is None {
        let votes = crate::ordered::entries(crate::multi_call::ok_values(results));
        let keys = crate::client::oldest_blocks(votes);
        let m = choose|n: int|
            0 <= n <= votes.len() && crate::majority::reduced_by_majority(
                votes,
                #[trigger] keys.take(n),
                r,
            );
        let n = choose|n: int|
            0 <= n <= votes.len() && crate::majority::reduced_by_majority(
                votes,
                #[trigger] keys.take(n),
                s,
            );
        law_majority_determined(votes, keys, m, n, r, s);
    }
}

/// The fee history that wins is the one that every provider with the same oldest block reported,
/// and these are strictly more than for any other oldest block.
pub proof fn law_fee_history_winner(
    results: Map<RpcNodeProvider, Result<FeeHistory, RpcError>>,
    history: FeeHistory,
)
    requires
        crate::client::fee_history_agreed_upon(results, Ok(history)),
    ensures
        crate::multi_call::failure(results) is None,
        ({
            let votes = crate::ordered::entries(crate::multi_call::ok_values(results));
            &&& forall|i: int|
                0 <= i < votes.len() && (#[trigger] votes[i]).1.oldest_block == history.oldest_block
                    ==> votes[i].1@ == history@
            &&& exists|top: int|
                0 <= top < votes.len() && votes[top].1 == history
                    && #[trigger] crate::majority::leads(
                    votes,
                    crate::client::oldest_blocks(votes),
                    top,
                )
        }),
{
    let votes = crate::ordered::entries(crate::multi_call::ok_values(results));
    let keys = crate::client::oldest_blocks(votes);
    let r = Ok::<FeeHistory, MultiCallErrorView<FeeHistory>>(history);
    let n = choose|n: int|
        0 <= n <= votes.len() && crate::majority::reduced_by_majority(
            votes,
            #[trigger] keys.take(n),
            r,
        );
    assert(vstd::laws_eq::obeys_eq::<FeeHistory>()) by {
        reveal(vstd::laws_eq::obeys_eq_spec_properties);
    }
    law_majority_winner(votes, keys.take(n), history);
    assert(keys.take(n) =~= keys);
    let top = choose|top: int|
        {
            &&& 0 <= top < votes.len()
            &&& votes[top].1 == history
            &&& #[trigger] crate::majority::leads(votes, keys, top)
            &&& forall|i: int|
                0 <= i < votes.len() && i != top && crate::key::same_key(
                    #[trigger] keys[i],
                    keys[top],
                ) ==> history.eq_spec(&votes[i].1)
        };
    assert forall|i: int|
        0 <= i < votes.len() && (#[trigger] votes[i]).1.oldest_block
            == history.oldest_block implies votes[i].1@ == history@ by {
        assert(keys[i] == keys[top]);
        crate::key::lemma_key_order(keys[i], keys[top], keys[top]);
        if i != top {
            assert(history.eq_spec(&votes[i].1));
        }
    }
}

/// The halves of numbers are ordered as the numbers are.
pub proof fn law_halves_order(a: Quantity, b: Quantity)
    ensures
        crate::key::key_below((a.high, a.low), (b.high, b.low)) <==> a.value() < b.value(),
        crate::key::same_key((a.high, a.low), (b.high, b.low)) <==> a.value() == b.value(),
        a.value() == b.value() <==> a == b,
{
}

} // verus!
