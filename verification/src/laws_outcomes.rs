//! What callers can rely on, reduction by reduction: which answers give which outcome.

use std::collections::BTreeMap;

use vstd::prelude::*;
use vstd::std_specs::cmp::{OrdSpec, PartialEqSpec};

use crate::eth_rpc::{FeeHistory, RpcError};
use crate::multi_call::{MultiCallError, MultiCallErrorView, MultiCallResults};
use crate::providers::RpcNodeProvider;

verus! {

broadcast use vstd::laws_cmp::group_laws_cmp;

/// Checking answers for errors. Without any, the values come back as they were given. Errors that
/// all say the same give that of the lowest provider that failed. Otherwise that one is reported
/// with the error of the lowest provider that failed otherwise, and nothing else is.
pub proof fn law_all_ok<T>(
    results: MultiCallResults<T>,
    r: Result<BTreeMap<RpcNodeProvider, T>, MultiCallError<T>>,
)
    requires
        call_ensures(MultiCallResults::<T>::all_ok, (results,), r),
    ensures
        match r {
            Ok(values) => {
                &&& forall|p: RpcNodeProvider|
                    values@.contains_key(p) <==> #[trigger] results.results@.contains_key(p)
                &&& forall|p: RpcNodeProvider| #[trigger]
                    results.results@.contains_key(p) ==> results.results@[p] == Ok::<T, RpcError>(
                        values@[p],
                    )
            },
            Err(MultiCallError::ConsistentError(e)) => exists|p: RpcNodeProvider|
                {
                    &&& #[trigger] results.results@.contains_key(p)
                    &&& results.results@[p] == Err::<T, RpcError>(e)
                    &&& forall|q: RpcNodeProvider| #[trigger]
                        results.results@.contains_key(q) && results.results@[q] is Err ==> p <= q
                            && results.results@[q]->Err_0@ == e@
                },
            Err(MultiCallError::InconsistentResults(report)) => exists|
                p: RpcNodeProvider,
                q: RpcNodeProvider,
            |
                {
                    &&& #[trigger] results.results@.contains_key(p)
                    &&& #[trigger] results.results@.contains_key(q)
                    &&& p < q
                    &&& results.results@[p] is Err
                    &&& results.results@[q] is Err
                    &&& results.results@[p]->Err_0@ != results.results@[q]->Err_0@
                    &&& forall|o: RpcNodeProvider| #[trigger]
                        results.results@.contains_key(o) && results.results@[o] is Err ==> p <= o
                            && (o < q ==> results.results@[o]->Err_0@
                            == results.results@[p]->Err_0@)
                    &&& report.results@
                        == map![p => results.results@[p], q => results.results@[q]]
                },
        },
{
    let all = results.results@;
    match r {
        Ok(values) => {
            crate::laws::law_failure_iff_error(all);
            assert(values@.dom() =~= all.dom());
        },
        Err(MultiCallError::ConsistentError(e)) => {
            crate::laws::law_consistent_iff_same_error(all);
        },
        Err(MultiCallError::InconsistentResults(report)) => {
            crate::laws::law_first_conflict(all);
        },
    }
}

/// Reducing by equality. Errors come first, as they are found when answers are checked for them.
/// Otherwise the outcome is the value of the lowest provider if `!=` holds between it and no other
/// value; if it holds, that value is reported with exactly the ones that differ from it.
pub proof fn law_reduce_with_equality<T: PartialEq>(
    results: MultiCallResults<T>,
    checked: Result<BTreeMap<RpcNodeProvider, T>, MultiCallError<T>>,
    lowest: RpcNodeProvider,
    r: Result<T, MultiCallError<T>>,
)
    requires
        call_ensures(MultiCallResults::<T>::all_ok, (results,), checked),
        call_ensures(MultiCallResults::<T>::reduce_with_equality, (results,), r),
        results.results@.contains_key(lowest),
        forall|p: RpcNodeProvider| #[trigger] results.results@.contains_key(p) ==> lowest <= p,
    ensures
        match (checked, r) {
            (
                Err(MultiCallError::ConsistentError(a)),
                Err(MultiCallError::ConsistentError(b)),
            ) => a == b,
            (
                Err(MultiCallError::InconsistentResults(a)),
                Err(MultiCallError::InconsistentResults(b)),
            ) => a.results@ == b.results@,
            (Ok(values), Ok(value)) => {
                &&& value == values@[lowest]
                &&& forall|p: RpcNodeProvider| #[trigger]
                    values@.contains_key(p) && p != lowest ==> call_ensures(
                        T::ne,
                        (&values@[p], &value),
                        false,
                    )
            },
            (Ok(values), Err(MultiCallError::InconsistentResults(report))) => {
                &&& report.results@.contains_key(lowest)
                &&& exists|p: RpcNodeProvider| #[trigger]
                    report.results@.contains_key(p) && p != lowest
                &&& forall|p: RpcNodeProvider| #[trigger]
                    report.results@.contains_key(p) ==> values@.contains_key(p)
                        && report.results@[p] == Ok::<T, RpcError>(values@[p])
                &&& forall|p: RpcNodeProvider| #[trigger]
                    values@.contains_key(p) && p != lowest ==> call_ensures(
                        T::ne,
                        (&values@[p], &values@[lowest]),
                        report.results@.contains_key(p),
                    )
            },
            _ => false,
        },
{
    if checked is Ok {
        lemma_same_providers(results.results@, checked->Ok_0@);
        lemma_equality(checked->Ok_0@, lowest, crate::multi_call::verdict(r));
    }
}

/// Where no answer is an error, the values have the providers of the answers.
pub proof fn lemma_same_providers<T>(
    results: Map<RpcNodeProvider, Result<T, RpcError>>,
    values: Map<RpcNodeProvider, T>,
)
    requires
        results.dom().finite(),
        values == crate::multi_call::ok_values(results),
    ensures
        values.dom() == results.dom(),
        values.dom().finite(),
        values.len() == results.len(),
{
    assert(values.dom() =~= results.dom());
}

/// How values reduce by equality.
pub proof fn lemma_equality<T: PartialEq>(
    values: Map<RpcNodeProvider, T>,
    lowest: RpcNodeProvider,
    r: Result<T, MultiCallErrorView<T>>,
)
    requires
        values.dom().finite(),
        crate::multi_call::reduced_by_equality(values, r),
        values.contains_key(lowest),
        forall|p: RpcNodeProvider| #[trigger] values.contains_key(p) ==> lowest <= p,
    ensures
        match r {
            Ok(value) => {
                &&& value == values[lowest]
                &&& forall|p: RpcNodeProvider| #[trigger]
                    values.contains_key(p) && p != lowest ==> call_ensures(
                        T::ne,
                        (&values[p], &value),
                        false,
                    )
            },
            Err(MultiCallErrorView::InconsistentResults(report)) => {
                &&& report.contains_key(lowest)
                &&& exists|p: RpcNodeProvider| #[trigger] report.contains_key(p) && p != lowest
                &&& forall|p: RpcNodeProvider| #[trigger]
                    report.contains_key(p) ==> values.contains_key(p) && report[p] == Ok::<
                        T,
                        RpcError,
                    >(values[p])
                &&& forall|p: RpcNodeProvider| #[trigger]
                    values.contains_key(p) && p != lowest ==> call_ensures(
                        T::ne,
                        (&values[p], &values[lowest]),
                        report.contains_key(p),
                    )
            },
            Err(MultiCallErrorView::ConsistentError(_)) => false,
        },
{
    let votes = crate::ordered::entries(values);
    crate::ordered::lemma_entries(values);
    assert(votes.contains((lowest, values[lowest])));
    let l = choose|l: int| 0 <= l < votes.len() && votes[l] == (lowest, values[lowest]);
    assert(values.contains_key(votes[0].0));
    if l > 0 {
        assert(votes[0].0 < votes[l].0);
    }
    let differing = crate::laws_reduce::lemma_differing(values, r);
    match r {
        Ok(value) => {
            assert forall|p: RpcNodeProvider| #[trigger]
                values.contains_key(p) && p != lowest implies call_ensures(
                T::ne,
                (&values[p], &value),
                false,
            ) by {
                assert(!differing.contains(p));
            }
        },
        Err(MultiCallErrorView::InconsistentResults(report)) => {
            let q = choose|q: RpcNodeProvider| differing.contains(q);
            assert(differing.contains(q));
            assert(report.contains_key(q));
            assert forall|p: RpcNodeProvider| #[trigger]
                values.contains_key(p) && p != lowest implies call_ensures(
                T::ne,
                (&values[p], &values[lowest]),
                report.contains_key(p),
            ) by {
                assert(report.contains_key(p) == differing.contains(p));
            }
        },
        Err(MultiCallErrorView::ConsistentError(_)) => {},
    }
}

/// Whatever the order of keys, every reduction fails with what is found when answers are checked
/// for errors, if anything is; and it makes nothing up: a value or an error that it gives is the
/// answer of some provider, and the answers that it reports are those that the providers gave.
/// Reducing to the lowest key fails in no other case.
pub proof fn law_errors_first_and_nothing_made_up<
    T: PartialEq,
    F: FnMut(&T) -> K,
    G: Fn(&T) -> L,
    K: Ord,
    L: Ord,
>(
    results: MultiCallResults<T>,
    min_extractor: F,
    majority_extractor: G,
    checked: Result<BTreeMap<RpcNodeProvider, T>, MultiCallError<T>>,
    r: Result<T, MultiCallError<T>>,
)
    requires
        results.results@.len() > 0,
        call_ensures(MultiCallResults::<T>::all_ok, (results,), checked),
        call_ensures(MultiCallResults::<T>::reduce_with_equality, (results,), r) || call_ensures(
            MultiCallResults::<T>::reduce_with_min_by_key::<F, K>,
            (results, min_extractor),
            r,
        ) || call_ensures(
            MultiCallResults::<T>::reduce_with_strict_majority_by_key::<G, L>,
            (results, majority_extractor),
            r,
        ),
    ensures
        checked matches Err(e) ==> (r matches Err(f) && match (e, f) {
            (MultiCallError::ConsistentError(a), MultiCallError::ConsistentError(b)) => a == b,
            (MultiCallError::InconsistentResults(a), MultiCallError::InconsistentResults(b)) => {
                a.results@ == b.results@
            },
            _ => false,
        }),
        checked is Ok && call_ensures(
            MultiCallResults::<T>::reduce_with_min_by_key::<F, K>,
            (results, min_extractor),
            r,
        ) ==> r is Ok,
        match r {
            Ok(value) => exists|p: RpcNodeProvider| #[trigger]
                results.results@.contains_key(p) && results.results@[p] == Ok::<T, RpcError>(value),
            Err(MultiCallError::ConsistentError(e)) => exists|p: RpcNodeProvider| #[trigger]
                results.results@.contains_key(p) && results.results@[p] == Err::<T, RpcError>(e),
            Err(MultiCallError::InconsistentResults(report)) => forall|p: RpcNodeProvider|
             #[trigger]
                report.results@.contains_key(p) ==> results.results@.contains_key(p)
                    && results.results@[p] == report.results@[p],
        },
{
    let verdict = crate::multi_call::verdict(r);
    if call_ensures(MultiCallResults::<T>::reduce_with_equality, (results,), r) {
        crate::laws_reduce::law_equality_is_drawn(results.results@, verdict);
    }
    assert(crate::multi_call::drawn_from(results.results@, verdict));
    match r {
        Err(MultiCallError::InconsistentResults(report)) => {
            assert forall|p: RpcNodeProvider| #[trigger] report.results@.contains_key(p) implies
                results.results@.contains_key(p) && results.results@[p] == report.results@[p] by {
                assert(report.results@.dom().contains(p));
            }
        },
        _ => {},
    }
}

/// The key of each provider whose vote was looked at.
spec fn keyed<T, K>(votes: Seq<(RpcNodeProvider, T)>, keys: Seq<K>) -> Map<RpcNodeProvider, K> {
    crate::ordered::collected(Seq::new(keys.len(), |i: int| (votes[i].0, keys[i])))
}

/// The keys of the providers are those of their votes.
proof fn lemma_keyed<T, K>(values: Map<RpcNodeProvider, T>, keys: Seq<K>)
    requires
        values.dom().finite(),
        keys.len() <= values.len(),
    ensures
        ({
            let votes = crate::ordered::entries(values);
            let key_of = keyed(votes, keys);
            &&& votes.len() == values.len()
            &&& forall|i: int|
                0 <= i < keys.len() ==> key_of.contains_key((#[trigger] votes[i]).0)
                    && key_of[votes[i].0] == keys[i]
            &&& forall|p: RpcNodeProvider| #[trigger]
                key_of.contains_key(p) ==> exists|i: int|
                    0 <= i < keys.len() && (#[trigger] votes[i]).0 == p
            &&& key_of.dom().finite()
            &&& key_of.dom().subset_of(values.dom())
            &&& keys.len() == values.len() ==> key_of.dom() == values.dom()
        }),
{
    let votes = crate::ordered::entries(values);
    let pairs = Seq::new(keys.len(), |i: int| (votes[i].0, keys[i]));
    let key_of = keyed(votes, keys);
    crate::ordered::lemma_entries(values);
    crate::ordered::lemma_collected(pairs);
    assert forall|i: int| 0 <= i < keys.len() implies key_of.contains_key((#[trigger] votes[i]).0)
        && key_of[votes[i].0] == keys[i] by {
        assert forall|j: int| i < j < pairs.len() implies (#[trigger] pairs[j]).0 != pairs[i].0 by {
            assert(votes[i].0 < votes[j].0);
        }
        crate::laws::law_collected_keeps_answers(pairs, i);
        assert(pairs[i] == (votes[i].0, keys[i]));
    }
    assert forall|p: RpcNodeProvider| #[trigger] key_of.contains_key(p) implies exists|i: int|
        0 <= i < keys.len() && (#[trigger] votes[i]).0 == p by {
        let i = choose|i: int| 0 <= i < pairs.len() && (#[trigger] pairs[i]).0 == p;
        assert(votes[i].0 == p);
    }
    assert forall|p: RpcNodeProvider| key_of.contains_key(p) implies #[trigger]
        values.contains_key(p) by {
        let i = choose|i: int| 0 <= i < keys.len() && (#[trigger] votes[i]).0 == p;
        assert(values.contains_key(votes[i].0));
    }
    if keys.len() == values.len() {
        assert forall|p: RpcNodeProvider| #[trigger] values.contains_key(p) implies
            key_of.contains_key(p) by {
            assert(votes.contains((p, values[p])));
            let i = choose|i: int| 0 <= i < votes.len() && votes[i] == (p, values[p]);
            assert(key_of.contains_key(votes[i].0));
        }
        assert(key_of.dom() =~= values.dom());
    }
}

/// Reducing to the lowest key. Errors come first, as they are found when answers are checked for
/// them. Otherwise there is a key of each value, given by the extractor, and the outcome is the
/// value of a provider whose key no key of any provider is below, and which is below the keys of
/// all lower providers. Returns the keys and that provider.
pub proof fn law_reduce_with_min_by_key<T: PartialEq, F: FnMut(&T) -> K, K: Ord>(
    results: MultiCallResults<T>,
    extractor: F,
    checked: Result<BTreeMap<RpcNodeProvider, T>, MultiCallError<T>>,
    r: Result<T, MultiCallError<T>>,
) -> (found: (Map<RpcNodeProvider, K>, RpcNodeProvider))
    requires
        vstd::laws_cmp::obeys_cmp::<K>(),
        call_ensures(MultiCallResults::<T>::all_ok, (results,), checked),
        call_ensures(
            MultiCallResults::<T>::reduce_with_min_by_key::<F, K>,
            (results, extractor),
            r,
        ),
    ensures
        match (checked, r) {
            (
                Err(MultiCallError::ConsistentError(a)),
                Err(MultiCallError::ConsistentError(b)),
            ) => a == b,
            (
                Err(MultiCallError::InconsistentResults(a)),
                Err(MultiCallError::InconsistentResults(b)),
            ) => a.results@ == b.results@,
            (Ok(values), Ok(value)) => {
                let (key_of, lowest) = found;
                &&& values@.contains_key(lowest)
                &&& value == values@[lowest]
                &&& forall|p: RpcNodeProvider| #[trigger]
                    values@.contains_key(p) ==> {
                        &&& call_ensures(extractor, (&values@[p],), key_of[p])
                        &&& !(key_of[p].cmp_spec(&key_of[lowest]) is Less)
                        &&& p < lowest ==> key_of[lowest].cmp_spec(&key_of[p]) is Less
                    }
            },
            _ => false,
        },
{
    if checked is Ok {
        let values = checked->Ok_0@;
        let votes = crate::ordered::entries(values);
        lemma_same_providers(results.results@, values);
        crate::ordered::lemma_entries(values);
        let keys = choose|keys: Seq<K>| #[trigger]
            crate::multi_call::extracted(extractor, votes, keys)
                && crate::multi_call::reduced_by_min(votes, keys, crate::multi_call::verdict(r));
        let m = choose|m: int| #[trigger]
            crate::multi_call::is_first_lowest(keys, m) && crate::multi_call::verdict(r) == Ok::<
                T,
                MultiCallErrorView<T>,
            >(votes[m].1);
        lemma_keyed(values, keys);
        let key_of = keyed(votes, keys);
        let lowest = votes[m].0;
        assert(values.contains_key(votes[m].0));
        assert forall|p: RpcNodeProvider| #[trigger] values.contains_key(p) implies {
            &&& call_ensures(extractor, (&values[p],), key_of[p])
            &&& !(key_of[p].cmp_spec(&key_of[lowest]) is Less)
            &&& p < lowest ==> key_of[lowest].cmp_spec(&key_of[p]) is Less
        } by {
            assert(votes.contains((p, values[p])));
            let i = choose|i: int| 0 <= i < votes.len() && votes[i] == (p, values[p]);
            assert(key_of[votes[i].0] == keys[i]);
            assert(key_of[votes[m].0] == keys[m]);
            assert(call_ensures(extractor, (&votes[i].1,), keys[i]));
            if m < i {
                assert(votes[m].0 < votes[i].0);
            }
            assert(!crate::key::key_below(keys[i], keys[m]));
            assert(p < lowest ==> i < m);
        }
        (key_of, lowest)
    } else {
        arbitrary()
    }
}

/// The providers on a ballot stand in increasing order, and no other votes stand on it than those
/// looked at.
proof fn lemma_ballot_ascending<T, K: Ord>(
    votes: Seq<(RpcNodeProvider, T)>,
    keys: Seq<K>,
    key: K,
)
    requires
        forall|i: int, j: int|
            0 <= i < j < votes.len() ==> (#[trigger] votes[i]).0 < (#[trigger] votes[j]).0,
        keys.len() <= votes.len(),
    ensures
        ({
            let cast = crate::majority::ballot(votes, keys, key);
            &&& forall|a: int, b: int|
                0 <= a < b < cast.len() ==> (#[trigger] cast[a]).0 < (#[trigger] cast[b]).0
            &&& forall|a: int| 0 <= a < cast.len() ==> (#[trigger] cast[a]).0 <= votes[keys.len()
                - 1].0
        }),
    decreases keys.len(),
{
    if keys.len() > 0 {
        let front = keys.drop_last();
        lemma_ballot_ascending(votes, front, key);
        let earlier = crate::majority::ballot(votes, front, key);
        let cast = crate::majority::ballot(votes, keys, key);
        assert(front.len() > 0 ==> votes[front.len() - 1].0 < votes[keys.len() - 1].0);
        if earlier.len() > 0 {
            crate::laws_reduce::lemma_ballot_members(votes, front, key);
        }
        assert forall|a: int, b: int| 0 <= a < b < cast.len() implies (#[trigger] cast[a]).0 < (
        #[trigger] cast[b]).0 by {
            assert(cast[a] == earlier[a]);
            if b < earlier.len() {
                assert(cast[b] == earlier[b]);
            }
        }
        assert forall|a: int| 0 <= a < cast.len() implies (#[trigger] cast[a]).0 <= votes[
        keys.len() - 1].0 by {
            if a < earlier.len() {
                assert(cast[a] == earlier[a]);
            }
        }
    }
}

/// A ballot holds the votes of the providers with its key, one of each.
proof fn lemma_voters<T, K: Ord>(values: Map<RpcNodeProvider, T>, keys: Seq<K>, key: K)
    requires
        values.dom().finite(),
        keys.len() <= values.len(),
    ensures
        ({
            let votes = crate::ordered::entries(values);
            let key_of = keyed(votes, keys);
            let cast = crate::majority::ballot(votes, keys, key);
            let voters = key_of.dom().filter(
                |q: RpcNodeProvider| key_of[q].cmp_spec(&key) is Equal,
            );
            &&& voters.len() == cast.len()
            &&& forall|p: RpcNodeProvider| #[trigger]
                voters.contains(p) <==> exists|b: int|
                    0 <= b < cast.len() && (#[trigger] cast[b]).0 == p
            &&& forall|b: int|
                0 <= b < cast.len() ==> values.contains_key((#[trigger] cast[b]).0)
                    && values[cast[b].0] == cast[b].1
        }),
{
    let votes = crate::ordered::entries(values);
    let key_of = keyed(votes, keys);
    let cast = crate::majority::ballot(votes, keys, key);
    let voters = key_of.dom().filter(|q: RpcNodeProvider| key_of[q].cmp_spec(&key) is Equal);
    crate::ordered::lemma_entries(values);
    lemma_keyed(values, keys);
    lemma_ballot_ascending(votes, keys, key);
    crate::laws_reduce::lemma_ballot_members(votes, keys, key);
    assert forall|b: int| 0 <= b < cast.len() implies voters.contains((#[trigger] cast[b]).0)
        && values.contains_key(cast[b].0) && values[cast[b].0] == cast[b].1 by {
        assert(crate::laws_reduce::is_cast(votes, keys, key, cast[b]));
        let i = choose|i: int|
            0 <= i < keys.len() && crate::key::same_key(#[trigger] keys[i], key) && votes[i]
                == cast[b];
        assert(key_of[votes[i].0] == keys[i]);
        assert(values.contains_key(votes[i].0));
    }
    assert forall|p: RpcNodeProvider| #[trigger] voters.contains(p) implies exists|b: int|
        0 <= b < cast.len() && (#[trigger] cast[b]).0 == p by {
        let i = choose|i: int| 0 <= i < keys.len() && (#[trigger] votes[i]).0 == p;
        assert(crate::key::same_key(keys[i], key));
        assert(cast.contains(votes[i]));
        let b = choose|b: int| 0 <= b < cast.len() && cast[b] == votes[i];
        assert(cast[b].0 == p);
    }
    let providers = cast.map_values(|v: (RpcNodeProvider, T)| v.0);
    assert forall|a: int, b: int|
        0 <= a < providers.len() && 0 <= b < providers.len() && a != b implies providers[a]
        != providers[b] by {
        if a < b {
            assert(cast[a].0 < cast[b].0);
        } else {
            assert(cast[b].0 < cast[a].0);
        }
    }
    assert forall|p: RpcNodeProvider| providers.to_set().contains(p) == #[trigger] voters.contains(
        p,
    ) by {
        if voters.contains(p) {
            let b = choose|b: int| 0 <= b < cast.len() && (#[trigger] cast[b]).0 == p;
            assert(providers[b] == p);
        }
    }
    assert(providers.to_set() =~= voters);
    providers.unique_seq_to_set();
}

/// A report of votes holds the answers of those who cast them.
proof fn lemma_reported<T>(
    values: Map<RpcNodeProvider, T>,
    cast: Seq<(RpcNodeProvider, T)>,
    voters: Set<RpcNodeProvider>,
    report: Map<RpcNodeProvider, Result<T, RpcError>>,
)
    requires
        crate::majority::contradiction(cast) == MultiCallErrorView::InconsistentResults(report),
        forall|p: RpcNodeProvider| #[trigger]
            voters.contains(p) <==> exists|b: int|
                0 <= b < cast.len() && (#[trigger] cast[b]).0 == p,
        forall|b: int|
            0 <= b < cast.len() ==> values.contains_key((#[trigger] cast[b]).0)
                && values[cast[b].0] == cast[b].1,
    ensures
        forall|p: RpcNodeProvider| #[trigger] report.contains_key(p) <==> voters.contains(p),
        forall|p: RpcNodeProvider| #[trigger]
            report.contains_key(p) ==> report[p] == Ok::<T, RpcError>(values[p]),
{
    let answers = crate::multi_call::as_answers(values);
    let pairs = cast.map_values(|v: (RpcNodeProvider, T)| (v.0, Ok::<T, RpcError>(v.1)));
    assert(report == crate::ordered::collected(pairs));
    assert forall|k: int| 0 <= k < pairs.len() implies answers.contains_key(
        (#[trigger] pairs[k]).0,
    ) && answers[pairs[k].0] == pairs[k].1 by {
        assert(values.contains_key(cast[k].0));
    }
    crate::ordered::lemma_collected_submap(pairs, answers);
    crate::ordered::lemma_collected(pairs);
    assert forall|p: RpcNodeProvider| #[trigger]
        report.contains_key(p) <==> voters.contains(p) by {
        if voters.contains(p) {
            let b = choose|b: int| 0 <= b < cast.len() && (#[trigger] cast[b]).0 == p;
            assert(pairs[b].0 == p);
        }
        if report.contains_key(p) {
            let b = choose|b: int| 0 <= b < pairs.len() && (#[trigger] pairs[b]).0 == p;
            assert(cast[b].0 == p);
        }
    }
}

/// How many keys there are.
spec fn number_of<K>(keys: Seq<K>) -> int {
    keys.len() as int
}

/// Whether each vote was found equal to the vote before it for the same key.
spec fn all_agree<T: PartialEq, K: Ord>(votes: Seq<(RpcNodeProvider, T)>, keys: Seq<K>) -> bool {
    crate::majority::agreeing(votes, keys, number_of(keys))
}

/// Votes that agree: neighbouring providers with the same key gave values that do not differ.
proof fn lemma_neighbours<T: PartialEq, K: Ord>(
    values: Map<RpcNodeProvider, T>,
    keys: Seq<K>,
    n: int,
    p: RpcNodeProvider,
    q: RpcNodeProvider,
)
    requires
        values.dom().finite(),
        keys.len() <= values.len(),
        0 <= n <= keys.len(),
        crate::majority::agreeing(crate::ordered::entries(values), keys, n),
        ({
            let votes = crate::ordered::entries(values);
            let key_of = keyed(votes, keys);
            &&& key_of.contains_key(p)
            &&& key_of.contains_key(q)
            &&& p < q
            &&& n < keys.len() ==> q < votes[n].0
            &&& key_of[p].cmp_spec(&key_of[q]) is Equal
            &&& forall|o: RpcNodeProvider|
                p < o < q && #[trigger] key_of.contains_key(o) ==> !(key_of[o].cmp_spec(&key_of[q])
                    is Equal)
        }),
    ensures
        call_ensures(T::ne, (&values[q], &values[p]), false),
{
    let votes = crate::ordered::entries(values);
    let key_of = keyed(votes, keys);
    crate::ordered::lemma_entries(values);
    lemma_keyed(values, keys);
    let j = choose|j: int| 0 <= j < keys.len() && (#[trigger] votes[j]).0 == p;
    let i = choose|i: int| 0 <= i < keys.len() && (#[trigger] votes[i]).0 == q;
    assert(key_of[votes[j].0] == keys[j] && key_of[votes[i].0] == keys[i]);
    assert(j < i) by {
        if i < j {
            assert(votes[i].0 < votes[j].0);
        }
    }
    assert(i < n) by {
        if n < i {
            assert(votes[n].0 < votes[i].0);
        }
    }
    assert forall|k: int| j < k < i implies !crate::key::same_key(#[trigger] keys[k], keys[i]) by {
        assert(votes[j].0 < votes[k].0 && votes[k].0 < votes[i].0);
        assert(key_of.contains_key(votes[k].0) && key_of[votes[k].0] == keys[k]);
    }
    assert(crate::majority::precedes(keys, j, i));
    assert(values[votes[i].0] == votes[i].1 && values[votes[j].0] == votes[j].1);
}

/// A vote that was won: by whom.
proof fn lemma_won<T: PartialEq, K: Ord>(
    values: Map<RpcNodeProvider, T>,
    keys: Seq<K>,
    value: T,
) -> (winner: RpcNodeProvider)
    requires
        vstd::laws_cmp::obeys_cmp::<K>(),
        values.dom().finite(),
        keys.len() <= values.len(),
        crate::majority::reduced_by_majority(crate::ordered::entries(values), keys, Ok(value)),
    ensures
        ({
            let key_of = keyed(crate::ordered::entries(values), keys);
            &&& key_of.dom() == values.dom()
            &&& values.contains_key(winner)
            &&& value == values[winner]
            &&& forall|p: RpcNodeProvider| #[trigger]
                values.contains_key(p) ==> if key_of[p].cmp_spec(&key_of[winner]) is Equal {
                    p <= winner
                } else {
                    values.dom().filter(
                        |q: RpcNodeProvider| key_of[q].cmp_spec(&key_of[winner]) is Equal,
                    ).len() > values.dom().filter(
                        |q: RpcNodeProvider| key_of[q].cmp_spec(&key_of[p]) is Equal,
                    ).len()
                }
            &&& all_agree(crate::ordered::entries(values), keys)
            &&& keys.len() == values.len()
        }),
{
    let votes = crate::ordered::entries(values);
    let key_of = keyed(votes, keys);
    crate::ordered::lemma_entries(values);
    lemma_keyed(values, keys);
    let r = Ok::<T, MultiCallErrorView<T>>(value);
    let top = choose|top: int| crate::majority::decided(votes, keys, top, r);
    assert(crate::majority::decided(votes, keys, top, r));
    let winner = votes[top].0;
    assert(values.contains_key(votes[top].0));
    assert(key_of[votes[top].0] == keys[top]);
    assert forall|p: RpcNodeProvider| #[trigger] values.contains_key(p) implies if key_of[
    p].cmp_spec(&key_of[winner]) is Equal {
        p <= winner
    } else {
        values.dom().filter(
            |q: RpcNodeProvider| key_of[q].cmp_spec(&key_of[winner]) is Equal,
        ).len() > values.dom().filter(
            |q: RpcNodeProvider| key_of[q].cmp_spec(&key_of[p]) is Equal,
        ).len()
    } by {
        assert(votes.contains((p, values[p])));
        let i = choose|i: int| 0 <= i < votes.len() && votes[i] == (p, values[p]);
        assert(key_of[votes[i].0] == keys[i]);
        if crate::key::same_key(keys[i], keys[top]) {
            if i < top {
                assert(votes[i].0 < votes[top].0);
            }
        } else {
            lemma_voters(values, keys, keys[i]);
            lemma_voters(values, keys, keys[top]);
        }
    }
    winner
}

/// A vote that ended with a clash: the provider that it ended with, and the one before it with the
/// same key.
proof fn lemma_clashed<T: PartialEq, K: Ord>(
    values: Map<RpcNodeProvider, T>,
    keys: Seq<K>,
    report: Map<RpcNodeProvider, Result<T, RpcError>>,
) -> (found: (RpcNodeProvider, RpcNodeProvider))
    requires
        vstd::laws_cmp::obeys_cmp::<K>(),
        values.dom().finite(),
        keys.len() <= values.len(),
        crate::majority::clashing(crate::ordered::entries(values), keys),
        crate::majority::contradiction(
            crate::majority::ballot(crate::ordered::entries(values), keys, keys.last()),
        ) == MultiCallErrorView::InconsistentResults(report),
    ensures
        ({
            let key_of = keyed(crate::ordered::entries(values), keys);
            let (last, other) = found;
            &&& values.contains_key(last)
            &&& values.contains_key(other)
            &&& other < last
            &&& forall|p: RpcNodeProvider| #[trigger]
                key_of.contains_key(p) <==> values.contains_key(p) && p <= last
            &&& key_of[other].cmp_spec(&key_of[last]) is Equal
            &&& forall|p: RpcNodeProvider|
                other < p < last && #[trigger] values.contains_key(p) ==> !(key_of[p].cmp_spec(
                    &key_of[last],
                ) is Equal)
            &&& call_ensures(T::ne, (&values[last], &values[other]), true)
            &&& forall|p: RpcNodeProvider| #[trigger]
                report.contains_key(p) <==> values.contains_key(p) && p <= last
                    && key_of[p].cmp_spec(&key_of[last]) is Equal
            &&& forall|p: RpcNodeProvider| #[trigger]
                report.contains_key(p) ==> report[p] == Ok::<T, RpcError>(values[p])
            &&& keys.len() > 0
            &&& last == crate::ordered::entries(values)[keys.len() - 1].0
        }),
{
    let votes = crate::ordered::entries(values);
    let key_of = keyed(votes, keys);
    crate::ordered::lemma_entries(values);
    lemma_keyed(values, keys);
    let n = keys.len() - 1;
    let j = choose|j: int| #[trigger]
        crate::majority::precedes(keys, j, n) && call_ensures(
            T::ne,
            (&votes[n].1, &votes[j].1),
            true,
        );
    assert(crate::majority::precedes(keys, j, n));
    let last = votes[n].0;
    let other = votes[j].0;
    assert(values.contains_key(votes[n].0) && values.contains_key(votes[j].0));
    assert(key_of[votes[n].0] == keys[n] && key_of[votes[j].0] == keys[j]);
    assert(votes[j].0 < votes[n].0);
    assert forall|p: RpcNodeProvider| #[trigger]
        key_of.contains_key(p) <==> values.contains_key(p) && p <= last by {
        if key_of.contains_key(p) {
            let i = choose|i: int| 0 <= i < keys.len() && (#[trigger] votes[i]).0 == p;
            assert(values.contains_key(votes[i].0));
            if i < n {
                assert(votes[i].0 < votes[n].0);
            }
        }
        if values.contains_key(p) && p <= last {
            assert(votes.contains((p, values[p])));
            let i = choose|i: int| 0 <= i < votes.len() && votes[i] == (p, values[p]);
            if n < i {
                assert(votes[n].0 < votes[i].0);
            }
            assert(key_of.contains_key(votes[i].0));
        }
    }
    assert forall|p: RpcNodeProvider| other < p < last && #[trigger]
        values.contains_key(p) implies !(key_of[p].cmp_spec(&key_of[last]) is Equal) by {
        assert(key_of.contains_key(p));
        let i = choose|i: int| 0 <= i < keys.len() && (#[trigger] votes[i]).0 == p;
        assert(key_of[votes[i].0] == keys[i]);
        if i < j {
            assert(votes[i].0 < votes[j].0);
        }
        assert(j < i < n);
        assert(!crate::key::same_key(keys[i], keys[n]));
    }
    lemma_voters(values, keys, keys[n]);
    let voters = key_of.dom().filter(|q: RpcNodeProvider| key_of[q].cmp_spec(&keys[n]) is Equal);
    lemma_reported(values, crate::majority::ballot(votes, keys, keys[n]), voters, report);
    assert forall|p: RpcNodeProvider| #[trigger]
        report.contains_key(p) <==> values.contains_key(p) && p <= last && key_of[p].cmp_spec(
            &key_of[last],
        ) is Equal by {
        assert(report.contains_key(p) <==> voters.contains(p));
        assert(key_of.contains_key(p) <==> values.contains_key(p) && p <= last);
    }
    (last, other)
}

/// A vote without a winner: a voter for each of the two keys that are reported.
proof fn lemma_tied<T: PartialEq, K: Ord>(
    values: Map<RpcNodeProvider, T>,
    keys: Seq<K>,
    report: Map<RpcNodeProvider, Result<T, RpcError>>,
) -> (found: (RpcNodeProvider, RpcNodeProvider))
    requires
        vstd::laws_cmp::obeys_cmp::<K>(),
        values.dom().finite(),
        keys.len() == values.len(),
        crate::majority::tallied(
            crate::ordered::entries(values),
            keys,
            Err(MultiCallErrorView::InconsistentResults(report)),
        ),
    ensures
        ({
            let key_of = keyed(crate::ordered::entries(values), keys);
            let count = |p: RpcNodeProvider|
                values.dom().filter(
                    |q: RpcNodeProvider| key_of[q].cmp_spec(&key_of[p]) is Equal,
                ).len();
            let (a, b) = found;
            &&& key_of.dom() == values.dom()
            &&& values.contains_key(a)
            &&& values.contains_key(b)
            &&& key_of[b].cmp_spec(&key_of[a]) is Less
            &&& count(a) == count(b)
            &&& forall|p: RpcNodeProvider| #[trigger]
                values.contains_key(p) && !(key_of[p].cmp_spec(&key_of[a]) is Equal)
                    && !(key_of[p].cmp_spec(&key_of[b]) is Equal) ==> count(p) < count(b) || (
                count(p) == count(b) && key_of[p].cmp_spec(&key_of[b]) is Less)
            &&& forall|p: RpcNodeProvider| #[trigger]
                report.contains_key(p) <==> values.contains_key(p) && (key_of[p].cmp_spec(
                    &key_of[a],
                ) is Equal || key_of[p].cmp_spec(&key_of[b]) is Equal)
            &&& forall|p: RpcNodeProvider| #[trigger]
                report.contains_key(p) ==> report[p] == Ok::<T, RpcError>(values[p])
        }),
{
    let votes = crate::ordered::entries(values);
    let key_of = keyed(votes, keys);
    let count = |p: RpcNodeProvider|
        values.dom().filter(|q: RpcNodeProvider| key_of[q].cmp_spec(&key_of[p]) is Equal).len();
    crate::ordered::lemma_entries(values);
    lemma_keyed(values, keys);
    let r = Err::<T, MultiCallErrorView<T>>(MultiCallErrorView::InconsistentResults(report));
    let top = choose|top: int| crate::majority::decided(votes, keys, top, r);
    assert(crate::majority::decided(votes, keys, top, r));
    let second = choose|second: int| crate::majority::contested(votes, keys, top, second, r);
    assert(crate::majority::contested(votes, keys, top, second, r));
    let a = votes[top].0;
    let b = votes[second].0;
    assert(values.contains_key(votes[top].0) && values.contains_key(votes[second].0));
    assert(key_of[votes[top].0] == keys[top] && key_of[votes[second].0] == keys[second]);
    let a_cast = crate::majority::ballot(votes, keys, keys[top]);
    let b_cast = crate::majority::ballot(votes, keys, keys[second]);
    lemma_voters(values, keys, keys[top]);
    lemma_voters(values, keys, keys[second]);
    assert(count(a) == a_cast.len() && count(b) == b_cast.len());
    assert(crate::majority::outranks(votes, keys, keys[top], keys[second]));
    let i = choose|i: int|
        0 <= i < keys.len() && !crate::key::same_key(#[trigger] keys[i], keys[top])
            && a_cast.len() <= crate::majority::ballot(votes, keys, keys[i]).len();
    assert(crate::majority::outranks(votes, keys, keys[top], keys[i]));
    if crate::key::same_key(keys[i], keys[second]) {
        crate::majority::lemma_ballot_of_same_key(votes, keys, keys[i], keys[second]);
    } else {
        assert(crate::majority::outranks(votes, keys, keys[second], keys[i]));
    }
    assert(count(a) == count(b));
    assert forall|p: RpcNodeProvider| #[trigger]
        values.contains_key(p) && !(key_of[p].cmp_spec(&key_of[a]) is Equal)
            && !(key_of[p].cmp_spec(&key_of[b]) is Equal) implies count(p) < count(b) || (count(p)
        == count(b) && key_of[p].cmp_spec(&key_of[b]) is Less) by {
        assert(votes.contains((p, values[p])));
        let k = choose|k: int| 0 <= k < votes.len() && votes[k] == (p, values[p]);
        assert(key_of[votes[k].0] == keys[k]);
        lemma_voters(values, keys, keys[k]);
        assert(!crate::key::same_key(keys[k], keys[top]));
        assert(crate::majority::outranks(votes, keys, keys[second], keys[k]));
    }
    let cast = a_cast + b_cast;
    let a_voters = key_of.dom().filter(
        |q: RpcNodeProvider| key_of[q].cmp_spec(&keys[top]) is Equal,
    );
    let b_voters = key_of.dom().filter(
        |q: RpcNodeProvider| key_of[q].cmp_spec(&keys[second]) is Equal,
    );
    let voters = a_voters + b_voters;
    assert forall|p: RpcNodeProvider| #[trigger]
        voters.contains(p) <==> exists|k: int|
            0 <= k < cast.len() && (#[trigger] cast[k]).0 == p by {
        if a_voters.contains(p) {
            let k = choose|k: int| 0 <= k < a_cast.len() && (#[trigger] a_cast[k]).0 == p;
            assert(cast[k].0 == p);
        }
        if b_voters.contains(p) {
            let k = choose|k: int| 0 <= k < b_cast.len() && (#[trigger] b_cast[k]).0 == p;
            assert(cast[a_cast.len() + k].0 == p);
        }
        if exists|k: int| 0 <= k < cast.len() && (#[trigger] cast[k]).0 == p {
            let k = choose|k: int| 0 <= k < cast.len() && (#[trigger] cast[k]).0 == p;
            if k < a_cast.len() {
                assert(a_cast[k].0 == p);
                assert(a_voters.contains(p));
            } else {
                assert(b_cast[k - a_cast.len()].0 == p);
                assert(b_voters.contains(p));
            }
        }
    }
    assert forall|k: int| 0 <= k < cast.len() implies values.contains_key((#[trigger] cast[k]).0)
        && values[cast[k].0] == cast[k].1 by {
        if k < a_cast.len() {
            assert(cast[k] == a_cast[k]);
        } else {
            assert(cast[k] == b_cast[k - a_cast.len()]);
        }
    }
    lemma_reported(values, cast, voters, report);
    (a, b)
}

/// Reducing by strict majority. Errors come first, as they are found when answers are checked for
/// them. Otherwise the extractor gives keys for the values, in increasing order of provider, and
/// one of three things comes out:
/// * A value: neighbouring values with the same key do not differ, strictly more providers have the
///   key of the winner than any other key, and the winner is the highest of them.
/// * A report of a clash: the value of a provider differs from the one before it with the same key,
///   none before it does, and the report holds the values with that key up to there.
/// * A report of a tie: neighbouring values with the same key do not differ, two keys have as many
///   providers as each other and no key has more; of the keys that have as many, they are the two
///   greatest; the report holds the values with these keys.
/// Returns the keys, and the winner, or the two providers that clashed, later one first, or a
/// provider for each of the two keys that tied, that with the greater key first.
#[verifier::rlimit(40)]
pub proof fn law_reduce_with_strict_majority_by_key<T: PartialEq, F: Fn(&T) -> K, K: Ord>(
    results: MultiCallResults<T>,
    extractor: F,
    checked: Result<BTreeMap<RpcNodeProvider, T>, MultiCallError<T>>,
    r: Result<T, MultiCallError<T>>,
) -> (found: (Map<RpcNodeProvider, K>, RpcNodeProvider, RpcNodeProvider))
    requires
        vstd::laws_cmp::obeys_cmp::<K>(),
        call_ensures(MultiCallResults::<T>::all_ok, (results,), checked),
        call_ensures(
            MultiCallResults::<T>::reduce_with_strict_majority_by_key::<F, K>,
            (results, extractor),
            r,
        ),
    ensures
        match (checked, r) {
            (
                Err(MultiCallError::ConsistentError(x)),
                Err(MultiCallError::ConsistentError(y)),
            ) => x == y,
            (
                Err(MultiCallError::InconsistentResults(x)),
                Err(MultiCallError::InconsistentResults(y)),
            ) => x.results@ == y.results@,
            (Ok(values), Ok(value)) => {
                let (key_of, winner, _) = found;
                let count = |p: RpcNodeProvider|
                    values@.dom().filter(
                        |q: RpcNodeProvider| key_of[q].cmp_spec(&key_of[p]) is Equal,
                    ).len();
                &&& values@.contains_key(winner)
                &&& value == values@[winner]
                &&& forall|p: RpcNodeProvider| #[trigger]
                    values@.contains_key(p) ==> {
                        &&& call_ensures(extractor, (&values@[p],), key_of[p])
                        &&& if key_of[p].cmp_spec(&key_of[winner]) is Equal {
                            p <= winner
                        } else {
                            count(winner) > count(p)
                        }
                    }
                &&& forall|p: RpcNodeProvider, q: RpcNodeProvider|
                    #![trigger values@.contains_key(p), values@.contains_key(q)]
                    values@.contains_key(p) && values@.contains_key(q) && p < q
                        && key_of[p].cmp_spec(&key_of[q]) is Equal && (forall|o: RpcNodeProvider|
                        p < o < q && #[trigger] values@.contains_key(o) ==> !(key_of[o].cmp_spec(
                            &key_of[q],
                        ) is Equal)) ==> call_ensures(T::ne, (&values@[q], &values@[p]), false)
            },
            (Ok(values), Err(MultiCallError::InconsistentResults(report))) => {
                let (key_of, a, b) = found;
                let count = |p: RpcNodeProvider|
                    values@.dom().filter(
                        |q: RpcNodeProvider| key_of[q].cmp_spec(&key_of[p]) is Equal,
                    ).len();
                &&& values@.contains_key(a)
                &&& values@.contains_key(b)
                &&& forall|p: RpcNodeProvider| #[trigger]
                    report.results@.contains_key(p) ==> report.results@[p] == Ok::<T, RpcError>(
                        values@[p],
                    )
                &&& {
                    ||| {
                        &&& b < a
                        &&& forall|p: RpcNodeProvider| #[trigger]
                            values@.contains_key(p) && p <= a ==> call_ensures(
                                extractor,
                                (&values@[p],),
                                key_of[p],
                            )
                        &&& key_of[b].cmp_spec(&key_of[a]) is Equal
                        &&& forall|p: RpcNodeProvider|
                            b < p < a && #[trigger] values@.contains_key(p) ==> !(
                            key_of[p].cmp_spec(&key_of[a]) is Equal)
                        &&& call_ensures(T::ne, (&values@[a], &values@[b]), true)
                        &&& forall|p: RpcNodeProvider, q: RpcNodeProvider|
                            #![trigger values@.contains_key(p), values@.contains_key(q)]
                            values@.contains_key(p) && values@.contains_key(q) && p < q < a
                                && key_of[p].cmp_spec(&key_of[q]) is Equal && (forall|
                                o: RpcNodeProvider,
                            |
                                p < o < q && #[trigger] values@.contains_key(o) ==> !(
                                key_of[o].cmp_spec(&key_of[q]) is Equal)) ==> call_ensures(
                                T::ne,
                                (&values@[q], &values@[p]),
                                false,
                            )
                        &&& forall|p: RpcNodeProvider| #[trigger]
                            report.results@.contains_key(p) <==> values@.contains_key(p) && p <= a
                                && key_of[p].cmp_spec(&key_of[a]) is Equal
                    }
                    ||| {
                        &&& forall|p: RpcNodeProvider| #[trigger]
                            values@.contains_key(p) ==> call_ensures(
                                extractor,
                                (&values@[p],),
                                key_of[p],
                            )
                        &&& key_of[b].cmp_spec(&key_of[a]) is Less
                        &&& count(a) == count(b)
                        &&& forall|p: RpcNodeProvider| #[trigger]
                            values@.contains_key(p) && !(key_of[p].cmp_spec(&key_of[a]) is Equal)
                                && !(key_of[p].cmp_spec(&key_of[b]) is Equal) ==> count(p) < count(
                                b,
                            ) || (count(p) == count(b) && key_of[p].cmp_spec(&key_of[b]) is Less)
                        &&& forall|p: RpcNodeProvider, q: RpcNodeProvider|
                            #![trigger values@.contains_key(p), values@.contains_key(q)]
                            values@.contains_key(p) && values@.contains_key(q) && p < q
                                && key_of[p].cmp_spec(&key_of[q]) is Equal && (forall|
                                o: RpcNodeProvider,
                            |
                                p < o < q && #[trigger] values@.contains_key(o) ==> !(
                                key_of[o].cmp_spec(&key_of[q]) is Equal)) ==> call_ensures(
                                T::ne,
                                (&values@[q], &values@[p]),
                                false,
                            )
                        &&& forall|p: RpcNodeProvider| #[trigger]
                            report.results@.contains_key(p) <==> values@.contains_key(p) && (
                            key_of[p].cmp_spec(&key_of[a]) is Equal || key_of[p].cmp_spec(
                                &key_of[b],
                            ) is Equal)
                    }
                }
            },
            _ => false,
        },
{
    if checked is Ok {
        let values = checked->Ok_0@;
        let votes = crate::ordered::entries(values);
        lemma_same_providers(results.results@, values);
        crate::ordered::lemma_entries(values);
        let verdict = crate::multi_call::verdict(r);
        let keys = choose|keys: Seq<K>| #[trigger]
            crate::multi_call::extracted(extractor, votes, keys)
                && crate::majority::reduced_by_majority(votes, keys, verdict);
        lemma_keyed(values, keys);
        let key_of = keyed(votes, keys);
        assert forall|p: RpcNodeProvider| #[trigger] key_of.contains_key(p) implies call_ensures(
            extractor,
            (&values[p],),
            key_of[p],
        ) by {
            let i = choose|i: int| 0 <= i < keys.len() && (#[trigger] votes[i]).0 == p;
            assert(values[votes[i].0] == votes[i].1);
            assert(call_ensures(extractor, (&votes[i].1,), keys[i]));
        }
        match verdict {
            Ok(value) => {
                let winner = lemma_won(values, keys, value);
                lemma_all_neighbours(values, keys);
                (key_of, winner, winner)
            },
            Err(MultiCallErrorView::InconsistentResults(report)) => {
                if crate::majority::clashing(votes, keys) && crate::majority::contradiction(
                    crate::majority::ballot(votes, keys, keys.last()),
                ) == MultiCallErrorView::InconsistentResults(report) {
                    let (last, other) = lemma_clashed(values, keys, report);
                    lemma_neighbours_before(values, keys);
                    (key_of, last, other)
                } else {
                    let (a, b) = lemma_tied(values, keys, report);
                    lemma_all_neighbours(values, keys);
                    (key_of, a, b)
                }
            },
            Err(MultiCallErrorView::ConsistentError(_)) => (key_of, 0, 0),
        }
    } else {
        arbitrary()
    }
}

/// Votes that all agree: no two neighbours with the same key differ.
proof fn lemma_all_neighbours<T: PartialEq, K: Ord>(
    values: Map<RpcNodeProvider, T>,
    keys: Seq<K>,
)
    requires
        values.dom().finite(),
        keys.len() == values.len(),
        all_agree(crate::ordered::entries(values), keys),
    ensures
        ({
            let key_of = keyed(crate::ordered::entries(values), keys);
            forall|p: RpcNodeProvider, q: RpcNodeProvider|
                #![trigger values.contains_key(p), values.contains_key(q)]
                values.contains_key(p) && values.contains_key(q) && p < q && key_of[p].cmp_spec(
                    &key_of[q],
                ) is Equal && (forall|o: RpcNodeProvider|
                    p < o < q && #[trigger] values.contains_key(o) ==> !(key_of[o].cmp_spec(
                        &key_of[q],
                    ) is Equal)) ==> call_ensures(T::ne, (&values[q], &values[p]), false)
        }),
{
    let votes = crate::ordered::entries(values);
    let key_of = keyed(votes, keys);
    lemma_keyed(values, keys);
    assert forall|p: RpcNodeProvider, q: RpcNodeProvider|
        #![trigger values.contains_key(p), values.contains_key(q)]
        values.contains_key(p) && values.contains_key(q) && p < q && key_of[p].cmp_spec(
            &key_of[q],
        ) is Equal && (forall|o: RpcNodeProvider|
            p < o < q && #[trigger] values.contains_key(o) ==> !(key_of[o].cmp_spec(&key_of[q])
                is Equal)) implies call_ensures(T::ne, (&values[q], &values[p]), false) by {
        assert(key_of.contains_key(p) && key_of.contains_key(q));
        assert forall|o: RpcNodeProvider|
            p < o < q && #[trigger] key_of.contains_key(o) implies !(key_of[o].cmp_spec(&key_of[q])
            is Equal) by {
            assert(values.contains_key(o));
        }
        lemma_neighbours(values, keys, number_of(keys), p, q);
    }
}

/// Votes that ended with a clash: before it, no two neighbours with the same key differ.
proof fn lemma_neighbours_before<T: PartialEq, K: Ord>(
    values: Map<RpcNodeProvider, T>,
    keys: Seq<K>,
)
    requires
        values.dom().finite(),
        0 < keys.len() <= values.len(),
        crate::majority::agreeing(crate::ordered::entries(values), keys, keys.len() - 1),
    ensures
        ({
            let key_of = keyed(crate::ordered::entries(values), keys);
            let last = crate::ordered::entries(values)[keys.len() - 1].0;
            forall|p: RpcNodeProvider, q: RpcNodeProvider|
                #![trigger values.contains_key(p), values.contains_key(q)]
                values.contains_key(p) && values.contains_key(q) && p < q < last
                    && key_of[p].cmp_spec(&key_of[q]) is Equal && (forall|o: RpcNodeProvider|
                    p < o < q && #[trigger] values.contains_key(o) ==> !(key_of[o].cmp_spec(
                        &key_of[q],
                    ) is Equal)) ==> call_ensures(T::ne, (&values[q], &values[p]), false)
        }),
{
    let votes = crate::ordered::entries(values);
    let key_of = keyed(votes, keys);
    let n = keys.len() - 1;
    let last = votes[n].0;
    crate::ordered::lemma_entries(values);
    lemma_keyed(values, keys);
    assert forall|p: RpcNodeProvider| #[trigger] values.contains_key(p) && p <= last implies
        key_of.contains_key(p) by {
        assert(votes.contains((p, values[p])));
        let i = choose|i: int| 0 <= i < votes.len() && votes[i] == (p, values[p]);
        if n < i {
            assert(votes[n].0 < votes[i].0);
        }
        assert(key_of.contains_key(votes[i].0));
    }
    assert forall|p: RpcNodeProvider, q: RpcNodeProvider|
        #![trigger values.contains_key(p), values.contains_key(q)]
        values.contains_key(p) && values.contains_key(q) && p < q < last && key_of[p].cmp_spec(
            &key_of[q],
        ) is Equal && (forall|o: RpcNodeProvider|
            p < o < q && #[trigger] values.contains_key(o) ==> !(key_of[o].cmp_spec(&key_of[q])
                is Equal)) implies call_ensures(T::ne, (&values[q], &values[p]), false) by {
        assert forall|o: RpcNodeProvider|
            p < o < q && #[trigger] key_of.contains_key(o) implies !(key_of[o].cmp_spec(&key_of[q])
            is Equal) by {
            assert(values.contains_key(o));
        }
        lemma_neighbours(values, keys, n, p, q);
    }
}

/// A key that strictly more providers have than any other key wins, where the extractor gives one
/// key for each value and values with the same key are equal; the outcome is the value of the
/// highest provider with that key.
pub proof fn law_strict_majority_wins<T: PartialEq, F: Fn(&T) -> K, K: Ord>(
    results: MultiCallResults<T>,
    extractor: F,
    values: BTreeMap<RpcNodeProvider, T>,
    key_of: Map<RpcNodeProvider, K>,
    winner: RpcNodeProvider,
    r: Result<T, MultiCallError<T>>,
)
    requires
        vstd::laws_cmp::obeys_cmp::<K>(),
        T::obeys_eq_spec(),
        call_ensures(
            MultiCallResults::<T>::all_ok,
            (results,),
            Ok::<BTreeMap<RpcNodeProvider, T>, MultiCallError<T>>(values),
        ),
        call_ensures(
            MultiCallResults::<T>::reduce_with_strict_majority_by_key::<F, K>,
            (results, extractor),
            r,
        ),
        forall|p: RpcNodeProvider, k: K|
            values@.contains_key(p) && #[trigger] call_ensures(extractor, (&values@[p],), k) ==> k
                == key_of[p],
        forall|p: RpcNodeProvider, q: RpcNodeProvider|
            #![trigger values@.contains_key(p), values@.contains_key(q)]
            values@.contains_key(p) && values@.contains_key(q) && p != q && key_of[p].cmp_spec(
                &key_of[q],
            ) is Equal ==> values@[p].eq_spec(&values@[q]),
        values@.contains_key(winner),
        forall|p: RpcNodeProvider| #[trigger]
            values@.contains_key(p) ==> if key_of[p].cmp_spec(&key_of[winner]) is Equal {
                p <= winner
            } else {
                values@.dom().filter(
                    |q: RpcNodeProvider| key_of[q].cmp_spec(&key_of[winner]) is Equal,
                ).len() > values@.dom().filter(
                    |q: RpcNodeProvider| key_of[q].cmp_spec(&key_of[p]) is Equal,
                ).len()
            },
    ensures
        r == Ok::<T, MultiCallError<T>>(values@[winner]),
{
    let (found, a, b) = law_reduce_with_strict_majority_by_key(results, extractor, Ok(values), r);
    assert(values@.contains_key(a));
    if r is Err {
        assert(values@.contains_key(b));
        assert(call_ensures(extractor, (&values@[a],), found[a]));
        assert(call_ensures(extractor, (&values@[b],), found[b]));
    }
    if r is Err && call_ensures(T::ne, (&values@[a], &values@[b]), true)
        && found[b].cmp_spec(&found[a]) is Equal {
        crate::key::lemma_key_order(key_of[b], key_of[a], key_of[b]);
        assert(values@[a].eq_spec(&values@[b]));
    } else {
        assert forall|p: RpcNodeProvider| #[trigger] values@.contains_key(p) implies found[p]
            == key_of[p] by {
            assert(call_ensures(extractor, (&values@[p],), found[p]));
        }
        lemma_voters_of_same_key(values@, found, key_of, a, a);
        lemma_voters_of_same_key(values@, found, key_of, b, b);
        lemma_voters_of_same_key(values@, found, key_of, winner, winner);
        lemma_voters_of_same_key(values@, key_of, key_of, a, winner);
        lemma_voters_of_same_key(values@, key_of, key_of, b, winner);
        crate::key::lemma_key_order(key_of[a], key_of[winner], key_of[a]);
        crate::key::lemma_key_order(key_of[winner], key_of[a], key_of[winner]);
        crate::key::lemma_key_order(key_of[b], key_of[winner], key_of[a]);
        crate::key::lemma_key_order(key_of[winner], key_of[b], key_of[winner]);
    }
}

/// As many providers have a key as have an equal one.
proof fn lemma_voters_of_same_key<T, K: Ord>(
    values: Map<RpcNodeProvider, T>,
    k: Map<RpcNodeProvider, K>,
    l: Map<RpcNodeProvider, K>,
    a: RpcNodeProvider,
    b: RpcNodeProvider,
)
    requires
        vstd::laws_cmp::obeys_cmp::<K>(),
        values.contains_key(a) ==> k[a] == l[a],
        forall|p: RpcNodeProvider| #[trigger] values.contains_key(p) ==> k[p] == l[p],
    ensures
        values.contains_key(a) && l[a].cmp_spec(&l[b]) is Equal ==> values.dom().filter(
            |q: RpcNodeProvider| k[q].cmp_spec(&k[a]) is Equal,
        ).len() == values.dom().filter(|q: RpcNodeProvider| l[q].cmp_spec(&l[b]) is Equal).len(),
        a == b ==> l[a].cmp_spec(&l[b]) is Equal,
{
    let left = values.dom().filter(|q: RpcNodeProvider| k[q].cmp_spec(&k[a]) is Equal);
    let right = values.dom().filter(|q: RpcNodeProvider| l[q].cmp_spec(&l[b]) is Equal);
    crate::key::lemma_key_order(l[a], l[a], l[a]);
    if values.contains_key(a) && l[a].cmp_spec(&l[b]) is Equal {
        assert forall|q: RpcNodeProvider| #[trigger] left.contains(q) == right.contains(q) by {
            crate::key::lemma_key_order(l[a], l[b], l[q]);
            crate::key::lemma_key_order(l[q], l[a], l[b]);
            crate::key::lemma_key_order(l[q], l[b], l[a]);
            assert(values.contains_key(q) ==> k[q] == l[q]);
        }
        assert(left =~= right);
    }
}

/// Votes that agree: any two providers with the same key gave equal values.
proof fn lemma_voters_agree<T: PartialEq, K: Ord>(
    values: Map<RpcNodeProvider, T>,
    keys: Seq<K>,
    n: int,
    p: RpcNodeProvider,
    q: RpcNodeProvider,
)
    requires
        vstd::laws_eq::obeys_eq::<T>(),
        vstd::laws_cmp::obeys_cmp::<K>(),
        values.dom().finite(),
        keys.len() <= values.len(),
        0 <= n <= keys.len(),
        crate::majority::agreeing(crate::ordered::entries(values), keys, n),
        ({
            let votes = crate::ordered::entries(values);
            let key_of = keyed(votes, keys);
            &&& key_of.contains_key(p)
            &&& key_of.contains_key(q)
            &&& p < q
            &&& n < keys.len() ==> q < votes[n].0
            &&& key_of[p].cmp_spec(&key_of[q]) is Equal
        }),
    ensures
        values[q].eq_spec(&values[p]),
{
    let votes = crate::ordered::entries(values);
    let key_of = keyed(votes, keys);
    crate::ordered::lemma_entries(values);
    lemma_keyed(values, keys);
    let i = choose|i: int| 0 <= i < keys.len() && (#[trigger] votes[i]).0 == p;
    let j = choose|j: int| 0 <= j < keys.len() && (#[trigger] votes[j]).0 == q;
    assert(key_of[votes[i].0] == keys[i] && key_of[votes[j].0] == keys[j]);
    assert(i < j) by {
        if j < i {
            assert(votes[j].0 < votes[i].0);
        }
    }
    assert(j < n) by {
        if n < j {
            assert(votes[n].0 < votes[j].0);
        }
    }
    crate::laws_reduce::lemma_agreement(votes, keys, n, i, j);
    assert(values[votes[i].0] == votes[i].1 && values[votes[j].0] == votes[j].1);
}

/// How fee histories reduce, told by their oldest blocks. Returns the winner, or the two providers
/// that clashed, later one first, or a provider for each of the two blocks that tied, that with the
/// greater block first.
#[verifier::rlimit(40)]
pub proof fn lemma_fee_histories(
    results: Map<RpcNodeProvider, Result<FeeHistory, RpcError>>,
    values: Map<RpcNodeProvider, FeeHistory>,
    r: Result<FeeHistory, MultiCallErrorView<FeeHistory>>,
) -> (found: (RpcNodeProvider, RpcNodeProvider))
    requires
        results.dom().finite(),
        crate::multi_call::failure(results) is None,
        values == crate::multi_call::ok_values(results),
        crate::client::fee_history_agreed_upon(results, r),
    ensures
        ({
            let (a, b) = found;
            let x = values[a].oldest_block;
            let y = values[b].oldest_block;
            let count = |p: RpcNodeProvider|
                values.dom().filter(
                    |q: RpcNodeProvider| values[q].oldest_block == values[p].oldest_block,
                ).len();
            &&& values.contains_key(a)
            &&& match r {
                Ok(history) => {
                    &&& history == values[a]
                    &&& forall|p: RpcNodeProvider| #[trigger]
                        values.contains_key(p) ==> if values[p].oldest_block == x {
                            p <= a && values[p].eq_spec(&history)
                        } else {
                            count(a) > count(p)
                        }
                },
                Err(MultiCallErrorView::InconsistentResults(report)) => {
                    &&& values.contains_key(b)
                    &&& forall|p: RpcNodeProvider| #[trigger]
                        report.contains_key(p) ==> report[p] == Ok::<FeeHistory, RpcError>(
                            values[p],
                        )
                    &&& {
                        ||| {
                            &&& b < a
                            &&& x == y
                            &&& !values[a].eq_spec(&values[b])
                            &&& forall|p: RpcNodeProvider, q: RpcNodeProvider|
                                #![trigger values.contains_key(p), values.contains_key(q)]
                                values.contains_key(p) && values.contains_key(q) && p < q < a
                                    && values[p].oldest_block == values[q].oldest_block
                                    ==> values[q].eq_spec(&values[p])
                            &&& forall|p: RpcNodeProvider| #[trigger]
                                report.contains_key(p) <==> values.contains_key(p) && p <= a
                                    && values[p].oldest_block == x
                        }
                        ||| {
                            &&& y.high < x.high || (y.high == x.high && y.low < x.low)
                            &&& count(a) == count(b)
                            &&& forall|p: RpcNodeProvider| #[trigger]
                                values.contains_key(p) && values[p].oldest_block != x
                                    && values[p].oldest_block != y ==> {
                                    let z = values[p].oldest_block;
                                    ||| count(p) < count(b)
                                    ||| count(p) == count(b) && (z.high < y.high || (z.high
                                        == y.high && z.low < y.low))
                                }
                            &&& forall|p: RpcNodeProvider, q: RpcNodeProvider|
                                #![trigger values.contains_key(p), values.contains_key(q)]
                                values.contains_key(p) && values.contains_key(q) && p < q
                                    && values[p].oldest_block == values[q].oldest_block
                                    ==> values[q].eq_spec(&values[p])
                            &&& forall|p: RpcNodeProvider| #[trigger]
                                report.contains_key(p) <==> values.contains_key(p) && (
                                values[p].oldest_block == x || values[p].oldest_block == y)
                        }
                    }
                },
                Err(MultiCallErrorView::ConsistentError(_)) => false,
            }
        }),
{
    let votes = crate::ordered::entries(values);
    lemma_same_providers(results, values);
    crate::ordered::lemma_entries(values);
    assert(vstd::laws_eq::obeys_eq::<FeeHistory>()) by {
        reveal(vstd::laws_eq::obeys_eq_spec_properties);
    }
    let blocks = crate::client::oldest_blocks(votes);
    let n = choose|n: int|
        0 <= n <= votes.len() && crate::majority::reduced_by_majority(
            votes,
            #[trigger] blocks.take(n),
            r,
        );
    let keys = blocks.take(n);
    let key_of = keyed(votes, keys);
    lemma_keyed(values, keys);
    assert forall|p: RpcNodeProvider| #[trigger] key_of.contains_key(p) implies key_of[p] == (
        values[p].oldest_block.high,
        values[p].oldest_block.low,
    ) by {
        let i = choose|i: int| 0 <= i < keys.len() && (#[trigger] votes[i]).0 == p;
        assert(values[votes[i].0] == votes[i].1);
        assert(keys[i] == blocks[i]);
    }
    assert forall|p: RpcNodeProvider, q: RpcNodeProvider|
        #![trigger key_of.contains_key(p), key_of.contains_key(q)]
        key_of.contains_key(p) && key_of.contains_key(q) implies (key_of[p].cmp_spec(&key_of[q])
        is Equal <==> values[p].oldest_block == values[q].oldest_block) by {
        crate::laws_reduce::law_halves_order(values[p].oldest_block, values[q].oldest_block);
    }
    assert forall|p: RpcNodeProvider| key_of.dom() == values.dom() && #[trigger]
        values.contains_key(p) implies values.dom().filter(
        |q: RpcNodeProvider| key_of[q].cmp_spec(&key_of[p]) is Equal,
    ) == values.dom().filter(
        |q: RpcNodeProvider| values[q].oldest_block == values[p].oldest_block,
    ) by {
        assert forall|q: RpcNodeProvider| #[trigger] values.contains_key(q) implies (
        key_of[q].cmp_spec(&key_of[p]) is Equal <==> values[q].oldest_block
            == values[p].oldest_block) by {
            assert(key_of.contains_key(p) && key_of.contains_key(q));
        }
        assert(values.dom().filter(|q: RpcNodeProvider| key_of[q].cmp_spec(&key_of[p]) is Equal)
            =~= values.dom().filter(
            |q: RpcNodeProvider| values[q].oldest_block == values[p].oldest_block,
        ));
    }
    match r {
        Ok(history) => {
            let winner = lemma_won(values, keys, history);
            assert(key_of.contains_key(winner));
            assert forall|p: RpcNodeProvider| #[trigger] values.contains_key(p)
                && values[p].oldest_block == values[winner].oldest_block implies p <= winner
                && values[p].eq_spec(&history) by {
                assert(key_of.contains_key(p));
                if p < winner {
                    lemma_voters_agree(values, keys, number_of(keys), p, winner);
                }
            }
            (winner, winner)
        },
        Err(MultiCallErrorView::InconsistentResults(report)) => {
            if crate::majority::clashing(votes, keys) && crate::majority::contradiction(
                crate::majority::ballot(votes, keys, keys.last()),
            ) == MultiCallErrorView::InconsistentResults(report) {
                let (a, b) = lemma_clashed(values, keys, report);
                assert(key_of.contains_key(a) && key_of.contains_key(b));
                assert forall|p: RpcNodeProvider, q: RpcNodeProvider|
                    #![trigger values.contains_key(p), values.contains_key(q)]
                    values.contains_key(p) && values.contains_key(q) && p < q < a
                        && values[p].oldest_block == values[q].oldest_block implies values[
                q].eq_spec(&values[p]) by {
                    assert(key_of.contains_key(p) && key_of.contains_key(q));
                    lemma_voters_agree(values, keys, keys.len() - 1, p, q);
                }
                assert forall|p: RpcNodeProvider| #[trigger]
                    report.contains_key(p) <==> values.contains_key(p) && p <= a
                        && values[p].oldest_block == values[a].oldest_block by {
                    assert(key_of.contains_key(p) <==> values.contains_key(p) && p <= a);
                }
                (a, b)
            } else {
                let (a, b) = lemma_tied(values, keys, report);
                assert(key_of.contains_key(a) && key_of.contains_key(b));
                crate::laws_reduce::law_halves_order(
                    values[b].oldest_block,
                    values[a].oldest_block,
                );
                assert forall|p: RpcNodeProvider, q: RpcNodeProvider|
                    #![trigger values.contains_key(p), values.contains_key(q)]
                    values.contains_key(p) && values.contains_key(q) && p < q
                        && values[p].oldest_block == values[q].oldest_block implies values[
                q].eq_spec(&values[p]) by {
                    assert(key_of.contains_key(p) && key_of.contains_key(q));
                    lemma_voters_agree(values, keys, number_of(keys), p, q);
                }
                assert forall|p: RpcNodeProvider| #[trigger]
                    report.contains_key(p) <==> values.contains_key(p) && (values[p].oldest_block
                        == values[a].oldest_block || values[p].oldest_block
                        == values[b].oldest_block) by {
                    assert(key_of.contains_key(p) <==> values.contains_key(p));
                }
                assert forall|p: RpcNodeProvider| #[trigger]
                    values.contains_key(p) implies key_of.contains_key(p) by {}
                (a, b)
            }
        },
        Err(MultiCallErrorView::ConsistentError(_)) => (0, 0),
    }
}

} // verus!
