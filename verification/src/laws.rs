//! What holds of queries as a whole.

use vstd::prelude::*;

use crate::client::EthRpcClient;
use crate::eth_rpc::{HttpOutcallError, RpcError};
use crate::multi_call::MultiCallErrorView;
use crate::providers::{DefaultProviders, RpcNodeProvider};

verus! {

/// A query in sequence returns the first reply that is an ok result or a JSON-RPC error, and
/// queries no provider after that; if no provider gives one, it queries all of them and returns
/// the error of the last.
pub proof fn law_sequential_call<O>(
    left: Seq<RpcNodeProvider>,
    replies: Seq<Result<O, RpcError>>,
)
    requires
        left.len() > 0,
        replies.len() == left.len(),
    ensures
        forall|k: int|
            0 <= k < replies.len() && crate::client::ends_sequence(#[trigger] replies[k])
                && (forall|i: int|
                0 <= i < k ==> !crate::client::ends_sequence(#[trigger] replies[i]))
                ==> crate::client::sequential_result(left, replies) == (
                replies[k],
                (k + 1) as nat,
            ),
        (forall|i: int|
            0 <= i < replies.len() ==> !crate::client::ends_sequence(#[trigger] replies[i]))
            ==> crate::client::sequential_result(left, replies) == (replies.last(), left.len()),
    decreases left.len(),
{
    if !crate::client::ends_sequence(replies[0]) && left.len() > 1 {
        let rest = replies.drop_first();
        law_sequential_call(left.drop_first(), rest);
        assert forall|k: int|
            0 <= k < replies.len() && crate::client::ends_sequence(#[trigger] replies[k])
                && (forall|i: int|
                0 <= i < k ==> !crate::client::ends_sequence(#[trigger] replies[i])) implies
            crate::client::sequential_result(left, replies) == (replies[k], (k + 1) as nat) by {
            assert(rest[k - 1] == replies[k]);
            assert forall|i: int| 0 <= i < k - 1 implies !crate::client::ends_sequence(
                #[trigger] rest[i],
            ) by {
                assert(rest[i] == replies[i + 1]);
            }
        }
        if forall|i: int|
            0 <= i < replies.len() ==> !crate::client::ends_sequence(#[trigger] replies[i]) {
            assert forall|i: int| 0 <= i < rest.len() implies !crate::client::ends_sequence(
                #[trigger] rest[i],
            ) by {
                assert(rest[i] == replies[i + 1]);
            }
            assert(rest.last() == replies.last());
        }
    }
}

/// A parallel query has an answer of each queried provider and of no other.
pub proof fn law_every_provider_answers<T, O>(
    client: EthRpcClient<T>,
    defaults: DefaultProviders,
    replies: Seq<Result<O, RpcError>>,
)
    requires
        replies.len() == client.queried(defaults).len(),
    ensures
        client.answers(defaults, replies).dom() == client.queried(defaults).to_set(),
{
    let queried = client.queried(defaults);
    let pairs = crate::client::answered(queried, replies);
    crate::ordered::lemma_collected(pairs);
    assert forall|p: RpcNodeProvider|
        client.answers(defaults, replies).dom().contains(p) == queried.to_set().contains(p) by {
        if queried.contains(p) {
            let i = choose|i: int| 0 <= i < queried.len() && queried[i] == p;
            assert(pairs[i].0 == p);
        }
    }
    assert(client.answers(defaults, replies).dom() =~= queried.to_set());
}

/// The answer of a provider is the reply that it gave; where it was queried more than once, the
/// last one.
pub proof fn law_answers_are_the_replies<T, O>(
    client: EthRpcClient<T>,
    defaults: DefaultProviders,
    replies: Seq<Result<O, RpcError>>,
    i: int,
)
    requires
        replies.len() == client.queried(defaults).len(),
        0 <= i < replies.len(),
        forall|j: int|
            i < j < replies.len() ==> #[trigger] client.queried(defaults)[j] != client.queried(
                defaults,
            )[i],
    ensures
        client.answers(defaults, replies).contains_key(client.queried(defaults)[i]),
        client.answers(defaults, replies)[client.queried(defaults)[i]] == replies[i],
{
    let queried = client.queried(defaults);
    let pairs = crate::client::answered(queried, replies);
    assert forall|j: int| i < j < pairs.len() implies (#[trigger] pairs[j]).0 != pairs[i].0 by {
        assert(queried[j] != queried[i]);
    }
    law_collected_keeps_answers(pairs, i);
    assert(pairs[i] == (queried[i], replies[i]));
}

/// Putting together answers keeps the last answer of each provider, in whatever order they came.
pub proof fn law_collected_keeps_answers<V>(pairs: Seq<(RpcNodeProvider, V)>, i: int)
    requires
        0 <= i < pairs.len(),
        forall|j: int| i < j < pairs.len() ==> (#[trigger] pairs[j]).0 != pairs[i].0,
    ensures
        crate::ordered::collected(pairs).contains_key(pairs[i].0),
        crate::ordered::collected(pairs)[pairs[i].0] == pairs[i].1,
    decreases pairs.len(),
{
    if i < pairs.len() - 1 {
        let front = pairs.drop_last();
        assert forall|j: int| i < j < front.len() implies (#[trigger] front[j]).0 != front[i].0 by {
            assert(front[j] == pairs[j]);
        }
        law_collected_keeps_answers(front, i);
        assert(front[i] == pairs[i]);
        assert(pairs[pairs.len() - 1].0 != pairs[i].0);
    }
}

/// Taking answers apart and putting them together again changes nothing.
pub proof fn law_entries_round_trip<V>(m: Map<RpcNodeProvider, V>)
    requires
        m.dom().finite(),
    ensures
        crate::ordered::collected(crate::ordered::entries(m)) == m,
{
    let pairs = crate::ordered::entries(m);
    crate::ordered::lemma_entries(m);
    crate::ordered::lemma_collected(pairs);
    assert forall|p: RpcNodeProvider|
        crate::ordered::collected(pairs).contains_key(p) == #[trigger] m.contains_key(p) && (
        m.contains_key(p) ==> crate::ordered::collected(pairs)[p] == m[p]) by {
        if m.contains_key(p) {
            assert(pairs.contains((p, m[p])));
            let i = choose|i: int| 0 <= i < pairs.len() && pairs[i] == (p, m[p]);
            law_collected_keeps_answers(pairs, i);
        }
        if crate::ordered::collected(pairs).contains_key(p) {
            let i = choose|i: int| 0 <= i < pairs.len() && (#[trigger] pairs[i]).0 == p;
            assert(m.contains_key(pairs[i].0));
        }
    }
    assert(crate::ordered::collected(pairs) =~= m);
}

/// The answers that are errors are those of the map, in increasing order of provider.
proof fn lemma_failed<T>(results: Map<RpcNodeProvider, Result<T, RpcError>>)
    requires
        results.dom().finite(),
    ensures
        forall|i: int|
            0 <= i < crate::multi_call::failed(results).len() ==> {
                let e = #[trigger] crate::multi_call::failed(results)[i];
                results.contains_key(e.0) && results[e.0] == e.1 && e.1 is Err
            },
        forall|p: RpcNodeProvider| #[trigger]
            results.contains_key(p) && results[p] is Err ==> crate::multi_call::failed(
                results,
            ).contains((p, results[p])),
        forall|i: int, j: int|
            0 <= i < j < crate::multi_call::failed(results).len() ==> (
            #[trigger] crate::multi_call::failed(results)[i]).0 < (
            #[trigger] crate::multi_call::failed(results)[j]).0,
{
    let all = crate::ordered::entries(results);
    crate::ordered::lemma_entries(results);
    lemma_filter_of_ascending(all);
    let errors = crate::multi_call::failed(results);
    assert forall|p: RpcNodeProvider| #[trigger]
        results.contains_key(p) && results[p] is Err implies errors.contains((p, results[p])) by {
        assert(all.contains((p, results[p])));
        let i = choose|i: int| 0 <= i < all.len() && all[i] == (p, results[p]);
        assert(errors.contains(all[i]));
    }
    assert forall|i: int| 0 <= i < errors.len() implies {
        let e = #[trigger] errors[i];
        results.contains_key(e.0) && results[e.0] == e.1 && e.1 is Err
    } by {
        let k = choose|k: int| 0 <= k < all.len() && all[k] == errors[i];
        assert(results.contains_key(all[k].0));
    }
}

/// Filtering answers in increasing order of provider keeps that order.
proof fn lemma_filter_of_ascending<T>(all: Seq<(RpcNodeProvider, Result<T, RpcError>)>)
    requires
        forall|i: int, j: int|
            0 <= i < j < all.len() ==> (#[trigger] all[i]).0 < (#[trigger] all[j]).0,
    ensures
        ({
            let errors = all.filter(crate::multi_call::is_failed());
            &&& forall|i: int|
                0 <= i < errors.len() ==> (#[trigger] errors[i]).1 is Err && exists|k: int|
                    0 <= k < all.len() && all[k] == errors[i]
            &&& forall|k: int|
                0 <= k < all.len() && (#[trigger] all[k]).1 is Err ==> errors.contains(all[k])
            &&& forall|i: int, j: int|
                0 <= i < j < errors.len() ==> (#[trigger] errors[i]).0 < (#[trigger] errors[j]).0
        }),
    decreases all.len(),
{
    reveal(Seq::filter);
    if all.len() > 0 {
        let front = all.drop_last();
        assert forall|i: int, j: int| 0 <= i < j < front.len() implies (#[trigger] front[i]).0 < (
        #[trigger] front[j]).0 by {
            assert(front[i] == all[i] && front[j] == all[j]);
        }
        lemma_filter_of_ascending(front);
        let earlier = front.filter(crate::multi_call::is_failed());
        let errors = all.filter(crate::multi_call::is_failed());
        assert forall|i: int| 0 <= i < errors.len() implies (#[trigger] errors[i]).1 is Err
            && exists|k: int| 0 <= k < all.len() && all[k] == errors[i] by {
            if i < earlier.len() {
                assert(errors[i] == earlier[i]);
                let k = choose|k: int| 0 <= k < front.len() && front[k] == earlier[i];
                assert(all[k] == errors[i]);
            } else {
                assert(all[all.len() - 1] == errors[i]);
            }
        }
        assert forall|k: int| 0 <= k < all.len() && (#[trigger] all[k]).1 is Err implies
            errors.contains(all[k]) by {
            if k < front.len() {
                assert(front[k] == all[k]);
                let i = choose|i: int| 0 <= i < earlier.len() && earlier[i] == front[k];
                assert(errors[i] == all[k]);
            } else {
                assert(errors[errors.len() - 1] == all[k]);
            }
        }
        assert forall|i: int, j: int| 0 <= i < j < errors.len() implies (#[trigger] errors[i]).0 < (
        #[trigger] errors[j]).0 by {
            assert(errors[i] == earlier[i]);
            if j < earlier.len() {
                assert(errors[j] == earlier[j]);
            } else {
                let k = choose|k: int| 0 <= k < front.len() && front[k] == earlier[i];
                assert(all[k] == errors[i] && all[all.len() - 1] == errors[j]);
            }
        }
    }
}

/// There is a verdict on the errors if and only if some answer is an error.
pub proof fn law_failure_iff_error<T>(results: Map<RpcNodeProvider, Result<T, RpcError>>)
    requires
        results.dom().finite(),
    ensures
        crate::multi_call::failure(results) is None <==> forall|p: RpcNodeProvider| #[trigger]
            results.contains_key(p) ==> results[p] is Ok,
{
    lemma_failed(results);
    let errors = crate::multi_call::failed(results);
    if errors.len() > 0 {
        assert(results.contains_key(errors[0].0) && results[errors[0].0] is Err);
    } else {
        assert forall|p: RpcNodeProvider| #[trigger]
            results.contains_key(p) implies results[p] is Ok by {
            if results[p] is Err {
                assert(errors.contains((p, results[p])));
            }
        }
    }
}

/// Errors are consistent if and only if all of them say the same; the error that is reported is
/// then that of the lowest provider that failed.
pub proof fn law_consistent_iff_same_error<T>(results: Map<RpcNodeProvider, Result<T, RpcError>>)
    requires
        results.dom().finite(),
        crate::multi_call::failure(results) is Some,
    ensures
        crate::multi_call::failure(results)->0 is ConsistentError <==> forall|
            p: RpcNodeProvider,
            q: RpcNodeProvider,
        |
            #![trigger results.contains_key(p), results.contains_key(q)]
            results.contains_key(p) && results.contains_key(q) && results[p] is Err
                && results[q] is Err ==> results[p]->Err_0@ == results[q]->Err_0@,
        crate::multi_call::failure(results) matches Some(MultiCallErrorView::ConsistentError(e))
            ==> exists|p: RpcNodeProvider| #[trigger]
            results.contains_key(p) && results[p] == Err::<T, RpcError>(e) && forall|
                q: RpcNodeProvider,
            | #[trigger]
                results.contains_key(q) && results[q] is Err ==> p <= q,
{
    lemma_failed(results);
    let errors = crate::multi_call::failed(results);
    if exists|j: int| crate::multi_call::is_first_conflict(errors, j) {
        let j = choose|j: int| crate::multi_call::is_first_conflict(errors, j);
        assert(results.contains_key(errors[0].0) && results.contains_key(errors[j].0));
    } else {
        assert forall|k: int| 0 < k < errors.len() implies errors[0].1->Err_0@ == (
        #[trigger] errors[k]).1->Err_0@ by {
            lemma_no_conflict(errors, k);
        }
        assert forall|p: RpcNodeProvider, q: RpcNodeProvider|
            #![trigger results.contains_key(p), results.contains_key(q)]
            results.contains_key(p) && results.contains_key(q) && results[p] is Err
                && results[q] is Err implies results[p]->Err_0@ == results[q]->Err_0@ by {
            assert(errors.contains((p, results[p])) && errors.contains((q, results[q])));
            let i = choose|i: int| 0 <= i < errors.len() && errors[i] == (p, results[p]);
            let j = choose|j: int| 0 <= j < errors.len() && errors[j] == (q, results[q]);
            assert(errors[0].1->Err_0@ == errors[i].1->Err_0@);
            assert(errors[0].1->Err_0@ == errors[j].1->Err_0@);
        }
        assert(results.contains_key(errors[0].0));
        assert forall|q: RpcNodeProvider| #[trigger]
            results.contains_key(q) && results[q] is Err implies errors[0].0 <= q by {
            assert(errors.contains((q, results[q])));
            let j = choose|j: int| 0 <= j < errors.len() && errors[j] == (q, results[q]);
            if j > 0 {
                assert(errors[0].0 < errors[j].0);
            }
        }
    }
}

/// Where no error is the first to differ from the one at the front, none differs from it.
proof fn lemma_no_conflict<T>(errors: Seq<(RpcNodeProvider, Result<T, RpcError>)>, k: int)
    requires
        !exists|j: int| crate::multi_call::is_first_conflict(errors, j),
        0 < k < errors.len(),
    ensures
        errors[0].1->Err_0@ == errors[k].1->Err_0@,
    decreases k,
{
    assert forall|i: int| 0 < i < k implies errors[0].1->Err_0@ == (
    #[trigger] errors[i]).1->Err_0@ by {
        lemma_no_conflict(errors, i);
    }
    if errors[0].1->Err_0@ != errors[k].1->Err_0@ {
        assert(crate::multi_call::is_first_conflict(errors, k));
    }
}

/// A report of inconsistent errors holds the answers of two providers, as they gave them.
pub proof fn law_error_report<T>(results: Map<RpcNodeProvider, Result<T, RpcError>>)
    requires
        results.dom().finite(),
    ensures
        crate::multi_call::failure(results) matches Some(
            MultiCallErrorView::InconsistentResults(report),
        ) ==> report.submap_of(results) && report.dom().finite() && report.len() == 2,
{
    lemma_failed(results);
    let errors = crate::multi_call::failed(results);
    if exists|j: int| crate::multi_call::is_first_conflict(errors, j) {
        let j = choose|j: int| crate::multi_call::is_first_conflict(errors, j);
        assert(results.contains_key(errors[0].0) && results.contains_key(errors[j].0));
        assert(errors[0].0 < errors[j].0);
        let report = map![errors[0].0 => errors[0].1, errors[j].0 => errors[j].1];
        assert(report.dom() =~= set![errors[0].0, errors[j].0]);
    }
}

/// A report of inconsistent errors holds the error of the lowest provider that failed, and that of
/// the lowest provider that failed otherwise.
pub proof fn law_first_conflict<T>(results: Map<RpcNodeProvider, Result<T, RpcError>>)
    requires
        results.dom().finite(),
    ensures
        crate::multi_call::failure(results) matches Some(
            MultiCallErrorView::InconsistentResults(report),
        ) ==> exists|p: RpcNodeProvider, q: RpcNodeProvider|
            {
                &&& #[trigger] results.contains_key(p)
                &&& #[trigger] results.contains_key(q)
                &&& p < q
                &&& results[p] is Err
                &&& results[q] is Err
                &&& results[p]->Err_0@ != results[q]->Err_0@
                &&& forall|o: RpcNodeProvider| #[trigger]
                    results.contains_key(o) && results[o] is Err ==> p <= o && (o < q
                        ==> results[o]->Err_0@ == results[p]->Err_0@)
                &&& report == map![p => results[p], q => results[q]]
            },
{
    lemma_failed(results);
    let errors = crate::multi_call::failed(results);
    if exists|j: int| crate::multi_call::is_first_conflict(errors, j) {
        let j = choose|j: int| crate::multi_call::is_first_conflict(errors, j);
        let p = errors[0].0;
        let q = errors[j].0;
        assert(results.contains_key(p) && results.contains_key(q));
        assert(p < q);
        assert forall|o: RpcNodeProvider| #[trigger]
            results.contains_key(o) && results[o] is Err implies p <= o && (o < q
            ==> results[o]->Err_0@ == results[p]->Err_0@) by {
            assert(errors.contains((o, results[o])));
            let k = choose|k: int| 0 <= k < errors.len() && errors[k] == (o, results[o]);
            if k > 0 {
                assert(errors[0].0 < errors[k].0);
            }
            if j < k {
                assert(errors[j].0 < errors[k].0);
            }
        }
        assert(map![errors[0].0 => errors[0].1, errors[j].0 => errors[j].1] =~= map![
            p => results[p],
            q => results[q],
        ]);
    }
}

/// The verdict on the errors is made of errors that providers answered with.
pub proof fn law_errors_are_drawn<T>(results: Map<RpcNodeProvider, Result<T, RpcError>>)
    requires
        results.dom().finite(),
    ensures
        crate::multi_call::failure(results) matches Some(e) ==> crate::multi_call::drawn_from(
            results,
            Err(e),
        ),
{
    if crate::multi_call::failure(results) is Some {
        law_error_report(results);
        law_consistent_iff_same_error(results);
    }
}

/// An HTTP outcall error that the verdict on the errors holds is the answer of some provider.
pub proof fn law_http_outcall_errors_are_answers<T>(
    results: Map<RpcNodeProvider, Result<T, RpcError>>,
    http_error: HttpOutcallError,
)
    requires
        results.dom().finite(),
        crate::multi_call::failure(results) is Some,
        crate::multi_call::holds_http_outcall_error(
            crate::multi_call::failure(results)->0,
            http_error,
        ),
    ensures
        exists|p: RpcNodeProvider| #[trigger]
            results.contains_key(p) && results[p] == Err::<T, RpcError>(
                RpcError::HttpOutcallError(http_error),
            ),
{
    law_error_report(results);
    law_consistent_iff_same_error(results);
    match crate::multi_call::failure(results)->0 {
        MultiCallErrorView::ConsistentError(_) => {},
        MultiCallErrorView::InconsistentResults(report) => {
            let p = choose|p: RpcNodeProvider| #[trigger]
                report.contains_key(p) && report[p] == Err::<T, RpcError>(
                    RpcError::HttpOutcallError(http_error),
                );
            assert(results.contains_key(p));
        },
    }
}

} // verus!
