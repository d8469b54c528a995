//! The answers of several providers to one query, and what they amount to.

use std::collections::BTreeMap;

use vstd::prelude::*;

use crate::eth_rpc::{are_errors_consistent, HttpOutcallError, JsonRpcError, RpcError};
use crate::key::{key_order, KeyOrder};
use crate::ordered::{from_pairs, into_entries, ordered_providers};
use crate::providers::RpcNodeProvider;

verus! {

broadcast use vstd::laws_cmp::group_laws_cmp;

/// Aggregates responses of different providers to the same query.
/// Guaranteed to be non-empty.
#[derive(Clone, Debug, PartialEq, Eq)]
pub struct MultiCallResults<T> {
    pub results: BTreeMap<RpcNodeProvider, Result<T, RpcError>>,
}

impl<T> View for MultiCallResults<T> {
    type V = Map<RpcNodeProvider, Result<T, RpcError>>;

    open spec fn view(&self) -> Map<RpcNodeProvider, Result<T, RpcError>> {
        self.results@
    }
}

/// How a call to one provider can fail, as callers see it.
#[derive(Clone, Debug, PartialEq, Eq)]
pub enum SingleCallError {
    HttpOutcallError(HttpOutcallError),
    JsonRpcError { code: i64, message: String },
}

/// Why the answers of several providers do not amount to one answer.
#[derive(Clone, Debug, PartialEq, Eq)]
pub enum MultiCallError<T> {
    /// Every provider that failed did so with this error.
    ConsistentError(RpcError),
    /// These answers contradict one another.
    InconsistentResults(MultiCallResults<T>),
}

/// What a `MultiCallError` says.
#[verifier::ext_equal]
pub enum MultiCallErrorView<T> {
    ConsistentError(RpcError),
    InconsistentResults(Map<RpcNodeProvider, Result<T, RpcError>>),
}

impl<T> View for MultiCallError<T> {
    type V = MultiCallErrorView<T>;

    open spec fn view(&self) -> MultiCallErrorView<T> {
        match *self {
            MultiCallError::ConsistentError(e) => MultiCallErrorView::ConsistentError(e),
            MultiCallError::InconsistentResults(r) => MultiCallErrorView::InconsistentResults(r@),
        }
    }
}

/// Whether an answer of a provider is an error.
pub open spec fn is_failed<T>() -> spec_fn((RpcNodeProvider, Result<T, RpcError>)) -> bool {
    |e: (RpcNodeProvider, Result<T, RpcError>)| e.1 is Err
}

/// The answers that are errors, in increasing order of provider.
pub open spec fn failed<T>(results: Map<RpcNodeProvider, Result<T, RpcError>>) -> Seq<
    (RpcNodeProvider, Result<T, RpcError>),
> {
    crate::ordered::entries(results).filter(is_failed())
}

/// Whether the error at `j` is the first one that differs from the error at the front.
pub open spec fn is_first_conflict<T>(
    errors: Seq<(RpcNodeProvider, Result<T, RpcError>)>,
    j: int,
) -> bool {
    &&& 0 < j < errors.len()
    &&& errors[0].1->Err_0@ != errors[j].1->Err_0@
    &&& forall|k: int| 0 < k < j ==> errors[0].1->Err_0@ == (#[trigger] errors[k]).1->Err_0@
}

/// The verdict on the answers that are errors: none where there are none; the error itself where
/// all are the same error; otherwise the first error with the first one that differs from it.
pub open spec fn failure<T>(results: Map<RpcNodeProvider, Result<T, RpcError>>) -> Option<
    MultiCallErrorView<T>,
> {
    let errors = failed(results);
    if errors.len() == 0 {
        None
    } else if exists|j: int| is_first_conflict(errors, j) {
        let j = choose|j: int| is_first_conflict(errors, j);
        Some(
            MultiCallErrorView::InconsistentResults(
                map![errors[0].0 => errors[0].1, errors[j].0 => errors[j].1],
            ),
        )
    } else {
        Some(MultiCallErrorView::ConsistentError(errors[0].1->Err_0))
    }
}

/// The values that the providers answered with, where no answer is an error.
pub open spec fn ok_values<T>(results: Map<RpcNodeProvider, Result<T, RpcError>>) -> Map<
    RpcNodeProvider,
    T,
> {
    results.map_values(|r: Result<T, RpcError>| r->Ok_0)
}

/// Values as answers of their providers.
pub open spec fn as_answers<T>(values: Map<RpcNodeProvider, T>) -> Map<
    RpcNodeProvider,
    Result<T, RpcError>,
> {
    values.map_values(|v: T| Ok::<T, RpcError>(v))
}

/// What a reduction to a single answer says.
pub open spec fn verdict<T>(r: Result<T, MultiCallError<T>>) -> Result<T, MultiCallErrorView<T>> {
    match r {
        Ok(value) => Ok(value),
        Err(e) => Err(e@),
    }
}

/// How values reduce by equality. Every value but the one of the lowest provider is compared with
/// that one by `!=`. Where none differs, it is the answer; otherwise it is reported with those
/// that differ.
pub open spec fn reduced_by_equality<T: PartialEq>(
    values: Map<RpcNodeProvider, T>,
    r: Result<T, MultiCallErrorView<T>>,
) -> bool {
    let (base_provider, base) = crate::ordered::entries(values)[0];
    exists|differing: Set<RpcNodeProvider>|
        {
            &&& differing.subset_of(values.dom().remove(base_provider))
            &&& forall|p: RpcNodeProvider|
                values.contains_key(p) && p != base_provider ==> call_ensures(
                    T::ne,
                    (&values[p], &base),
                    #[trigger] differing.contains(p),
                )
            &&& r == if differing.is_empty() {
                Ok(base)
            } else {
                Err(
                    MultiCallErrorView::InconsistentResults(
                        as_answers(values.restrict(differing.insert(base_provider))),
                    ),
                )
            }
        }
}

/// How answers reduce by equality: to the verdict on the errors, if there are any, or else to what
/// the values reduce to.
pub open spec fn agreed_upon<T: PartialEq>(
    results: Map<RpcNodeProvider, Result<T, RpcError>>,
    r: Result<T, MultiCallErrorView<T>>,
) -> bool {
    match failure(results) {
        Some(e) => r == Err::<T, MultiCallErrorView<T>>(e),
        None => reduced_by_equality(ok_values(results), r),
    }
}

/// Whether the keys are what the extractor gave for the first votes, one each and in order.
pub open spec fn extracted<T, K, F: FnMut(&T) -> K>(
    extractor: F,
    votes: Seq<(RpcNodeProvider, T)>,
    keys: Seq<K>,
) -> bool {
    &&& keys.len() <= votes.len()
    &&& forall|i: int|
        0 <= i < keys.len() ==> call_ensures(extractor, (&votes[i].1,), #[trigger] keys[i])
}

/// Whether the key at `m` is the lowest, and the first of those that are as low.
pub open spec fn is_first_lowest<K: Ord>(keys: Seq<K>, m: int) -> bool {
    &&& 0 <= m < keys.len()
    &&& forall|i: int|
        0 <= i < keys.len() ==> !crate::key::key_below(#[trigger] keys[i], keys[m])
    &&& forall|i: int| 0 <= i < m ==> crate::key::key_below(keys[m], #[trigger] keys[i])
}

/// How votes reduce to the one with the lowest key.
pub open spec fn reduced_by_min<T, K: Ord>(
    votes: Seq<(RpcNodeProvider, T)>,
    keys: Seq<K>,
    r: Result<T, MultiCallErrorView<T>>,
) -> bool {
    keys.len() == votes.len() && exists|m: int| #[trigger]
        is_first_lowest(keys, m) && r == Ok::<T, MultiCallErrorView<T>>(votes[m].1)
}

/// Whether a reduction made nothing up: its value or error is the answer of some provider, and the
/// answers that it reports are those that the providers gave.
pub open spec fn drawn_from<T>(
    results: Map<RpcNodeProvider, Result<T, RpcError>>,
    r: Result<T, MultiCallErrorView<T>>,
) -> bool {
    match r {
        Ok(value) => exists|p: RpcNodeProvider| #[trigger]
            results.contains_key(p) && results[p] == Ok::<T, RpcError>(value),
        Err(MultiCallErrorView::ConsistentError(e)) => exists|p: RpcNodeProvider| #[trigger]
            results.contains_key(p) && results[p] == Err::<T, RpcError>(e),
        Err(MultiCallErrorView::InconsistentResults(report)) => report.submap_of(results),
    }
}

/// Whether one of the answers that an error holds is an HTTP outcall error with this value.
pub open spec fn holds_http_outcall_error<T>(
    error: MultiCallErrorView<T>,
    http_error: HttpOutcallError,
) -> bool {
    match error {
        MultiCallErrorView::ConsistentError(e) => e == RpcError::HttpOutcallError(http_error),
        MultiCallErrorView::InconsistentResults(results) => exists|p: RpcNodeProvider| #[trigger]
            results.contains_key(p) && results[p] == Err::<T, RpcError>(
                RpcError::HttpOutcallError(http_error),
            ),
    }
}

/// The HTTP outcall error that a provider answered with, if it did.
pub open spec fn http_outcall_error_of<T>(
    results: Map<RpcNodeProvider, Result<T, RpcError>>,
    p: RpcNodeProvider,
) -> Option<HttpOutcallError> {
    if results.contains_key(p) {
        match results[p] {
            Err(RpcError::HttpOutcallError(e)) => Some(e),
            _ => None,
        }
    } else {
        None
    }
}

/// Whether a predicate may have rejected every HTTP outcall error of a provider below this one.
pub open spec fn rejected_below<T, P: Fn(&HttpOutcallError) -> bool>(
    results: Map<RpcNodeProvider, Result<T, RpcError>>,
    predicate: P,
    p: RpcNodeProvider,
) -> bool {
    forall|q: RpcNodeProvider|
        q < p ==> (#[trigger] http_outcall_error_of(results, q) matches Some(e) ==> call_ensures(
            predicate,
            (&e,),
            false,
        ))
}

/// Whether a predicate can be asked about the HTTP outcall errors that an error holds, in
/// increasing order of provider and up to the first one that it accepts.
pub open spec fn can_be_asked<T, P: Fn(&HttpOutcallError) -> bool>(
    error: MultiCallErrorView<T>,
    predicate: P,
) -> bool {
    match error {
        MultiCallErrorView::ConsistentError(e) => e matches RpcError::HttpOutcallError(http_error)
            ==> call_requires(predicate, (&http_error,)),
        MultiCallErrorView::InconsistentResults(results) => forall|p: RpcNodeProvider|
            rejected_below(results, predicate, p) ==> (#[trigger] http_outcall_error_of(
                results,
                p,
            ) matches Some(e) ==> call_requires(predicate, (&e,))),
    }
}

/// Where providers are gone through in increasing order and none was accepted so far, the
/// predicate can be asked about the next one.
proof fn lemma_next_asked<T, P: Fn(&HttpOutcallError) -> bool>(
    results: Map<RpcNodeProvider, Result<T, RpcError>>,
    predicate: P,
    order: Seq<RpcNodeProvider>,
    i: int,
    http_error: HttpOutcallError,
)
    requires
        can_be_asked(MultiCallErrorView::InconsistentResults(results), predicate),
        crate::ordered::ascending(order),
        order.to_set() == results.dom(),
        0 <= i < order.len(),
        http_outcall_error_of(results, order[i]) == Some(http_error),
        forall|j: int|
            0 <= j < i ==> (http_outcall_error_of(results, #[trigger] order[j]) matches Some(e)
                ==> call_ensures(predicate, (&e,), false)),
    ensures
        call_requires(predicate, (&http_error,)),
{
    assert forall|q: RpcNodeProvider| q < order[i] implies (#[trigger] http_outcall_error_of(
        results,
        q,
    ) matches Some(e) ==> call_ensures(predicate, (&e,), false)) by {
        if http_outcall_error_of(results, q) is Some {
            assert(order.to_set().contains(q));
            let j = choose|j: int| 0 <= j < order.len() && order[j] == q;
            assert(j < i);
        }
    }
    assert(rejected_below(results, predicate, order[i]));
}

/// Filtering one element more either appends that element or changes nothing.
proof fn lemma_filter_step<A>(s: Seq<A>, n: int, pred: spec_fn(A) -> bool)
    requires
        0 <= n < s.len(),
    ensures
        s.take(n + 1).filter(pred) == if pred(s[n]) {
            s.take(n).filter(pred).push(s[n])
        } else {
            s.take(n).filter(pred)
        },
{
    reveal(Seq::filter);
    assert(s.take(n + 1).drop_last() =~= s.take(n));
}

/// What a prefix leaves after filtering stands at the front of what the whole leaves.
proof fn lemma_filter_prefix<A>(s: Seq<A>, n: int, pred: spec_fn(A) -> bool)
    requires
        0 <= n <= s.len(),
    ensures
        s.take(n).filter(pred).len() <= s.filter(pred).len(),
        forall|k: int|
            0 <= k < s.take(n).filter(pred).len() ==> #[trigger] s.take(n).filter(pred)[k]
                == s.filter(pred)[k],
{
    assert(s =~= s.take(n) + s.skip(n));
    Seq::filter_distributes_over_add(s.take(n), s.skip(n), pred);
}

impl<T> MultiCallResults<T> {
    /// Holds the answer of at least one provider.
    pub open spec fn well_formed(self) -> bool {
        self@.len() > 0
    }

    /// Puts together the answers of providers; the last answer of a provider counts.
    pub fn from_non_empty_iter(answers: Vec<(RpcNodeProvider, Result<T, RpcError>)>) -> (r: Self)
        requires
            answers@.len() > 0,
        ensures
            r@ == crate::ordered::collected(answers@),
            r.well_formed(),
    {
        proof {
            crate::ordered::lemma_collected(answers@);
        }
        let results = from_pairs(answers);
        MultiCallResults { results }
    }

    /// Expects all results to be ok or returns the following error:
    /// * `MultiCallError::ConsistentError`: all errors are the same error.
    /// * `MultiCallError::InconsistentResults`: there are different errors.
    pub fn all_ok(self) -> (r: Result<BTreeMap<RpcNodeProvider, T>, MultiCallError<T>>)
        ensures
            match r {
                Ok(values) => failure(self@) is None && values@ == ok_values(self@),
                Err(e) => failure(self@) == Some(e@) && e.well_formed(),
            },
    {
        let ghost all = crate::ordered::entries(self@);
        proof {
            crate::ordered::lemma_entries(self@);
        }
        let answers = into_entries(self.results);
        let mut values: BTreeMap<RpcNodeProvider, T> = BTreeMap::new();
        let mut first_error: Option<(RpcNodeProvider, RpcError)> = None;
        for answer in it: answers.into_iter()
            invariant
                it.seq() == all,
                all == crate::ordered::entries(self@),
                forall|i: int, j: int|
                    0 <= i < j < all.len() ==> #[trigger] all[i].0 < #[trigger] all[j].0,
                first_error is None <==> all.take(it.index()).filter(is_failed()).len() == 0,
                first_error matches Some((p, e)) ==> all.take(it.index()).filter(is_failed())[0]
                    == (p, Err::<T, RpcError>(e)),
                forall|k: int|
                    0 < k < all.take(it.index()).filter(is_failed()).len() ==> all.take(
                        it.index(),
                    ).filter(is_failed())[0].1->Err_0@ == (#[trigger] all.take(it.index()).filter(
                        is_failed(),
                    )[k]).1->Err_0@,
                first_error is None ==> forall|p: RpcNodeProvider| #[trigger]
                    values@.contains_key(p) <==> exists|i: int|
                        0 <= i < it.index() && (#[trigger] all[i]).0 == p,
                first_error is None ==> forall|i: int|
                    0 <= i < it.index() ==> (#[trigger] all[i]).1 is Ok && values@[all[i].0]
                        == all[i].1->Ok_0,
        {
            proof {
                lemma_filter_step(all, it.index(), is_failed());
            }
            let (provider, result) = answer;
            match result {
                Ok(value) => {
                    values.insert(provider, value);
                },
                Err(error) => {
                    match first_error {
                        None => {
                            first_error = Some((provider, error));
                        },
                        Some((first_provider, first)) => {
                            if !are_errors_consistent(&first, &error) {
                                let ghost errors = failed(self@);
                                let ghost j = all.take(it.index()).filter(is_failed()).len() as int;
                                proof {
                                    let before = all.take(it.index()).filter(is_failed());
                                    let after = all.take(it.index() + 1).filter(is_failed());
                                    lemma_filter_prefix(all, it.index() + 1, is_failed());
                                    assert(after =~= before.push(all[it.index()]));
                                    assert(after[0] == errors[0] && after[j] == errors[j]);
                                    assert forall|k: int| 0 < k < j implies errors[0].1->Err_0@ == (
                                    #[trigger] errors[k]).1->Err_0@ by {
                                        assert(after[k] == errors[k] && before[k] == after[k]);
                                    }
                                    assert(is_first_conflict(errors, j));
                                    reveal_with_fuel(crate::ordered::collected, 3);
                                }
                                let pair = vec![
                                    (first_provider, Err(first)),
                                    (provider, Err(error)),
                                ];
                                let conflict = MultiCallResults::from_non_empty_iter(pair);
                                assert(pair@.drop_last() =~= seq![errors[0]]);
                                assert(conflict@ =~= map![
                                    errors[0].0 => errors[0].1,
                                    errors[j].0 => errors[j].1,
                                ]);
                                return Err(MultiCallError::InconsistentResults(conflict));
                            }
                            first_error = Some((first_provider, first));
                        },
                    }
                },
            }
        }
        proof {
            assert(all.take(all.len() as int) =~= all);
            if first_error is None {
                crate::ordered::lemma_entries(self@);
                assert(values@ =~= ok_values(self@));
            }
        }
        match first_error {
            None => Ok(values),
            Some((_, RpcError::JsonRpcError(JsonRpcError { code, message }))) => Err(
                MultiCallError::ConsistentError(RpcError::from(JsonRpcError { code, message })),
            ),
            Some((_, error)) => Err(MultiCallError::ConsistentError(error)),
        }
    }
}

impl<T: PartialEq> MultiCallResults<T> {
    /// Expects all providers to answer with the same value.
    pub fn reduce_with_equality(self) -> (r: Result<T, MultiCallError<T>>)
        requires
            self.well_formed(),
        ensures
            agreed_upon(self@, verdict(r)),
            r matches Err(e) ==> e.well_formed(),
    {
        let values = match self.all_ok() {
            Ok(values) => values,
            Err(e) => {
                return Err(e);
            },
        };
        let ghost known = values@;
        let ghost all = crate::ordered::entries(known);
        proof {
            assert(known.dom() =~= self@.dom());
            crate::ordered::lemma_entries(known);
        }
        let mut rest = into_entries(values);
        let (base_provider, base) = rest.remove(0);
        let ghost others = rest@;
        let mut inconsistent: Vec<(RpcNodeProvider, Result<T, RpcError>)> = Vec::new();
        let ghost mut differing = Set::<RpcNodeProvider>::empty();
        assert(crate::ordered::collected(inconsistent@) =~= as_answers(known.restrict(differing)));
        for vote in it: rest.into_iter()
            invariant
                it.seq() == others,
                others == all.remove(0),
                all == crate::ordered::entries(known),
                all.len() > 0,
                all[0] == (base_provider, base),
                forall|i: int, j: int|
                    0 <= i < j < all.len() ==> #[trigger] all[i].0 < #[trigger] all[j].0,
                forall|i: int|
                    0 <= i < all.len() ==> known.contains_key((#[trigger] all[i]).0)
                        && known[all[i].0] == all[i].1,
                differing.is_empty() <==> inconsistent@.len() == 0,
                crate::ordered::collected(inconsistent@) == as_answers(known.restrict(differing)),
                forall|p: RpcNodeProvider|
                    differing.contains(p) ==> exists|i: int|
                        0 <= i < it.index() && (#[trigger] others[i]).0 == p,
                forall|i: int|
                    0 <= i < it.index() ==> call_ensures(
                        T::ne,
                        (&(#[trigger] others[i]).1, &base),
                        differing.contains(others[i].0),
                    ),
        {
            let (provider, value) = vote;
            assert(others[it.index()] == all[it.index() + 1]);
            if value != base {
                let ghost old_inconsistent = inconsistent@;
                inconsistent.push((provider, Ok(value)));
                proof {
                    differing = differing.insert(provider);
                    assert(inconsistent@.drop_last() =~= old_inconsistent);
                    assert(crate::ordered::collected(inconsistent@) =~= as_answers(
                        known.restrict(differing),
                    ));
                }
            }
        }
        proof {
            assert forall|p: RpcNodeProvider|
                known.contains_key(p) && p != base_provider implies call_ensures(
                T::ne,
                (&known[p], &base),
                #[trigger] differing.contains(p),
            ) by {
                assert(all.contains((p, known[p])));
                let i = choose|i: int| 0 <= i < all.len() && all[i] == (p, known[p]);
                assert(others[i - 1] == all[i]);
            }
            assert(differing.subset_of(known.dom().remove(base_provider)));
        }
        if inconsistent.is_empty() {
            Ok(base)
        } else {
            let ghost old_inconsistent = inconsistent@;
            inconsistent.push((base_provider, Ok(base)));
            proof {
                assert(inconsistent@.drop_last() =~= old_inconsistent);
                assert(crate::ordered::collected(inconsistent@) =~= as_answers(
                    known.restrict(differing.insert(base_provider)),
                ));
            }
            Err(
                MultiCallError::InconsistentResults(
                    MultiCallResults::from_non_empty_iter(inconsistent),
                ),
            )
        }
    }

    /// Expects all providers to answer with a value, and takes the one with the lowest key; of
    /// several, the one of the lowest provider.
    pub fn reduce_with_min_by_key<F: FnMut(&T) -> K, K: Ord>(self, extractor: F) -> (r: Result<
        T,
        MultiCallError<T>,
    >)
        requires
            self.well_formed(),
            failure(self@) is None ==> forall|p: RpcNodeProvider| #[trigger]
                self@.contains_key(p) ==> call_requires(extractor, (&self@[p]->Ok_0,)),
        ensures
            match failure(self@) {
                Some(e) => verdict(r) == Err::<T, MultiCallErrorView<T>>(e),
                None => r is Ok && (crate::key::totally_ordered::<K>() ==> exists|keys: Seq<K>|
                 #[trigger]
                    extracted(extractor, crate::ordered::entries(ok_values(self@)), keys)
                        && reduced_by_min(
                        crate::ordered::entries(ok_values(self@)),
                        keys,
                        verdict(r),
                    )),
            },
            drawn_from(self@, verdict(r)),
            r matches Err(e) ==> e.well_formed(),
    {
        let ghost given = extractor;
        let mut extractor = extractor;
        let values = match self.all_ok() {
            Ok(values) => values,
            Err(e) => {
                proof {
                    crate::laws::law_errors_are_drawn(self@);
                }
                return Err(e);
            },
        };
        let ghost known = values@;
        let ghost all = crate::ordered::entries(known);
        proof {
            assert(known.dom() =~= self@.dom());
            crate::ordered::lemma_entries(known);
            assert forall|i: int| 0 <= i < all.len() implies call_requires(
                extractor,
                (&(#[trigger] all[i]).1,),
            ) by {
                assert(self@.contains_key(all[i].0));
            }
        }
        let mut rest = into_entries(values);
        let mut min = rest.remove(0).1;
        let mut min_key = extractor(&min);
        let ghost mut keys = seq![min_key];
        let ghost mut m = 0int;
        proof {
            if crate::key::totally_ordered::<K>() {
                crate::key::lemma_key_order(min_key, min_key, min_key);
            }
        }
        let ghost others = rest@;
        for vote in it: rest.into_iter()
            invariant
                extractor == given,
                it.seq() == others,
                others == all.remove(0),
                all.len() > 0,
                all == crate::ordered::entries(known),
                forall|i: int|
                    0 <= i < all.len() ==> call_requires(extractor, (&(#[trigger] all[i]).1,)),
                keys.len() == it.index() + 1,
                extracted(extractor, all, keys),
                0 <= m < keys.len(),
                min == all[m].1,
                min_key == keys[m],
                crate::key::totally_ordered::<K>() ==> is_first_lowest(keys, m),
        {
            let (_, value) = vote;
            assert(others[it.index()] == all[it.index() + 1]);
            let key = extractor(&value);
            let lower: bool = key_order(&key, &min_key) == KeyOrder::Below;
            proof {
                let before = keys;
                keys = keys.push(key);
                if crate::key::totally_ordered::<K>() {
                    let next = if lower { before.len() as int } else { m };
                    assert forall|i: int| 0 <= i < keys.len() implies !crate::key::key_below(
                        #[trigger] keys[i],
                        keys[next],
                    ) && (i < next ==> crate::key::key_below(keys[next], keys[i])) by {
                        crate::key::lemma_key_order(key, key, key);
                        crate::key::lemma_key_order(keys[i], key, min_key);
                        crate::key::lemma_key_order(key, min_key, keys[i]);
                        if i < before.len() {
                            assert(keys[i] == before[i]);
                        }
                    }
                }
                if lower {
                    m = before.len() as int;
                }
            }
            if lower {
                min = value;
                min_key = key;
            }
        }
        proof {
            assert(extracted(given, all, keys));
            crate::laws::law_failure_iff_error(self@);
            assert(self@.contains_key(all[m].0));
        }
        Ok(min)
    }
}

impl<T> MultiCallError<T> {
    /// Contradicting answers are those of at least one provider.
    pub open spec fn well_formed(self) -> bool {
        self matches MultiCallError::InconsistentResults(results) ==> results.well_formed()
    }

    /// Whether one of the HTTP outcall errors that it holds matches the predicate.
    pub fn has_http_outcall_error_matching<P: Fn(&HttpOutcallError) -> bool>(
        &self,
        predicate: P,
    ) -> (r: bool)
        requires
            can_be_asked(self@, predicate),
        ensures
            r ==> exists|e: HttpOutcallError| #[trigger]
                holds_http_outcall_error(self@, e) && call_ensures(predicate, (&e,), true),
            !r ==> forall|e: HttpOutcallError| #[trigger]
                holds_http_outcall_error(self@, e) ==> call_ensures(predicate, (&e,), false),
    {
        match self {
            MultiCallError::ConsistentError(RpcError::HttpOutcallError(error)) => {
                assert(holds_http_outcall_error(self@, *error));
                predicate(error)
            },
            MultiCallError::ConsistentError(_) => false,
            MultiCallError::InconsistentResults(results) => {
                let order = ordered_providers(&results.results);
                let mut i: usize = 0;
                while i < order.len()
                    invariant
                        i <= order@.len(),
                        self@ == MultiCallErrorView::InconsistentResults(results@),
                        order@.to_set() == results@.dom(),
                        crate::ordered::ascending(order@),
                        can_be_asked(self@, predicate),
                        forall|j: int|
                            0 <= j < i ==> (http_outcall_error_of(
                                results@,
                                #[trigger] order@[j],
                            ) matches Some(e) ==> call_ensures(predicate, (&e,), false)),
                    decreases order@.len() - i,
                {
                    assert(order@.to_set().contains(order@[i as int]));
                    if let Some(Err(RpcError::HttpOutcallError(error))) = results.results.get(
                        &order[i],
                    ) {
                        proof {
                            assert(holds_http_outcall_error(self@, *error));
                            lemma_next_asked(results@, predicate, order@, i as int, *error);
                        }
                        if predicate(error) {
                            return true;
                        }
                    }
                    i += 1;
                }
                proof {
                    assert forall|e: HttpOutcallError| #[trigger]
                        holds_http_outcall_error(self@, e) implies call_ensures(
                        predicate,
                        (&e,),
                        false,
                    ) by {
                        let p = choose|p: RpcNodeProvider| #[trigger]
                            results@.contains_key(p) && results@[p] == Err::<T, RpcError>(
                                RpcError::HttpOutcallError(e),
                            );
                        assert(order@.to_set().contains(p));
                        let j = choose|j: int| 0 <= j < order@.len() && order@[j] == p;
                        assert(http_outcall_error_of(results@, order@[j]) == Some(e));
                    }
                }
                false
            },
        }
    }
}

} // verus!
