//! What callers can rely on, query by query: which replies give which outcome.

use std::collections::BTreeMap;

use vstd::prelude::*;
use vstd::std_specs::cmp::PartialEqSpec;

use crate::client::EthRpcClient;
use crate::eth_rpc::{FeeHistory, Quantity, RpcError};
use crate::multi_call::{MultiCallError, MultiCallResults};
use crate::providers::{DefaultProviders, RpcNodeProvider};

verus! {

broadcast use vstd::laws_cmp::group_laws_cmp;

/// Whether `!=` can say this of two values.
pub open spec fn told_apart<V: PartialEq>(left: V, right: V, differs: bool) -> bool {
    call_ensures(V::ne, (&left, &right), differs)
}

/// Logs are those of the lowest provider, if those of no other provider differ from them; if some
/// do, they are reported with exactly the ones that differ. Errors come first, as they are found
/// when the replies are checked for them.
pub proof fn law_eth_get_logs<T, LogEntry: PartialEq>(
    client: EthRpcClient<T>,
    defaults: DefaultProviders,
    replies: Vec<Result<Vec<LogEntry>, RpcError>>,
    results: MultiCallResults<Vec<LogEntry>>,
    checked: Result<BTreeMap<RpcNodeProvider, Vec<LogEntry>>, MultiCallError<Vec<LogEntry>>>,
    lowest: RpcNodeProvider,
    r: Result<Vec<LogEntry>, MultiCallError<Vec<LogEntry>>>,
)
    requires
        call_ensures(
            EthRpcClient::<T>::parallel_call::<Vec<LogEntry>>,
            (&client, &defaults, replies),
            results,
        ),
        call_ensures(MultiCallResults::<Vec<LogEntry>>::all_ok, (results,), checked),
        call_ensures(
            EthRpcClient::<T>::eth_get_logs::<LogEntry>,
            (&client, &defaults, replies),
            r,
        ),
        results.results@.contains_key(lowest),
        forall|p: RpcNodeProvider| #[trigger] results.results@.contains_key(p) ==> lowest <= p,
    ensures
        match (checked, r) {
            (
                Err(MultiCallError::ConsistentError(a)),
                Err(MultiCallError::ConsistentError(b)),
            ) => a == b,
            (
                Err(MultiCallError::InconsistentResults(a)),
                Err(MultiCallError::InconsistentResults(b)),
            ) => a.results@ == b.results@,
            (Ok(values), Ok(value)) => {
                &&& value == values@[lowest]
                &&& forall|p: RpcNodeProvider| #[trigger]
                    values@.contains_key(p) && p != lowest ==> told_apart(values@[p], value, false)
            },
            (Ok(values), Err(MultiCallError::InconsistentResults(report))) => {
                &&& report.results@.contains_key(lowest)
                &&& exists|p: RpcNodeProvider| #[trigger]
                    report.results@.contains_key(p) && p != lowest
                &&& forall|p: RpcNodeProvider| #[trigger]
                    report.results@.contains_key(p) ==> values@.contains_key(p)
                        && report.results@[p] == Ok::<Vec<LogEntry>, RpcError>(values@[p])
                &&& forall|p: RpcNodeProvider| #[trigger]
                    values@.contains_key(p) && p != lowest ==> told_apart(
                        values@[p],
                        values@[lowest],
                        report.results@.contains_key(p),
                    )
            },
            _ => false,
        },
{
    if checked is Ok {
        crate::laws_outcomes::lemma_same_providers(results.results@, checked->Ok_0@);
        crate::laws_outcomes::lemma_equality(
            checked->Ok_0@,
            lowest,
            crate::multi_call::verdict(r),
        );
    }
}

/// A block is that of the lowest provider, if that of no other provider differs from it; if some
/// do, it is reported with exactly the ones that differ. Errors come first, as they are found when
/// the replies are checked for them.
pub proof fn law_eth_get_block_by_number<T, Block: PartialEq>(
    client: EthRpcClient<T>,
    defaults: DefaultProviders,
    replies: Vec<Result<Block, RpcError>>,
    results: MultiCallResults<Block>,
    checked: Result<BTreeMap<RpcNodeProvider, Block>, MultiCallError<Block>>,
    lowest: RpcNodeProvider,
    r: Result<Block, MultiCallError<Block>>,
)
    requires
        call_ensures(
            EthRpcClient::<T>::parallel_call::<Block>,
            (&client, &defaults, replies),
            results,
        ),
        call_ensures(MultiCallResults::<Block>::all_ok, (results,), checked),
        call_ensures(
            EthRpcClient::<T>::eth_get_block_by_number::<Block>,
            (&client, &defaults, replies),
            r,
        ),
        results.results@.contains_key(lowest),
        forall|p: RpcNodeProvider| #[trigger] results.results@.contains_key(p) ==> lowest <= p,
    ensures
        match (checked, r) {
            (
                Err(MultiCallError::ConsistentError(a)),
                Err(MultiCallError::ConsistentError(b)),
            ) => a == b,
            (
                Err(MultiCallError::InconsistentResults(a)),
                Err(MultiCallError::InconsistentResults(b)),
            ) => a.results@ == b.results@,
            (Ok(values), Ok(value)) => {
                &&& value == values@[lowest]
                &&& forall|p: RpcNodeProvider| #[trigger]
                    values@.contains_key(p) && p != lowest ==> told_apart(values@[p], value, false)
            },
            (Ok(values), Err(MultiCallError::InconsistentResults(report))) => {
                &&& report.results@.contains_key(lowest)
                &&& exists|p: RpcNodeProvider| #[trigger]
                    report.results@.contains_key(p) && p != lowest
                &&& forall|p: RpcNodeProvider| #[trigger]
                    report.results@.contains_key(p) ==> values@.contains_key(p)
                        && report.results@[p] == Ok::<Block, RpcError>(values@[p])
                &&& forall|p: RpcNodeProvider| #[trigger]
                    values@.contains_key(p) && p != lowest ==> told_apart(
                        values@[p],
                        values@[lowest],
                        report.results@.contains_key(p),
                    )
            },
            _ => false,
        },
{
    if checked is Ok {
        crate::laws_outcomes::lemma_same_providers(results.results@, checked->Ok_0@);
        crate::laws_outcomes::lemma_equality(
            checked->Ok_0@,
            lowest,
            crate::multi_call::verdict(r),
        );
    }
}

/// A receipt is that of the lowest provider, if that of no other provider differs from it; if some
/// do, it is reported with exactly the ones that differ. Errors come first, as they are found when
/// the replies are checked for them.
pub proof fn law_eth_get_transaction_receipt<T, TransactionReceipt: PartialEq>(
    client: EthRpcClient<T>,
    defaults: DefaultProviders,
    replies: Vec<Result<Option<TransactionReceipt>, RpcError>>,
    results: MultiCallResults<Option<TransactionReceipt>>,
    checked: Result<
        BTreeMap<RpcNodeProvider, Option<TransactionReceipt>>,
        MultiCallError<Option<TransactionReceipt>>,
    >,
    lowest: RpcNodeProvider,
    r: Result<Option<TransactionReceipt>, MultiCallError<Option<TransactionReceipt>>>,
)
    requires
        call_ensures(
            EthRpcClient::<T>::parallel_call::<Option<TransactionReceipt>>,
            (&client, &defaults, replies),
            results,
        ),
        call_ensures(MultiCallResults::<Option<TransactionReceipt>>::all_ok, (results,), checked),
        call_ensures(
            EthRpcClient::<T>::eth_get_transaction_receipt::<TransactionReceipt>,
            (&client, &defaults, replies),
            r,
        ),
        results.results@.contains_key(lowest),
        forall|p: RpcNodeProvider| #[trigger] results.results@.contains_key(p) ==> lowest <= p,
    ensures
        match (checked, r) {
            (
                Err(MultiCallError::ConsistentError(a)),
                Err(MultiCallError::ConsistentError(b)),
            ) => a == b,
            (
                Err(MultiCallError::InconsistentResults(a)),
                Err(MultiCallError::InconsistentResults(b)),
            ) => a.results@ == b.results@,
            (Ok(values), Ok(value)) => {
                &&& value == values@[lowest]
                &&& forall|p: RpcNodeProvider| #[trigger]
                    values@.contains_key(p) && p != lowest ==> told_apart(values@[p], value, false)
            },
            (Ok(values), Err(MultiCallError::InconsistentResults(report))) => {
                &&& report.results@.contains_key(lowest)
                &&& exists|p: RpcNodeProvider| #[trigger]
                    report.results@.contains_key(p) && p != lowest
                &&& forall|p: RpcNodeProvider| #[trigger]
                    report.results@.contains_key(p) ==> values@.contains_key(p)
                        && report.results@[p] == Ok::<Option<TransactionReceipt>, RpcError>(
                        values@[p],
                    )
                &&& forall|p: RpcNodeProvider| #[trigger]
                    values@.contains_key(p) && p != lowest ==> told_apart(
                        values@[p],
                        values@[lowest],
                        report.results@.contains_key(p),
                    )
            },
            _ => false,
        },
{
    if checked is Ok {
        crate::laws_outcomes::lemma_same_providers(results.results@, checked->Ok_0@);
        crate::laws_outcomes::lemma_equality(
            checked->Ok_0@,
            lowest,
            crate::multi_call::verdict(r),
        );
    }
}

/// Fee histories fall together by their oldest block, a number. Errors come first, as they are
/// found when the replies are checked for them. Otherwise one of three things comes out:
/// * A fee history: every provider with its oldest block gave an equal one, strictly more providers
///   have that block than any other, and it is that of the highest of them.
/// * A report of a clash: a provider differs from a lower one with the same oldest block, none
///   below it does, and the report holds the fee histories with that block up to there.
/// * A report of a tie: fee histories with the same oldest block are equal, two oldest blocks have
///   as many providers as each other and no other has more; of those that have as many, they are
///   the two latest; the report holds the fee histories with these blocks.
/// Returns the winner, or the two providers that clashed, later one first, or a provider for each
/// of the two blocks that tied, that with the later block first.
pub proof fn law_eth_fee_history<T>(
    client: EthRpcClient<T>,
    defaults: DefaultProviders,
    replies: Vec<Result<FeeHistory, RpcError>>,
    results: MultiCallResults<FeeHistory>,
    checked: Result<BTreeMap<RpcNodeProvider, FeeHistory>, MultiCallError<FeeHistory>>,
    r: Result<FeeHistory, MultiCallError<FeeHistory>>,
) -> (found: (RpcNodeProvider, RpcNodeProvider))
    requires
        call_ensures(
            EthRpcClient::<T>::parallel_call::<FeeHistory>,
            (&client, &defaults, replies),
            results,
        ),
        call_ensures(MultiCallResults::<FeeHistory>::all_ok, (results,), checked),
        call_ensures(EthRpcClient::<T>::eth_fee_history, (&client, &defaults, replies), r),
    ensures
        match (checked, r) {
            (
                Err(MultiCallError::ConsistentError(x)),
                Err(MultiCallError::ConsistentError(y)),
            ) => x == y,
            (
                Err(MultiCallError::InconsistentResults(x)),
                Err(MultiCallError::InconsistentResults(y)),
            ) => x.results@ == y.results@,
            (Ok(values), Ok(history)) => {
                let (winner, _) = found;
                let count = |p: RpcNodeProvider|
                    values@.dom().filter(
                        |q: RpcNodeProvider| values@[q].oldest_block == values@[p].oldest_block,
                    ).len();
                &&& values@.contains_key(winner)
                &&& history == values@[winner]
                &&& forall|p: RpcNodeProvider| #[trigger]
                    values@.contains_key(p) ==> if values@[p].oldest_block
                        == history.oldest_block {
                        p <= winner && values@[p].eq_spec(&history)
                    } else {
                        count(winner) > count(p)
                    }
            },
            (Ok(values), Err(MultiCallError::InconsistentResults(report))) => {
                let (a, b) = found;
                let x = values@[a].oldest_block;
                let y = values@[b].oldest_block;
                let count = |p: RpcNodeProvider|
                    values@.dom().filter(
                        |q: RpcNodeProvider| values@[q].oldest_block == values@[p].oldest_block,
                    ).len();
                &&& values@.contains_key(a)
                &&& values@.contains_key(b)
                &&& forall|p: RpcNodeProvider| #[trigger]
                    report.results@.contains_key(p) ==> report.results@[p] == Ok::<
                        FeeHistory,
                        RpcError,
                    >(values@[p])
                &&& {
                    ||| {
                        &&& b < a
                        &&& x == y
                        &&& !values@[a].eq_spec(&values@[b])
                        &&& forall|p: RpcNodeProvider, q: RpcNodeProvider|
                            #![trigger values@.contains_key(p), values@.contains_key(q)]
                            values@.contains_key(p) && values@.contains_key(q) && p < q < a
                                && values@[p].oldest_block == values@[q].oldest_block
                                ==> values@[q].eq_spec(&values@[p])
                        &&& forall|p: RpcNodeProvider| #[trigger]
                            report.results@.contains_key(p) <==> values@.contains_key(p) && p <= a
                                && values@[p].oldest_block == x
                    }
                    ||| {
                        &&& y.high < x.high || (y.high == x.high && y.low < x.low)
                        &&& count(a) == count(b)
                        &&& forall|p: RpcNodeProvider| #[trigger]
                            values@.contains_key(p) && values@[p].oldest_block != x
                                && values@[p].oldest_block != y ==> {
                                let z = values@[p].oldest_block;
                                ||| count(p) < count(b)
                                ||| count(p) == count(b) && (z.high < y.high || (z.high == y.high
                                    && z.low < y.low))
                            }
                        &&& forall|p: RpcNodeProvider, q: RpcNodeProvider|
                            #![trigger values@.contains_key(p), values@.contains_key(q)]
                            values@.contains_key(p) && values@.contains_key(q) && p < q
                                && values@[p].oldest_block == values@[q].oldest_block
                                ==> values@[q].eq_spec(&values@[p])
                        &&& forall|p: RpcNodeProvider| #[trigger]
                            report.results@.contains_key(p) <==> values@.contains_key(p) && (
                            values@[p].oldest_block == x || values@[p].oldest_block == y)
                    }
                }
            },
            _ => false,
        },
{
    if checked is Ok {
        crate::laws_outcomes::lemma_fee_histories(
            results.results@,
            checked->Ok_0@,
            crate::multi_call::verdict(r),
        )
    } else {
        arbitrary()
    }
}

/// Where fee histories with the same oldest block are equal, an oldest block that strictly more
/// providers report than any other gives the outcome: the fee history of the highest of them.
pub proof fn law_fee_history_of_most_wins<T>(
    client: EthRpcClient<T>,
    defaults: DefaultProviders,
    replies: Vec<Result<FeeHistory, RpcError>>,
    results: MultiCallResults<FeeHistory>,
    values: BTreeMap<RpcNodeProvider, FeeHistory>,
    winner: RpcNodeProvider,
    r: Result<FeeHistory, MultiCallError<FeeHistory>>,
)
    requires
        call_ensures(
            EthRpcClient::<T>::parallel_call::<FeeHistory>,
            (&client, &defaults, replies),
            results,
        ),
        call_ensures(
            MultiCallResults::<FeeHistory>::all_ok,
            (results,),
            Ok::<BTreeMap<RpcNodeProvider, FeeHistory>, MultiCallError<FeeHistory>>(values),
        ),
        call_ensures(EthRpcClient::<T>::eth_fee_history, (&client, &defaults, replies), r),
        forall|p: RpcNodeProvider, q: RpcNodeProvider|
            #![trigger values@.contains_key(p), values@.contains_key(q)]
            values@.contains_key(p) && values@.contains_key(q) && values@[p].oldest_block
                == values@[q].oldest_block ==> values@[p].eq_spec(&values@[q]),
        values@.contains_key(winner),
        forall|p: RpcNodeProvider| #[trigger]
            values@.contains_key(p) ==> if values@[p].oldest_block == values@[winner].oldest_block {
                p <= winner
            } else {
                values@.dom().filter(
                    |q: RpcNodeProvider| values@[q].oldest_block == values@[winner].oldest_block,
                ).len() > values@.dom().filter(
                    |q: RpcNodeProvider| values@[q].oldest_block == values@[p].oldest_block,
                ).len()
            },
    ensures
        r == Ok::<FeeHistory, MultiCallError<FeeHistory>>(values@[winner]),
{
    let (a, b) = law_eth_fee_history(client, defaults, replies, results, Ok(values), r);
    assert(values@.contains_key(a));
    if r is Err {
        assert(values@.contains_key(b));
    }
    if values@[a].oldest_block == values@[winner].oldest_block {
        assert(values@.contains_key(winner));
    }
}

/// Where fee histories with the same oldest block are equal, an oldest block that more than half of
/// the providers report gives the outcome.
pub proof fn law_fee_history_of_more_than_half_wins<T>(
    client: EthRpcClient<T>,
    defaults: DefaultProviders,
    replies: Vec<Result<FeeHistory, RpcError>>,
    results: MultiCallResults<FeeHistory>,
    values: BTreeMap<RpcNodeProvider, FeeHistory>,
    block: Quantity,
    r: Result<FeeHistory, MultiCallError<FeeHistory>>,
)
    requires
        call_ensures(
            EthRpcClient::<T>::parallel_call::<FeeHistory>,
            (&client, &defaults, replies),
            results,
        ),
        call_ensures(
            MultiCallResults::<FeeHistory>::all_ok,
            (results,),
            Ok::<BTreeMap<RpcNodeProvider, FeeHistory>, MultiCallError<FeeHistory>>(values),
        ),
        call_ensures(EthRpcClient::<T>::eth_fee_history, (&client, &defaults, replies), r),
        forall|p: RpcNodeProvider, q: RpcNodeProvider|
            #![trigger values@.contains_key(p), values@.contains_key(q)]
            values@.contains_key(p) && values@.contains_key(q) && values@[p].oldest_block
                == values@[q].oldest_block ==> values@[p].eq_spec(&values@[q]),
        2 * values@.dom().filter(|q: RpcNodeProvider| values@[q].oldest_block == block).len()
            > values@.len(),
    ensures
        r matches Ok(history) && history.oldest_block == block,
{
    let (a, b) = law_eth_fee_history(client, defaults, replies, results, Ok(values), r);
    let most = values@.dom().filter(|q: RpcNodeProvider| values@[q].oldest_block == block);
    assert forall|p: RpcNodeProvider| #[trigger] values@.contains_key(p) && values@[p].oldest_block
        != block implies values@.dom().filter(
        |q: RpcNodeProvider| values@[q].oldest_block == values@[p].oldest_block,
    ).len() < most.len() by {
        let few = values@.dom().filter(
            |q: RpcNodeProvider| values@[q].oldest_block == values@[p].oldest_block,
        );
        values@.dom().lemma_len_filter(|q: RpcNodeProvider| values@[q].oldest_block == block);
        values@.dom().lemma_len_filter(
            |q: RpcNodeProvider| values@[q].oldest_block == values@[p].oldest_block,
        );
        vstd::set_lib::lemma_set_disjoint_lens(few, most);
        assert(few.disjoint(most));
        vstd::set_lib::lemma_len_subset(few + most, values@.dom());
    }
    assert(exists|p: RpcNodeProvider| most.contains(p)) by {
        if forall|p: RpcNodeProvider| !most.contains(p) {
            assert(most =~= Set::empty());
        }
    }
    let member = choose|p: RpcNodeProvider| most.contains(p);
    assert(values@.contains_key(member) && values@[member].oldest_block == block);
    assert(values@.contains_key(a));
    if r is Err {
        assert(values@.contains_key(b));
    }
}

} // verus!
