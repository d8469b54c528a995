//! What callers can rely on, call by call: errors, queries and the providers that they go to.

use std::collections::BTreeMap;

use vstd::prelude::*;
use vstd::std_specs::cmp::PartialEqSpec;

use crate::client::{EthRpcClient, SequentialCall, SequentialStep, State};
use crate::eth_rpc::{
    are_errors_consistent, FeeHistory, GetBlockByNumberParams, HttpOutcallError, JsonRpcError,
    ResponseSizeEstimate, RpcError, RpcRequest,
};
use crate::key::{key_order, KeyOrder};
use crate::multi_call::{MultiCallError, MultiCallResults};
use crate::ordered::{from_pairs, into_entries, ordered_providers};
use crate::providers::{DefaultProviders, EthereumNetwork, RpcNodeProvider};

verus! {

broadcast use vstd::laws_cmp::group_laws_cmp;

/// A client that was given providers queries them, in the order given, whatever its network; one
/// that was given none queries the default ones of its network. So does a copy of it.
pub proof fn law_providers<T>(
    chain: EthereumNetwork,
    given: Option<Vec<RpcNodeProvider>>,
    defaults: DefaultProviders,
    client: EthRpcClient<T>,
    copy: EthRpcClient<T>,
    queried: &[RpcNodeProvider],
)
    requires
        call_ensures(EthRpcClient::<T>::new, (chain, given), client),
        copy == client || call_ensures(EthRpcClient::<T>::clone, (&client,), copy),
        call_ensures(EthRpcClient::<T>::providers, (&copy, &defaults), queried),
    ensures
        given matches Some(list) ==> queried@ == list@,
        given is None && chain is Mainnet ==> queried@ == defaults.mainnet@,
        given is None && chain is Sepolia ==> queried@ == defaults.sepolia@,
{
}

/// A client of the service queries the default providers of the network of the service.
pub proof fn law_providers_of_state<T>(
    state: State,
    defaults: DefaultProviders,
    client: EthRpcClient<T>,
    queried: &[RpcNodeProvider],
)
    requires
        call_ensures(EthRpcClient::<T>::from_state, (&state,), client),
        call_ensures(EthRpcClient::<T>::providers, (&client, &defaults), queried),
    ensures
        state.ethereum_network is Mainnet ==> queried@ == defaults.mainnet@,
        state.ethereum_network is Sepolia ==> queried@ == defaults.sepolia@,
{
}

/// How long the reply to a query for a block is expected to be depends on the network that the
/// client was made for, and on nothing else.
pub proof fn law_block_size_by_network<T, BlockSpec>(
    chain: EthereumNetwork,
    given: Option<Vec<RpcNodeProvider>>,
    state: State,
    client: EthRpcClient<T>,
    copy: EthRpcClient<T>,
    block: BlockSpec,
    request: RpcRequest<GetBlockByNumberParams<BlockSpec>>,
    bytes: u64,
)
    requires
        call_ensures(EthRpcClient::<T>::new, (chain, given), client) || (state.ethereum_network
            == chain && call_ensures(EthRpcClient::<T>::from_state, (&state,), client)),
        copy == client || call_ensures(EthRpcClient::<T>::clone, (&client,), copy),
        call_ensures(
            EthRpcClient::<T>::eth_get_block_by_number_request::<BlockSpec>,
            (&copy, block),
            request,
        ),
        call_ensures(ResponseSizeEstimate::get, (request.response_size_estimate,), bytes),
    ensures
        chain is Mainnet ==> bytes == 24576,
        chain is Sepolia ==> bytes == 12288,
        request.method@ == "eth_getBlockByNumber"@,
        request.params.block == block,
        !request.params.include_full_transactions,
{
}

/// The query for logs is the same for every client.
pub proof fn law_logs_request<T, GetLogsParam>(
    client: EthRpcClient<T>,
    params: GetLogsParam,
    request: RpcRequest<Vec<GetLogsParam>>,
    bytes: u64,
)
    requires
        call_ensures(
            EthRpcClient::<T>::eth_get_logs_request::<GetLogsParam>,
            (&client, params),
            request,
        ),
        call_ensures(ResponseSizeEstimate::get, (request.response_size_estimate,), bytes),
    ensures
        request.method@ == "eth_getLogs"@,
        request.params@ == seq![params],
        bytes == 100,
{
}

/// The query for a receipt is the same for every client.
pub proof fn law_receipt_request<T, Hash>(
    client: EthRpcClient<T>,
    tx_hash: Hash,
    request: RpcRequest<Vec<Hash>>,
    bytes: u64,
)
    requires
        call_ensures(
            EthRpcClient::<T>::eth_get_transaction_receipt_request::<Hash>,
            (&client, tx_hash),
            request,
        ),
        call_ensures(ResponseSizeEstimate::get, (request.response_size_estimate,), bytes),
    ensures
        request.method@ == "eth_getTransactionReceipt"@,
        request.params@ == seq![tx_hash],
        bytes == 700,
{
}

/// The query for a fee history is the same for every client.
pub proof fn law_fee_history_request<T, FeeHistoryParams>(
    client: EthRpcClient<T>,
    params: FeeHistoryParams,
    request: RpcRequest<FeeHistoryParams>,
    bytes: u64,
)
    requires
        call_ensures(
            EthRpcClient::<T>::eth_fee_history_request::<FeeHistoryParams>,
            (&client, params),
            request,
        ),
        call_ensures(ResponseSizeEstimate::get, (request.response_size_estimate,), bytes),
    ensures
        request.method@ == "eth_feeHistory"@,
        request.params == params,
        bytes == 512,
{
}

/// The query for a transaction count is the same for every client.
pub proof fn law_transaction_count_request<T, GetTransactionCountParams>(
    client: EthRpcClient<T>,
    params: GetTransactionCountParams,
    request: RpcRequest<GetTransactionCountParams>,
    bytes: u64,
)
    requires
        call_ensures(
            EthRpcClient::<T>::eth_get_transaction_count_request::<GetTransactionCountParams>,
            (&client, params),
            request,
        ),
        call_ensures(ResponseSizeEstimate::get, (request.response_size_estimate,), bytes),
    ensures
        request.method@ == "eth_getTransactionCount"@,
        request.params == params,
        bytes == 50,
{
}

/// The query that submits a transaction is the same for every client.
pub proof fn law_raw_transaction_request<T>(
    client: EthRpcClient<T>,
    raw_signed_transaction_hex: String,
    request: RpcRequest<Vec<String>>,
    bytes: u64,
)
    requires
        call_ensures(
            EthRpcClient::<T>::eth_send_raw_transaction_request,
            (&client, raw_signed_transaction_hex),
            request,
        ),
        call_ensures(ResponseSizeEstimate::get, (request.response_size_estimate,), bytes),
    ensures
        request.method@ == "eth_sendRawTransaction"@,
        request.params@ == seq![raw_signed_transaction_hex],
        bytes == 256,
{
}

/// A size estimate holds the number of bytes that it was made from.
pub proof fn law_size_estimate(bytes: u64, estimate: ResponseSizeEstimate, r: u64)
    requires
        call_ensures(ResponseSizeEstimate::new, (bytes,), estimate),
        call_ensures(ResponseSizeEstimate::get, (estimate,), r),
    ensures
        r == bytes,
{
}

/// A query in sequence goes to the client's providers in their order. An HTTP outcall error or a
/// provider error, of whatever kind, moves it on to the next provider, as long as there is one;
/// an ok value, a JSON-RPC error, or the reply of the last provider is returned as it came.
pub proof fn law_sequence<T, O>(
    client: EthRpcClient<T>,
    defaults: DefaultProviders,
    queried: &[RpcNodeProvider],
    calls: Seq<SequentialCall>,
    replies: Seq<Result<O, RpcError>>,
    steps: Seq<SequentialStep<O>>,
    k: int,
)
    requires
        call_ensures(EthRpcClient::<T>::providers, (&client, &defaults), queried),
        call_ensures(
            EthRpcClient::<T>::sequential_call_until_ok,
            (&client, &defaults),
            calls[0],
        ) || call_ensures(
            EthRpcClient::<T>::eth_send_raw_transaction,
            (&client, &defaults),
            calls[0],
        ),
        0 <= k < queried@.len(),
        k < calls.len(),
        k < replies.len(),
        k < steps.len(),
        forall|i: int|
            0 <= i <= k ==> call_ensures(
                SequentialCall::on_reply::<O>,
                (calls[i], replies[i]),
                #[trigger] steps[i],
            ),
        forall|i: int|
            0 <= i < k ==> (#[trigger] steps[i] matches SequentialStep::Call(next) ==> calls[i + 1]
                == next),
        forall|i: int|
            0 <= i < k ==> (#[trigger] replies[i] matches Err(e) && (e is HttpOutcallError
                || e is ProviderError)),
    ensures
        forall|i: int| 0 <= i < k ==> (#[trigger] steps[i]) is Call,
        forall|p: RpcNodeProvider| #[trigger]
            call_ensures(SequentialCall::provider, (&calls[k],), p) ==> p == queried@[k],
        match replies[k] {
            Ok(_) | Err(RpcError::JsonRpcError(_)) => steps[k] == SequentialStep::Return(
                replies[k],
            ),
            Err(RpcError::HttpOutcallError(_)) | Err(RpcError::ProviderError(_)) => if k
                == queried@.len() - 1 {
                steps[k] == SequentialStep::Return(replies[k])
            } else {
                steps[k] is Call
            },
        },
{
    lemma_calls_in_sequence(client, defaults, queried, calls, replies, steps, k);
    assert(queried@.skip(k)[0] == queried@[k]);
    assert(steps[k]@ == crate::client::after_reply(calls[k]@, replies[k]));
}

/// After `k` replies that move the query on, the providers from the `k`th on are left.
proof fn lemma_calls_in_sequence<T, O>(
    client: EthRpcClient<T>,
    defaults: DefaultProviders,
    queried: &[RpcNodeProvider],
    calls: Seq<SequentialCall>,
    replies: Seq<Result<O, RpcError>>,
    steps: Seq<SequentialStep<O>>,
    k: int,
)
    requires
        call_ensures(EthRpcClient::<T>::providers, (&client, &defaults), queried),
        call_ensures(
            EthRpcClient::<T>::sequential_call_until_ok,
            (&client, &defaults),
            calls[0],
        ) || call_ensures(
            EthRpcClient::<T>::eth_send_raw_transaction,
            (&client, &defaults),
            calls[0],
        ),
        0 <= k < queried@.len(),
        forall|i: int|
            0 <= i < k ==> call_ensures(
                SequentialCall::on_reply::<O>,
                (calls[i], replies[i]),
                #[trigger] steps[i],
            ),
        forall|i: int|
            0 <= i < k ==> (#[trigger] steps[i] matches SequentialStep::Call(next) ==> calls[i + 1]
                == next),
        forall|i: int|
            0 <= i < k ==> (#[trigger] replies[i] matches Err(e) && (e is HttpOutcallError
                || e is ProviderError)),
    ensures
        calls[k]@ == queried@.skip(k),
        forall|i: int| 0 <= i < k ==> (#[trigger] steps[i]) is Call,
    decreases k,
{
    if k == 0 {
        assert(queried@.skip(0) =~= queried@);
    } else {
        lemma_calls_in_sequence(client, defaults, queried, calls, replies, steps, k - 1);
        assert(replies[k - 1] is Err);
        assert(steps[k - 1]@ == crate::client::after_reply(calls[k - 1]@, replies[k - 1]));
        assert(steps[k - 1] is Call);
        assert(calls[k - 1 + 1]@ == queried@.skip(k - 1).drop_first());
        assert(queried@.skip(k - 1).drop_first() =~= queried@.skip(k));
    }
}

/// A parallel query has one answer of each provider that it went to and of no other, and that is
/// the reply of the provider; of a provider that it went to more than once, the last reply.
pub proof fn law_parallel_call<T, O>(
    client: EthRpcClient<T>,
    defaults: DefaultProviders,
    queried: &[RpcNodeProvider],
    replies: Vec<Result<O, RpcError>>,
    results: MultiCallResults<O>,
)
    requires
        call_ensures(EthRpcClient::<T>::providers, (&client, &defaults), queried),
        replies@.len() == queried@.len(),
        call_ensures(
            EthRpcClient::<T>::parallel_call::<O>,
            (&client, &defaults, replies),
            results,
        ) || call_ensures(
            EthRpcClient::<T>::eth_get_transaction_count::<O>,
            (&client, &defaults, replies),
            results,
        ),
    ensures
        forall|p: RpcNodeProvider| #[trigger]
            results.results@.contains_key(p) <==> queried@.contains(p),
        forall|i: int|
            0 <= i < queried@.len() && (forall|j: int|
                i < j < queried@.len() ==> #[trigger] queried@[j] != queried@[i])
                ==> results.results@[#[trigger] queried@[i]] == replies@[i],
{
    crate::laws::law_every_provider_answers(client, defaults, replies@);
    assert forall|p: RpcNodeProvider| #[trigger]
        results.results@.contains_key(p) <==> queried@.contains(p) by {
        assert(results.results@.dom().contains(p) <==> queried@.to_set().contains(p));
    }
    assert forall|i: int|
        0 <= i < queried@.len() && (forall|j: int|
            i < j < queried@.len() ==> #[trigger] queried@[j] != queried@[i]) implies
        results.results@[#[trigger] queried@[i]] == replies@[i] by {
        crate::laws::law_answers_are_the_replies(client, defaults, replies@, i);
    }
}

/// Putting together answers keeps the last one of each provider, and nothing else.
pub proof fn law_from_non_empty_iter<T>(
    answers: Vec<(RpcNodeProvider, Result<T, RpcError>)>,
    results: MultiCallResults<T>,
)
    requires
        call_ensures(MultiCallResults::<T>::from_non_empty_iter, (answers,), results),
    ensures
        forall|p: RpcNodeProvider| #[trigger]
            results.results@.contains_key(p) <==> exists|i: int|
                0 <= i < answers@.len() && (#[trigger] answers@[i]).0 == p,
        forall|i: int|
            0 <= i < answers@.len() && (forall|j: int|
                i < j < answers@.len() ==> (#[trigger] answers@[j]).0 != answers@[i].0)
                ==> results.results@[(#[trigger] answers@[i]).0] == answers@[i].1,
{
    lemma_collected_pairs(answers@);
}

/// The map that pairs build up.
proof fn lemma_collected_pairs<V>(pairs: Seq<(RpcNodeProvider, V)>)
    ensures
        forall|p: RpcNodeProvider| #[trigger]
            crate::ordered::collected(pairs).contains_key(p) <==> exists|i: int|
                0 <= i < pairs.len() && (#[trigger] pairs[i]).0 == p,
        forall|i: int|
            0 <= i < pairs.len() && (forall|j: int|
                i < j < pairs.len() ==> (#[trigger] pairs[j]).0 != pairs[i].0)
                ==> crate::ordered::collected(pairs)[(#[trigger] pairs[i]).0] == pairs[i].1,
{
    crate::ordered::lemma_collected(pairs);
    assert forall|i: int|
        0 <= i < pairs.len() && (forall|j: int|
            i < j < pairs.len() ==> (#[trigger] pairs[j]).0 != pairs[i].0) implies
        crate::ordered::collected(pairs)[(#[trigger] pairs[i]).0] == pairs[i].1 by {
        crate::laws::law_collected_keeps_answers(pairs, i);
    }
}

/// Building a map from pairs keeps the last one of each provider, and nothing else.
pub proof fn law_from_pairs<V>(
    pairs: Vec<(RpcNodeProvider, V)>,
    m: BTreeMap<RpcNodeProvider, V>,
)
    requires
        call_ensures(from_pairs::<V>, (pairs,), m),
    ensures
        forall|p: RpcNodeProvider| #[trigger]
            m@.contains_key(p) <==> exists|i: int|
                0 <= i < pairs@.len() && (#[trigger] pairs@[i]).0 == p,
        forall|i: int|
            0 <= i < pairs@.len() && (forall|j: int|
                i < j < pairs@.len() ==> (#[trigger] pairs@[j]).0 != pairs@[i].0)
                ==> m@[(#[trigger] pairs@[i]).0] == pairs@[i].1,
{
    lemma_collected_pairs(pairs@);
}

/// Taking a map apart gives each of its pairs once, those of lower providers first.
pub proof fn law_into_entries<V>(
    m: BTreeMap<RpcNodeProvider, V>,
    pairs: Vec<(RpcNodeProvider, V)>,
)
    requires
        call_ensures(into_entries::<V>, (m,), pairs),
    ensures
        pairs@.len() == m@.len(),
        forall|i: int, j: int|
            0 <= i < j < pairs@.len() ==> (#[trigger] pairs@[i]).0 < (#[trigger] pairs@[j]).0,
        forall|i: int|
            0 <= i < pairs@.len() ==> m@.contains_key((#[trigger] pairs@[i]).0)
                && m@[pairs@[i].0] == pairs@[i].1,
        forall|p: RpcNodeProvider| #[trigger]
            m@.contains_key(p) ==> pairs@.contains((p, m@[p])),
{
    crate::ordered::lemma_entries(m@);
}

/// The providers of a map are its keys, each once, lower ones first.
pub proof fn law_ordered_providers<V>(
    m: BTreeMap<RpcNodeProvider, V>,
    providers: Vec<RpcNodeProvider>,
)
    requires
        call_ensures(ordered_providers::<V>, (&m,), providers),
    ensures
        forall|i: int, j: int|
            0 <= i < j < providers@.len() ==> #[trigger] providers@[i] < #[trigger] providers@[j],
        forall|p: RpcNodeProvider| #[trigger]
            m@.contains_key(p) <==> providers@.contains(p),
{
    assert forall|p: RpcNodeProvider| #[trigger]
        m@.contains_key(p) <==> providers@.contains(p) by {
        assert(m@.dom().contains(p) <==> providers@.to_set().contains(p));
    }
}

/// Whether a failed query holds an HTTP outcall error that matches is up to the predicate: of an
/// error that all failed providers share, of whatever kind, it says what the predicate says; of
/// contradicting answers, whether the predicate accepts one of the HTTP outcall errors among them.
pub proof fn law_has_http_outcall_error_matching<T, P: Fn(&HttpOutcallError) -> bool>(
    error: MultiCallError<T>,
    predicate: P,
    r: bool,
)
    requires
        call_ensures(
            MultiCallError::<T>::has_http_outcall_error_matching::<P>,
            (&error, predicate),
            r,
        ),
    ensures
        match error {
            MultiCallError::ConsistentError(RpcError::HttpOutcallError(e)) => call_ensures(
                predicate,
                (&e,),
                r,
            ),
            MultiCallError::ConsistentError(_) => !r,
            MultiCallError::InconsistentResults(report) => {
                &&& r ==> exists|p: RpcNodeProvider|
                    {
                        &&& #[trigger] report.results@.contains_key(p)
                        &&& report.results@[p] matches Err(RpcError::HttpOutcallError(e))
                            && call_ensures(predicate, (&e,), true)
                    }
                &&& !r ==> forall|p: RpcNodeProvider| #[trigger]
                    report.results@.contains_key(p) ==> (report.results@[p] matches Err(
                        RpcError::HttpOutcallError(e),
                    ) ==> call_ensures(predicate, (&e,), false))
            },
        },
{
    match error {
        MultiCallError::ConsistentError(RpcError::HttpOutcallError(e)) => {
            assert(crate::multi_call::holds_http_outcall_error(error@, e));
        },
        MultiCallError::ConsistentError(_) => {},
        MultiCallError::InconsistentResults(report) => {
            assert forall|p: RpcNodeProvider, e: HttpOutcallError|
                #![trigger report.results@.contains_key(p), call_ensures(predicate, (&e,), false)]
                report.results@.contains_key(p) && report.results@[p] == Err::<T, RpcError>(
                    RpcError::HttpOutcallError(e),
                ) && !r implies call_ensures(predicate, (&e,), false) by {
                assert(crate::multi_call::holds_http_outcall_error(error@, e));
            }
        },
    }
}

/// Two errors are consistent, and `==` holds of them, if and only if they are of the same kind and
/// agree in every part.
pub proof fn law_errors_agree_in_every_part(left: RpcError, right: RpcError, r: bool)
    requires
        call_ensures(are_errors_consistent, (&left, &right), r),
    ensures
        r == match (left, right) {
            (RpcError::ProviderError(a), RpcError::ProviderError(b)) => a == b,
            (RpcError::JsonRpcError(a), RpcError::JsonRpcError(b)) => a.code == b.code
                && a.message@ == b.message@,
            (
                RpcError::HttpOutcallError(HttpOutcallError::IcError { code: a, message: m }),
                RpcError::HttpOutcallError(HttpOutcallError::IcError { code: b, message: n }),
            ) => a == b && m@ == n@,
            (
                RpcError::HttpOutcallError(
                    HttpOutcallError::InvalidHttpJsonRpcResponse {
                        status: a,
                        body: m,
                        parsing_error: x,
                    },
                ),
                RpcError::HttpOutcallError(
                    HttpOutcallError::InvalidHttpJsonRpcResponse {
                        status: b,
                        body: n,
                        parsing_error: y,
                    },
                ),
            ) => a == b && m@ == n@ && (x is Some <==> y is Some) && (x is Some ==> x->0@
                == y->0@),
            _ => false,
        },
        r == left.eq_spec(&right),
        r == (left@ == right@),
{
}

/// Wrapping errors of a kind changes nothing about whether `==` holds of them.
pub proof fn law_wrapped_errors_agree(
    a: HttpOutcallError,
    b: HttpOutcallError,
    c: JsonRpcError,
    d: JsonRpcError,
)
    ensures
        a.eq_spec(&b) == RpcError::HttpOutcallError(a).eq_spec(&RpcError::HttpOutcallError(b)),
        c.eq_spec(&d) == RpcError::JsonRpcError(c).eq_spec(&RpcError::JsonRpcError(d)),
{
}

/// An error object is taken over as it is.
pub proof fn law_from_json_rpc_error(error: JsonRpcError, r: RpcError)
    requires
        call_ensures(RpcError::from, (error,), r),
    ensures
        r == RpcError::JsonRpcError(error),
{
}

/// Fee histories are equal if and only if they agree in the oldest block, in every base fee and in
/// every reward.
pub proof fn law_fee_histories_agree_in_every_part(left: FeeHistory, right: FeeHistory)
    ensures
        left.eq_spec(&right) == {
            &&& left.oldest_block.high == right.oldest_block.high
            &&& left.oldest_block.low == right.oldest_block.low
            &&& left.base_fee_per_gas@ == right.base_fee_per_gas@
            &&& left.reward@.len() == right.reward@.len()
            &&& forall|i: int|
                0 <= i < left.reward@.len() ==> (#[trigger] left.reward@[i])@ == right.reward@[i]@
        },
        left.eq_spec(&right) == (left@ == right@),
{
    if left@ == right@ {
        assert forall|i: int| 0 <= i < left.reward@.len() implies (#[trigger] left.reward@[i])@
            == right.reward@[i]@ by {
            assert(crate::eth_rpc::rows(left.reward)[i] == crate::eth_rpc::rows(right.reward)[i]);
        }
        assert(crate::eth_rpc::rows(left.reward).len() == left.reward@.len());
        assert(crate::eth_rpc::rows(right.reward).len() == right.reward@.len());
    } else if left.reward@.len() == right.reward@.len() && (forall|i: int|
        0 <= i < left.reward@.len() ==> (#[trigger] left.reward@[i])@ == right.reward@[i]@) {
        assert(crate::eth_rpc::rows(left.reward) =~= crate::eth_rpc::rows(right.reward));
    }
}

/// Keys are compared by their order, where that is a total order.
pub proof fn law_key_order<K: Ord>(a: K, b: K, r: KeyOrder)
    requires
        vstd::laws_cmp::obeys_cmp::<K>(),
        call_ensures(key_order::<K>, (&a, &b), r),
    ensures
        r is Below <==> vstd::std_specs::cmp::OrdSpec::cmp_spec(&a, &b) is Less,
        r is Same <==> vstd::std_specs::cmp::OrdSpec::cmp_spec(&a, &b) is Equal,
        r is Above <==> vstd::std_specs::cmp::OrdSpec::cmp_spec(&a, &b) is Greater,
{
    crate::key::lemma_key_order(a, b, a);
}

} // verus!
