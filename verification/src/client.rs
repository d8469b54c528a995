//! Queries to several Ethereum JSON-RPC providers: what to ask whom, and what the replies mean.

use std::marker::PhantomData;

use vstd::prelude::*;

use crate::eth_rpc::{
    FeeHistory, GetBlockByNumberParams, ResponseSizeEstimate, RpcError, RpcRequest,
};
use crate::multi_call::{MultiCallError, MultiCallErrorView, MultiCallResults};
use crate::providers::{DefaultProviders, EthereumNetwork, RpcNodeProvider};

verus! {

broadcast use vstd::laws_cmp::group_laws_cmp;

/// The part of the service's state that a client is made from.
#[derive(Clone, Debug)]
pub struct State {
    pub ethereum_network: EthereumNetwork,
}

impl State {
    pub fn ethereum_network(&self) -> (r: EthereumNetwork)
        ensures
            r == self.ethereum_network,
    {
        self.ethereum_network
    }
}

/// The transport of clients that name no other.
#[derive(Clone, Debug, PartialEq, Eq)]
pub struct DefaultTransport;

/// Queries providers over a transport `T`.
#[derive(Debug, PartialEq, Eq)]
pub struct EthRpcClient<T> {
    chain: EthereumNetwork,
    providers: Option<Vec<RpcNodeProvider>>,
    phantom: PhantomData<T>,
}

impl<T> Clone for EthRpcClient<T> {
    fn clone(&self) -> (r: Self)
        ensures
            r.network() == self.network(),
            r.own_providers() == self.own_providers(),
    {
        let providers = match &self.providers {
            Some(own) => {
                let copy = own.clone();
                assert(copy@ =~= own@);
                Some(copy)
            },
            None => None,
        };
        EthRpcClient { chain: self.chain, providers, phantom: PhantomData }
    }
}

/// The members of an optional list of providers.
pub open spec fn listed(providers: Option<Vec<RpcNodeProvider>>) -> Option<Seq<RpcNodeProvider>> {
    match providers {
        Some(list) => Some(list@),
        None => None,
    }
}

/// Each provider with its reply.
pub open spec fn answered<O>(
    providers: Seq<RpcNodeProvider>,
    replies: Seq<Result<O, RpcError>>,
) -> Seq<(RpcNodeProvider, Result<O, RpcError>)> {
    Seq::new(providers.len(), |i: int| (providers[i], replies[i]))
}

/// The number of the oldest block of each fee history.
pub open spec fn oldest_blocks(votes: Seq<(RpcNodeProvider, FeeHistory)>) -> Seq<(u128, u128)> {
    votes.map_values(
        |v: (RpcNodeProvider, FeeHistory)| (v.1.oldest_block.high, v.1.oldest_block.low),
    )
}

/// How fee histories reduce: to the verdict on the errors, if there are any, or else by strict
/// majority of the oldest block. The vote ends with the first fee history, if any, that
/// contradicts an earlier one.
pub open spec fn fee_history_agreed_upon(
    results: Map<RpcNodeProvider, Result<FeeHistory, RpcError>>,
    r: Result<FeeHistory, MultiCallErrorView<FeeHistory>>,
) -> bool {
    match crate::multi_call::failure(results) {
        Some(e) => r == Err::<FeeHistory, MultiCallErrorView<FeeHistory>>(e),
        None => {
            let votes = crate::ordered::entries(crate::multi_call::ok_values(results));
            exists|n: int|
                0 <= n <= votes.len() && crate::majority::reduced_by_majority(
                    votes,
                    #[trigger] oldest_blocks(votes).take(n),
                    r,
                )
        },
    }
}

impl<T> EthRpcClient<T> {
    /// The network that is queried.
    pub closed spec fn network(self) -> EthereumNetwork {
        self.chain
    }

    /// The providers that the client was given.
    pub closed spec fn own_providers(self) -> Option<Seq<RpcNodeProvider>> {
        listed(self.providers)
    }

    /// The providers that are queried: those that the client was given, or else those of its
    /// network.
    pub open spec fn queried(self, defaults: DefaultProviders) -> Seq<RpcNodeProvider> {
        match self.own_providers() {
            Some(own) => own,
            None => match self.network() {
                EthereumNetwork::Mainnet => defaults.mainnet@,
                EthereumNetwork::Sepolia => defaults.sepolia@,
            },
        }
    }

    /// The answers that the replies of the queried providers amount to.
    pub open spec fn answers<O>(
        self,
        defaults: DefaultProviders,
        replies: Seq<Result<O, RpcError>>,
    ) -> Map<RpcNodeProvider, Result<O, RpcError>> {
        crate::ordered::collected(answered(self.queried(defaults), replies))
    }

    pub fn new(chain: EthereumNetwork, providers: Option<Vec<RpcNodeProvider>>) -> (r: Self)
        ensures
            r.network() == chain,
            r.own_providers() == listed(providers),
    {
        EthRpcClient { chain, providers, phantom: PhantomData }
    }

    /// A client for the network of the service, which queries the default providers.
    pub fn from_state(state: &State) -> (r: Self)
        ensures
            r.network() == state.ethereum_network,
            r.own_providers() is None,
    {
        Self::new(state.ethereum_network(), None)
    }

    /// The providers to query.
    pub fn providers<'a>(&'a self, defaults: &'a DefaultProviders) -> (r: &'a [RpcNodeProvider])
        ensures
            r@ == self.queried(*defaults),
    {
        match &self.providers {
            Some(own) => own.as_slice(),
            None => match self.chain {
                EthereumNetwork::Mainnet => defaults.mainnet.as_slice(),
                EthereumNetwork::Sepolia => defaults.sepolia.as_slice(),
            },
        }
    }

    /// Starts to query the providers in sequence until one returns an ok result
    /// (which could still be a JSON-RPC error: the provider did answer).
    /// If none of the providers returns an ok result, the last error is returned.
    /// This is useful in case a provider is temporarily down but should only be for
    /// querying data that is **not** critical since the returned value comes from a single
    /// provider.
    pub fn sequential_call_until_ok(&self, defaults: &DefaultProviders) -> (r: SequentialCall)
        requires
            self.queried(*defaults).len() > 0,
        ensures
            r.well_formed(),
            r@ == self.queried(*defaults),
    {
        let queried = self.providers(defaults);
        let mut providers: Vec<RpcNodeProvider> = Vec::new();
        let mut i: usize = 0;
        while i < queried.len()
            invariant
                i <= queried@.len(),
                providers@ == queried@.take(i as int),
            decreases queried@.len() - i,
        {
            providers.push(queried[i]);
            i += 1;
            assert(providers@ =~= queried@.take(i as int));
        }
        assert(queried@.take(i as int) =~= queried@);
        let r = SequentialCall { providers, position: 0 };
        assert(r@ =~= queried@);
        r
    }

    /// Puts together the replies of all providers, one for each, in the order of the providers.
    /// It's up to the caller to decide how to handle the results, which could be inconsistent
    /// among one another (e.g., if different providers gave different responses).
    /// This is useful for querying data that is critical for the system to ensure that there is no
    /// single point of failure.
    pub fn parallel_call<O>(
        &self,
        defaults: &DefaultProviders,
        replies: Vec<Result<O, RpcError>>,
    ) -> (r: MultiCallResults<O>)
        requires
            self.queried(*defaults).len() > 0,
            replies@.len() == self.queried(*defaults).len(),
        ensures
            r.well_formed(),
            r@ == self.answers(*defaults, replies@),
    {
        let queried = self.providers(defaults);
        let ghost all = replies@;
        let mut answers: Vec<(RpcNodeProvider, Result<O, RpcError>)> = Vec::new();
        let mut i: usize = 0;
        for reply in it: replies.into_iter()
            invariant
                it.seq() == all,
                all.len() == queried@.len(),
                i == it.index(),
                answers@ == answered(queried@, all).take(i as int),
        {
            answers.push((queried[i], reply));
            i += 1;
            assert(answers@ =~= answered(queried@, all).take(i as int));
        }
        assert(answered(queried@, all).take(i as int) =~= answered(queried@, all));
        MultiCallResults::from_non_empty_iter(answers)
    }

    /// The query for the logs that match some parameters.
    pub fn eth_get_logs_request<GetLogsParam>(&self, params: GetLogsParam) -> (r: RpcRequest<
        Vec<GetLogsParam>,
    >)
        ensures
            r.method@ == "eth_getLogs"@,
            r.params@ == seq![params],
            r.response_size_estimate@ == 100,
    {
        // We expect most of the calls to contain zero events.
        RpcRequest {
            method: "eth_getLogs".to_string(),
            params: vec![params],
            response_size_estimate: ResponseSizeEstimate::new(100),
        }
    }

    /// The logs that all providers agree on.
    pub fn eth_get_logs<LogEntry: PartialEq>(
        &self,
        defaults: &DefaultProviders,
        replies: Vec<Result<Vec<LogEntry>, RpcError>>,
    ) -> (r: Result<Vec<LogEntry>, MultiCallError<Vec<LogEntry>>>)
        requires
            self.queried(*defaults).len() > 0,
            replies@.len() == self.queried(*defaults).len(),
        ensures
            crate::multi_call::agreed_upon(
                self.answers(*defaults, replies@),
                crate::multi_call::verdict(r),
            ),
            r matches Err(e) ==> e.well_formed(),
    {
        self.parallel_call(defaults, replies).reduce_with_equality()
    }

    /// The query for a block.
    pub fn eth_get_block_by_number_request<BlockSpec>(&self, block: BlockSpec) -> (r: RpcRequest<
        GetBlockByNumberParams<BlockSpec>,
    >)
        ensures
            r.method@ == "eth_getBlockByNumber"@,
            r.params.block == block,
            !r.params.include_full_transactions,
            r.response_size_estimate@ == match self.network() {
                EthereumNetwork::Sepolia => 12 * 1024int,
                EthereumNetwork::Mainnet => 24 * 1024int,
            },
    {
        let expected_block_size: u64 = match self.chain {
            EthereumNetwork::Sepolia => 12 * 1024,
            EthereumNetwork::Mainnet => 24 * 1024,
        };
        RpcRequest {
            method: "eth_getBlockByNumber".to_string(),
            params: GetBlockByNumberParams { block, include_full_transactions: false },
            response_size_estimate: ResponseSizeEstimate::new(expected_block_size),
        }
    }

    /// The block that all providers agree on.
    pub fn eth_get_block_by_number<Block: PartialEq>(
        &self,
        defaults: &DefaultProviders,
        replies: Vec<Result<Block, RpcError>>,
    ) -> (r: Result<Block, MultiCallError<Block>>)
        requires
            self.queried(*defaults).len() > 0,
            replies@.len() == self.queried(*defaults).len(),
        ensures
            crate::multi_call::agreed_upon(
                self.answers(*defaults, replies@),
                crate::multi_call::verdict(r),
            ),
            r matches Err(e) ==> e.well_formed(),
    {
        self.parallel_call(defaults, replies).reduce_with_equality()
    }

    /// The query for the receipt of a transaction.
    pub fn eth_get_transaction_receipt_request<Hash>(&self, tx_hash: Hash) -> (r: RpcRequest<
        Vec<Hash>,
    >)
        ensures
            r.method@ == "eth_getTransactionReceipt"@,
            r.params@ == seq![tx_hash],
            r.response_size_estimate@ == 700,
    {
        RpcRequest {
            method: "eth_getTransactionReceipt".to_string(),
            params: vec![tx_hash],
            response_size_estimate: ResponseSizeEstimate::new(700),
        }
    }

    /// The receipt, if any, that all providers agree on.
    pub fn eth_get_transaction_receipt<TransactionReceipt: PartialEq>(
        &self,
        defaults: &DefaultProviders,
        replies: Vec<Result<Option<TransactionReceipt>, RpcError>>,
    ) -> (r: Result<Option<TransactionReceipt>, MultiCallError<Option<TransactionReceipt>>>)
        requires
            self.queried(*defaults).len() > 0,
            replies@.len() == self.queried(*defaults).len(),
        ensures
            crate::multi_call::agreed_upon(
                self.answers(*defaults, replies@),
                crate::multi_call::verdict(r),
            ),
            r matches Err(e) ==> e.well_formed(),
    {
        self.parallel_call(defaults, replies).reduce_with_equality()
    }

    /// The query for a fee history.
    pub fn eth_fee_history_request<FeeHistoryParams>(&self, params: FeeHistoryParams) -> (r:
        RpcRequest<FeeHistoryParams>)
        ensures
            r.method@ == "eth_feeHistory"@,
            r.params == params,
            r.response_size_estimate@ == 512,
    {
        // A typical response is slightly above 300 bytes.
        RpcRequest {
            method: "eth_feeHistory".to_string(),
            params,
            response_size_estimate: ResponseSizeEstimate::new(512),
        }
    }

    /// The fee history of the oldest block that most providers report.
    pub fn eth_fee_history(
        &self,
        defaults: &DefaultProviders,
        replies: Vec<Result<FeeHistory, RpcError>>,
    ) -> (r: Result<FeeHistory, MultiCallError<FeeHistory>>)
        requires
            self.queried(*defaults).len() > 0,
            replies@.len() == self.queried(*defaults).len(),
        ensures
            fee_history_agreed_upon(
                self.answers(*defaults, replies@),
                crate::multi_call::verdict(r),
            ),
            r matches Err(e) ==> e.well_formed(),
    {
        let results = self.parallel_call(defaults, replies);
        let ghost answers = results@;
        let oldest_block = |history: &FeeHistory| -> (key: (u128, u128))
            ensures
                key == (history.oldest_block.high, history.oldest_block.low),
            { history.oldest_block.halves() };
        let r = results.reduce_with_strict_majority_by_key(oldest_block);
        proof {
            if crate::multi_call::failure(answers) is None {
                let votes = crate::ordered::entries(crate::multi_call::ok_values(answers));
                assert(crate::key::totally_ordered::<(u128, u128)>());
                let keys = choose|keys: Seq<(u128, u128)>| #[trigger]
                    crate::multi_call::extracted(oldest_block, votes, keys)
                        && crate::majority::reduced_by_majority(
                        votes,
                        keys,
                        crate::multi_call::verdict(r),
                    );
                assert(keys =~= oldest_blocks(votes).take(keys.len() as int));
            }
        }
        r
    }

    /// The query that submits a signed transaction. It goes to the providers in sequence.
    pub fn eth_send_raw_transaction_request(&self, raw_signed_transaction_hex: String) -> (r:
        RpcRequest<Vec<String>>)
        ensures
            r.method@ == "eth_sendRawTransaction"@,
            r.params@ == seq![raw_signed_transaction_hex],
            r.response_size_estimate@ == 256,
    {
        // A successful reply is under 256 bytes, but we expect most calls to end with an error
        // since we submit the same transaction from multiple nodes.
        RpcRequest {
            method: "eth_sendRawTransaction".to_string(),
            params: vec![raw_signed_transaction_hex],
            response_size_estimate: ResponseSizeEstimate::new(256),
        }
    }

    /// Starts to submit a signed transaction: to one provider after another, until one
    /// returns an ok result or a JSON-RPC error.
    pub fn eth_send_raw_transaction(&self, defaults: &DefaultProviders) -> (r: SequentialCall)
        requires
            self.queried(*defaults).len() > 0,
        ensures
            r.well_formed(),
            r@ == self.queried(*defaults),
    {
        self.sequential_call_until_ok(defaults)
    }

    /// The query for the number of transactions of an account.
    pub fn eth_get_transaction_count_request<GetTransactionCountParams>(
        &self,
        params: GetTransactionCountParams,
    ) -> (r: RpcRequest<GetTransactionCountParams>)
        ensures
            r.method@ == "eth_getTransactionCount"@,
            r.params == params,
            r.response_size_estimate@ == 50,
    {
        RpcRequest {
            method: "eth_getTransactionCount".to_string(),
            params,
            response_size_estimate: ResponseSizeEstimate::new(50),
        }
    }

    /// The number of transactions that each provider reports.
    pub fn eth_get_transaction_count<TransactionCount>(
        &self,
        defaults: &DefaultProviders,
        replies: Vec<Result<TransactionCount, RpcError>>,
    ) -> (r: MultiCallResults<TransactionCount>)
        requires
            self.queried(*defaults).len() > 0,
            replies@.len() == self.queried(*defaults).len(),
        ensures
            r.well_formed(),
            r@ == self.answers(*defaults, replies@),
    {
        self.parallel_call(defaults, replies)
    }
}

/// A query that goes to one provider after another until one returns an ok result or a JSON-RPC
/// error.
#[derive(Clone, Debug)]
pub struct SequentialCall {
    providers: Vec<RpcNodeProvider>,
    position: usize,
}

/// What to do after a reply to a query in sequence.
#[derive(Debug)]
pub enum SequentialStep<O> {
    /// Query the next provider.
    Call(SequentialCall),
    /// Return this result.
    Return(Result<O, RpcError>),
}

/// What a `SequentialStep` says: the providers that are left to query, or the result.
pub enum SequentialStepView<O> {
    Call(Seq<RpcNodeProvider>),
    Return(Result<O, RpcError>),
}

impl<O> View for SequentialStep<O> {
    type V = SequentialStepView<O>;

    open spec fn view(&self) -> SequentialStepView<O> {
        match *self {
            SequentialStep::Call(call) => SequentialStepView::Call(call@),
            SequentialStep::Return(r) => SequentialStepView::Return(r),
        }
    }
}

/// Whether a reply ends a query in sequence: the provider answered, with a value or with a JSON-RPC
/// error.
pub open spec fn ends_sequence<O>(reply: Result<O, RpcError>) -> bool {
    reply matches Err(e) ==> e is JsonRpcError
}

/// What follows when the first of the providers that are left replies.
pub open spec fn after_reply<O>(
    left: Seq<RpcNodeProvider>,
    reply: Result<O, RpcError>,
) -> SequentialStepView<O> {
    if ends_sequence(reply) || left.len() == 1 {
        SequentialStepView::Return(reply)
    } else {
        SequentialStepView::Call(left.drop_first())
    }
}

/// What a query in sequence returns when the providers that are left reply one after another, and
/// how many of them it queries.
pub open spec fn sequential_result<O>(
    left: Seq<RpcNodeProvider>,
    replies: Seq<Result<O, RpcError>>,
) -> (Result<O, RpcError>, nat)
    decreases left.len(),
{
    match after_reply(left, replies[0]) {
        SequentialStepView::Call(rest) if left.len() > 0 => {
            let (r, calls) = sequential_result(rest, replies.drop_first());
            (r, calls + 1)
        },
        SequentialStepView::Call(_) => (replies[0], 0),
        SequentialStepView::Return(r) => (r, 1),
    }
}

impl View for SequentialCall {
    type V = Seq<RpcNodeProvider>;

    /// The providers that are left to query, the current one first.
    closed spec fn view(&self) -> Seq<RpcNodeProvider> {
        self.providers@.skip(self.position as int)
    }
}

impl SequentialCall {
    /// There is a provider to query.
    pub closed spec fn well_formed(self) -> bool {
        self.position < self.providers@.len()
    }

    /// The provider to query now.
    pub fn provider(&self) -> (r: RpcNodeProvider)
        requires
            self.well_formed(),
        ensures
            self@.len() > 0,
            r == self@[0],
    {
        self.providers[self.position]
    }

    /// Takes the reply of the provider that was queried.
    pub fn on_reply<O>(self, reply: Result<O, RpcError>) -> (r: SequentialStep<O>)
        requires
            self.well_formed(),
        ensures
            r@ == after_reply(self@, reply),
            r matches SequentialStep::Call(call) ==> call.well_formed(),
    {
        match reply {
            Ok(value) => SequentialStep::Return(Ok(value)),
            Err(RpcError::JsonRpcError(error)) => {
                SequentialStep::Return(Err(RpcError::from(error)))
            },
            Err(error) => {
                if self.position == self.providers.len() - 1 {
                    SequentialStep::Return(Err(error))
                } else {
                    let call = SequentialCall {
                        providers: self.providers,
                        position: self.position + 1,
                    };
                    assert(call@ =~= self@.drop_first());
                    SequentialStep::Call(call)
                }
            },
        }
    }
}

} // verus!
