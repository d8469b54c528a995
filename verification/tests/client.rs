use eth_rpc_client::client::{
    DefaultTransport, EthRpcClient, SequentialCall, SequentialStep, State,
};
use eth_rpc_client::eth_rpc::{
    are_errors_consistent, FeeHistory, HttpOutcallError, JsonRpcError, ProviderError, Quantity,
    RejectionCode, ResponseSizeEstimate, RpcError,
};
use eth_rpc_client::key::{key_order, KeyOrder};
use eth_rpc_client::multi_call::{MultiCallError, MultiCallResults};
use eth_rpc_client::providers::{DefaultProviders, EthereumNetwork};

type Client = EthRpcClient<DefaultTransport>;

fn defaults() -> DefaultProviders {
    DefaultProviders {
        mainnet: vec![1, 2, 3],
        sepolia: vec![11, 12],
    }
}

fn mainnet() -> Client {
    EthRpcClient::new(EthereumNetwork::Mainnet, None)
}

fn sepolia() -> Client {
    EthRpcClient::new(EthereumNetwork::Sepolia, None)
}

fn error(code: i64) -> RpcError {
    RpcError::from(JsonRpcError {
        code,
        message: "failed".to_string(),
    })
}

fn down() -> RpcError {
    RpcError::HttpOutcallError(HttpOutcallError::IcError {
        code: RejectionCode::SysTransient,
        message: "no reply".to_string(),
    })
}

fn number(low: u128) -> Quantity {
    Quantity { high: 0, low }
}

fn history(oldest_block: u128, fee: u128) -> FeeHistory {
    FeeHistory {
        oldest_block: number(oldest_block),
        base_fee_per_gas: vec![number(fee)],
        reward: vec![vec![number(1), number(2)], vec![]],
    }
}

/// Feeds replies to a query in sequence; gives the providers that were queried and the result.
fn run(
    call: SequentialCall,
    replies: Vec<Result<u64, RpcError>>,
) -> (Vec<u64>, Result<u64, RpcError>) {
    let mut call = call;
    let mut queried = Vec::new();
    for reply in replies {
        queried.push(call.provider());
        match call.on_reply(reply) {
            SequentialStep::Call(next) => call = next,
            SequentialStep::Return(result) => return (queried, result),
        }
    }
    panic!("more calls than replies")
}

#[test]
fn providers_of_the_network() {
    assert_eq!(mainnet().providers(&defaults()), &[1, 2, 3]);
    assert_eq!(sepolia().providers(&defaults()), &[11, 12]);
}

#[test]
fn own_providers_come_first() {
    let client: Client = EthRpcClient::new(EthereumNetwork::Mainnet, Some(vec![7]));
    assert_eq!(client.providers(&defaults()), &[7]);
    assert_eq!(client.clone(), client);
}

#[test]
fn client_of_the_state() {
    let state = State {
        ethereum_network: EthereumNetwork::Sepolia,
    };
    assert_eq!(state.ethereum_network(), EthereumNetwork::Sepolia);
    assert_eq!(Client::from_state(&state), sepolia());
}

#[test]
fn sequence_ends_with_the_first_ok() {
    let call = mainnet().sequential_call_until_ok(&defaults());
    let (queried, result) = run(call, vec![Err(down()), Ok(5), Ok(6)]);
    assert_eq!(queried, vec![1, 2]);
    assert_eq!(result, Ok(5));
}

#[test]
fn sequence_ends_at_once_with_an_ok() {
    let call = mainnet().eth_send_raw_transaction(&defaults());
    let (queried, result) = run(call, vec![Ok(4), Err(down()), Ok(6)]);
    assert_eq!(queried, vec![1]);
    assert_eq!(result, Ok(4));
}

#[test]
fn sequence_without_ok_ends_with_the_last_error() {
    let call = mainnet().sequential_call_until_ok(&defaults());
    let last = RpcError::ProviderError(ProviderError::NoPermission);
    let missing = RpcError::ProviderError(ProviderError::ProviderNotFound);
    let (queried, result) = run(call, vec![Err(down()), Err(missing), Err(last.clone())]);
    assert_eq!(queried, vec![1, 2, 3]);
    assert_eq!(result, Err(last));
}

#[test]
fn sequence_ends_with_a_json_rpc_error() {
    let call = sepolia().sequential_call_until_ok(&defaults());
    let (queried, result) = run(call, vec![Err(error(7)), Ok(5)]);
    assert_eq!(queried, vec![11]);
    assert_eq!(result, Err(error(7)));

    let call = mainnet().eth_send_raw_transaction(&defaults());
    let (queried, result) = run(call, vec![Err(down()), Err(error(7)), Ok(5)]);
    assert_eq!(queried, vec![1, 2]);
    assert_eq!(result, Err(error(7)));
}

#[test]
fn sequence_ends_with_the_last_provider() {
    let client: Client = EthRpcClient::new(EthereumNetwork::Mainnet, Some(vec![9]));
    let call = client.sequential_call_until_ok(&defaults());
    let (queried, result) = run(call, vec![Err(down())]);
    assert_eq!(queried, vec![9]);
    assert_eq!(result, Err(down()));
}

#[test]
fn parallel_call_keeps_each_reply() {
    let r = mainnet().parallel_call(&defaults(), vec![Ok(10u64), Err(error(1)), Ok(30)]);
    assert_eq!(
        r,
        MultiCallResults::from_non_empty_iter(vec![(1, Ok(10)), (2, Err(error(1))), (3, Ok(30))])
    );
}

#[test]
fn parallel_call_keeps_the_last_reply_of_a_provider() {
    let client: Client = EthRpcClient::new(EthereumNetwork::Mainnet, Some(vec![4, 5, 4]));
    let r = client.parallel_call(&defaults(), vec![Ok(10u64), Ok(20), Ok(30)]);
    assert_eq!(
        r,
        MultiCallResults::from_non_empty_iter(vec![(4, Ok(30)), (5, Ok(20))])
    );
}

#[test]
fn logs_that_agree() {
    let request = mainnet().eth_get_logs_request("params");
    assert_eq!(request.method, "eth_getLogs");
    assert_eq!(request.params, vec!["params"]);
    assert_eq!(request.response_size_estimate.get(), 100);
    let replies = vec![Ok(vec![1u64, 2]), Ok(vec![1, 2]), Ok(vec![1, 2])];
    assert_eq!(mainnet().eth_get_logs(&defaults(), replies), Ok(vec![1, 2]));
}

#[test]
fn logs_that_do_not_agree() {
    let replies = vec![Ok(vec![1u64, 2]), Ok(vec![1, 2]), Ok(vec![])];
    assert_eq!(
        mainnet().eth_get_logs(&defaults(), replies),
        Err(MultiCallError::InconsistentResults(
            MultiCallResults::from_non_empty_iter(vec![(1, Ok(vec![1, 2])), (3, Ok(vec![]))])
        ))
    );
}

#[test]
fn blocks() {
    let request = mainnet().eth_get_block_by_number_request("latest");
    assert_eq!(request.method, "eth_getBlockByNumber");
    assert_eq!(request.params.block, "latest");
    assert!(!request.params.include_full_transactions);
    assert_eq!(request.response_size_estimate.get(), 24576);
    let request = sepolia().eth_get_block_by_number_request("latest");
    assert_eq!(request.response_size_estimate.get(), 12288);
    assert_eq!(
        sepolia().eth_get_block_by_number(&defaults(), vec![Ok("block"), Ok("block")]),
        Ok("block")
    );
    assert_eq!(
        sepolia().eth_get_block_by_number(&defaults(), vec![Ok("block"), Err(error(3))]),
        Err(MultiCallError::ConsistentError(error(3)))
    );
}

#[test]
fn receipts() {
    let request = mainnet().eth_get_transaction_receipt_request([7u8; 32]);
    assert_eq!(request.method, "eth_getTransactionReceipt");
    assert_eq!(request.params, vec![[7u8; 32]]);
    assert_eq!(request.response_size_estimate.get(), 700);
    let replies: Vec<Result<Option<u64>, RpcError>> = vec![Ok(None), Ok(None)];
    assert_eq!(
        sepolia().eth_get_transaction_receipt(&defaults(), replies),
        Ok(None)
    );
    assert_eq!(
        sepolia().eth_get_transaction_receipt(&defaults(), vec![Ok(None), Ok(Some(1u64))]),
        Err(MultiCallError::InconsistentResults(
            MultiCallResults::from_non_empty_iter(vec![(11, Ok(None)), (12, Ok(Some(1)))])
        ))
    );
}

#[test]
fn fee_history_of_most_providers() {
    let request = mainnet().eth_fee_history_request((5u64, "latest"));
    assert_eq!(request.method, "eth_feeHistory");
    assert_eq!(request.params, (5, "latest"));
    assert_eq!(request.response_size_estimate.get(), 512);
    let replies = vec![Ok(history(7, 1)), Ok(history(8, 2)), Ok(history(8, 2))];
    assert_eq!(
        mainnet().eth_fee_history(&defaults(), replies),
        Ok(history(8, 2))
    );
}

#[test]
fn fee_histories_that_clash() {
    let replies = vec![Ok(history(8, 1)), Ok(history(7, 3)), Ok(history(8, 2))];
    assert_eq!(
        mainnet().eth_fee_history(&defaults(), replies),
        Err(MultiCallError::InconsistentResults(
            MultiCallResults::from_non_empty_iter(vec![
                (1, Ok(history(8, 1))),
                (3, Ok(history(8, 2))),
            ])
        ))
    );
}

#[test]
fn fee_histories_that_tie() {
    let replies = vec![Ok(history(8, 1)), Ok(history(7, 3)), Ok(history(9, 2))];
    assert_eq!(
        mainnet().eth_fee_history(&defaults(), replies),
        Err(MultiCallError::InconsistentResults(
            MultiCallResults::from_non_empty_iter(vec![
                (1, Ok(history(8, 1))),
                (3, Ok(history(9, 2))),
            ])
        ))
    );
}

#[test]
fn fee_histories_differ_in_any_part() {
    let base = history(8, 1);
    let mut other = history(8, 1);
    other.reward[1].push(number(0));
    assert_ne!(base, other);
    other.reward[1].clear();
    assert_eq!(base, other);
    other.reward.pop();
    assert_ne!(base, other);
    assert_ne!(base, history(8, 2));
    assert_ne!(base, history(9, 1));
}

#[test]
fn raw_transactions() {
    let request = mainnet().eth_send_raw_transaction_request("0xf8".to_string());
    assert_eq!(request.method, "eth_sendRawTransaction");
    assert_eq!(request.params, vec!["0xf8".to_string()]);
    assert_eq!(request.response_size_estimate.get(), 256);
}

#[test]
fn transaction_counts() {
    let request = mainnet().eth_get_transaction_count_request("0xabc");
    assert_eq!(request.method, "eth_getTransactionCount");
    assert_eq!(request.params, "0xabc");
    assert_eq!(request.response_size_estimate.get(), 50);
    let counts = sepolia().eth_get_transaction_count(&defaults(), vec![Ok(4u64), Ok(3)]);
    assert_eq!(
        counts,
        MultiCallResults::from_non_empty_iter(vec![(11, Ok(4)), (12, Ok(3))])
    );
    assert_eq!(counts.reduce_with_min_by_key(|count| *count), Ok(3));
}

#[test]
fn halves_are_ordered_as_numbers() {
    let small = number(u128::MAX);
    let large = Quantity { high: 1, low: 0 };
    assert_eq!(small.halves(), (0, u128::MAX));
    assert_eq!(key_order(&small.halves(), &large.halves()), KeyOrder::Below);
    assert_eq!(key_order(&large.halves(), &small.halves()), KeyOrder::Above);
    assert_eq!(key_order(&large.halves(), &large.halves()), KeyOrder::Same);
}

#[test]
fn consistency_of_errors() {
    assert!(are_errors_consistent(&error(1), &error(1)));
    assert!(!are_errors_consistent(&error(1), &error(2)));
}

#[test]
fn size_estimates() {
    assert_eq!(ResponseSizeEstimate::new(50).get(), 50);
}
