use std::collections::BTreeMap;

use eth_rpc_client::eth_rpc::{
    HttpOutcallError, JsonRpcError, ProviderError, RejectionCode, RpcError,
};
use eth_rpc_client::multi_call::{MultiCallError, MultiCallResults, SingleCallError};
use eth_rpc_client::ordered::{from_pairs, into_entries, ordered_providers};

const ANKR: u64 = 1;
const PUBLIC_NODE: u64 = 2;
const CLOUDFLARE: u64 = 3;

fn json_error(code: i64, message: &str) -> RpcError {
    RpcError::JsonRpcError(JsonRpcError {
        code,
        message: message.to_string(),
    })
}

fn ic_error(code: RejectionCode) -> RpcError {
    RpcError::HttpOutcallError(HttpOutcallError::IcError {
        code,
        message: "rejected".to_string(),
    })
}

fn bad_reply(status: u16) -> RpcError {
    RpcError::HttpOutcallError(HttpOutcallError::InvalidHttpJsonRpcResponse {
        status,
        body: "<html>".to_string(),
        parsing_error: None,
    })
}

fn results<T>(answers: Vec<(u64, Result<T, RpcError>)>) -> MultiCallResults<T> {
    MultiCallResults::from_non_empty_iter(answers)
}

fn inconsistent<T>(answers: Vec<(u64, Result<T, RpcError>)>) -> MultiCallError<T> {
    MultiCallError::InconsistentResults(results(answers))
}

#[test]
fn last_answer_of_a_provider_counts() {
    let r = results(vec![(ANKR, Ok(1u64)), (PUBLIC_NODE, Ok(2)), (ANKR, Ok(3))]);
    let expected: BTreeMap<u64, Result<u64, RpcError>> =
        BTreeMap::from([(ANKR, Ok(3)), (PUBLIC_NODE, Ok(2))]);
    assert_eq!(r.results, expected);
}

#[test]
fn order_of_answers_does_not_matter() {
    let a = results(vec![(ANKR, Ok(1u64)), (PUBLIC_NODE, Ok(2)), (CLOUDFLARE, Ok(3))]);
    let b = results(vec![(CLOUDFLARE, Ok(3u64)), (ANKR, Ok(1)), (PUBLIC_NODE, Ok(2))]);
    assert_eq!(a, b);
}

#[test]
fn taking_apart_and_putting_together() {
    let m: BTreeMap<u64, &str> = BTreeMap::from([(7, "g"), (3, "c"), (5, "e")]);
    assert_eq!(ordered_providers(&m), vec![3, 5, 7]);
    let pairs = into_entries(m.clone());
    assert_eq!(pairs, vec![(3, "c"), (5, "e"), (7, "g")]);
    assert_eq!(from_pairs(pairs), m);
}

#[test]
fn all_ok_returns_the_values() {
    let r = results(vec![(PUBLIC_NODE, Ok(2u64)), (ANKR, Ok(1))]);
    assert_eq!(
        r.all_ok(),
        Ok(BTreeMap::from([(ANKR, 1u64), (PUBLIC_NODE, 2)]))
    );
}

#[test]
fn all_ok_of_nothing_is_nothing() {
    let r: MultiCallResults<u64> = MultiCallResults {
        results: BTreeMap::new(),
    };
    assert_eq!(r.all_ok(), Ok(BTreeMap::new()));
}

#[test]
fn all_ok_reports_the_only_error() {
    let r = results(vec![
        (ANKR, Ok(1u64)),
        (PUBLIC_NODE, Err(json_error(-32700, "parse error"))),
    ]);
    assert_eq!(
        r.all_ok(),
        Err(MultiCallError::ConsistentError(json_error(
            -32700,
            "parse error"
        )))
    );
}

#[test]
fn all_ok_reports_the_same_error_once() {
    for error in [
        json_error(-32000, "nonce too low"),
        ic_error(RejectionCode::SysTransient),
        bad_reply(503),
        RpcError::ProviderError(ProviderError::NoPermission),
    ] {
        let r: MultiCallResults<u64> = results(vec![
            (ANKR, Err(error.clone())),
            (PUBLIC_NODE, Ok(1)),
            (CLOUDFLARE, Err(error.clone())),
        ]);
        assert_eq!(r.all_ok(), Err(MultiCallError::ConsistentError(error)));
    }
}

#[test]
fn all_ok_reports_the_first_errors_that_differ() {
    let r = results(vec![
        (9, Err(ic_error(RejectionCode::CanisterReject))),
        (1, Ok(1u64)),
        (2, Err(ic_error(RejectionCode::SysFatal))),
        (3, Err(ic_error(RejectionCode::SysFatal))),
        (5, Err(bad_reply(500))),
    ]);
    assert_eq!(
        r.all_ok(),
        Err(inconsistent(vec![
            (2, Err(ic_error(RejectionCode::SysFatal))),
            (5, Err(bad_reply(500))),
        ]))
    );
}

#[test]
fn errors_that_differ_in_any_part_are_inconsistent() {
    let pairs = vec![
        (json_error(-1, "a"), json_error(-2, "a")),
        (json_error(-1, "a"), json_error(-1, "b")),
        (bad_reply(500), bad_reply(502)),
        (
            RpcError::ProviderError(ProviderError::TooFewCycles {
                expected: 2,
                received: 1,
            }),
            RpcError::ProviderError(ProviderError::TooFewCycles {
                expected: 2,
                received: 0,
            }),
        ),
        (json_error(-1, "a"), ic_error(RejectionCode::Unknown)),
    ];
    for (left, right) in pairs {
        let r: MultiCallResults<u64> = results(vec![
            (ANKR, Err(left.clone())),
            (PUBLIC_NODE, Err(right.clone())),
        ]);
        let expected = inconsistent(vec![(ANKR, Err(left)), (PUBLIC_NODE, Err(right))]);
        assert_eq!(r.all_ok(), Err(expected));
    }
}

#[test]
fn every_reduction_reports_errors_alike() {
    let answers = || {
        results(vec![
            (ANKR, Err(json_error(-1, "a"))),
            (PUBLIC_NODE, Ok(5u64)),
            (CLOUDFLARE, Err(json_error(-2, "b"))),
        ])
    };
    let expected = answers().all_ok().unwrap_err();
    assert_eq!(answers().reduce_with_equality(), Err(expected.clone()));
    assert_eq!(
        answers().reduce_with_min_by_key(|v| *v),
        Err(expected.clone())
    );
    assert_eq!(
        answers().reduce_with_strict_majority_by_key(|v| *v),
        Err(expected)
    );
}

#[test]
fn equality_of_equal_values() {
    let r = results(vec![
        (ANKR, Ok("x".to_string())),
        (PUBLIC_NODE, Ok("x".to_string())),
        (CLOUDFLARE, Ok("x".to_string())),
    ]);
    assert_eq!(r.reduce_with_equality(), Ok("x".to_string()));
}

#[test]
fn equality_of_one_value() {
    assert_eq!(results(vec![(ANKR, Ok(5u64))]).reduce_with_equality(), Ok(5));
}

#[test]
fn equality_reports_those_that_differ_from_the_lowest_provider() {
    let r = results(vec![
        (1, Ok(10u64)),
        (2, Ok(11)),
        (3, Ok(10)),
        (4, Ok(12)),
    ]);
    assert_eq!(
        r.reduce_with_equality(),
        Err(inconsistent(vec![(1, Ok(10)), (2, Ok(11)), (4, Ok(12))]))
    );
}

#[test]
fn min_takes_the_lowest_key() {
    let r = results(vec![(1, Ok(30u64)), (2, Ok(10)), (3, Ok(20))]);
    assert_eq!(r.reduce_with_min_by_key(|v| *v), Ok(10));
}

#[test]
fn min_takes_the_lowest_provider_of_several() {
    let r = results(vec![
        (1, Ok((5u64, "a"))),
        (2, Ok((4, "b"))),
        (3, Ok((4, "c"))),
        (4, Ok((6, "d"))),
    ]);
    assert_eq!(r.reduce_with_min_by_key(|v| v.0), Ok((4, "b")));
}

#[test]
fn min_asks_for_each_key_once() {
    let mut asked: Vec<u64> = Vec::new();
    let r = results(vec![(3, Ok(1u64)), (1, Ok(2)), (2, Ok(3))]);
    let min = r.reduce_with_min_by_key(|v| {
        asked.push(*v);
        *v
    });
    assert_eq!(min, Ok(1));
    assert_eq!(asked, vec![2, 3, 1]);
}

#[test]
fn matching_a_consistent_error() {
    let error: MultiCallError<u64> = MultiCallError::ConsistentError(bad_reply(500));
    assert!(error.has_http_outcall_error_matching(|e| matches!(
        e,
        HttpOutcallError::InvalidHttpJsonRpcResponse { status: 500, .. }
    )));
    assert!(!error.has_http_outcall_error_matching(|e| matches!(
        e,
        HttpOutcallError::IcError { .. }
    )));
}

#[test]
fn other_errors_never_match() {
    let error: MultiCallError<u64> = MultiCallError::ConsistentError(json_error(1, "a"));
    assert!(!error.has_http_outcall_error_matching(|_| true));
    let error: MultiCallError<u64> = inconsistent(vec![
        (1, Ok(1)),
        (2, Err(json_error(1, "a"))),
        (3, Err(RpcError::ProviderError(ProviderError::ProviderNotFound))),
    ]);
    assert!(!error.has_http_outcall_error_matching(|_| true));
}

#[test]
fn matching_one_of_inconsistent_results() {
    let error: MultiCallError<u64> = inconsistent(vec![
        (1, Ok(1)),
        (2, Err(ic_error(RejectionCode::SysFatal))),
        (3, Err(bad_reply(404))),
    ]);
    assert!(error.has_http_outcall_error_matching(|e| matches!(
        e,
        HttpOutcallError::InvalidHttpJsonRpcResponse { status: 404, .. }
    )));
    assert!(!error.has_http_outcall_error_matching(|e| matches!(
        e,
        HttpOutcallError::InvalidHttpJsonRpcResponse { status: 500, .. }
    )));
}

#[test]
fn http_outcall_errors_of_a_verdict_are_answers() {
    let verdict = results(vec![
        (1, Err(ic_error(RejectionCode::SysFatal))),
        (2, Ok(1u64)),
        (3, Err(bad_reply(404))),
        (4, Err(bad_reply(500))),
    ])
    .all_ok()
    .unwrap_err();
    assert!(verdict.has_http_outcall_error_matching(|e| matches!(
        e,
        HttpOutcallError::InvalidHttpJsonRpcResponse { status: 404, .. }
    )));
    assert!(!verdict.has_http_outcall_error_matching(|e| matches!(
        e,
        HttpOutcallError::InvalidHttpJsonRpcResponse { status: 500, .. }
    )));
}

#[test]
fn single_call_errors_compare_by_value() {
    let a = SingleCallError::JsonRpcError {
        code: 1,
        message: "a".to_string(),
    };
    let b = SingleCallError::HttpOutcallError(HttpOutcallError::IcError {
        code: RejectionCode::NoError,
        message: "a".to_string(),
    });
    assert_eq!(a, a.clone());
    assert_ne!(a, b);
}

#[test]
fn outcomes_are_drawn_from_the_answers() {
    let answers = || results(vec![(1, Ok(10u64)), (2, Ok(11)), (3, Ok(10)), (4, Ok(11))]);
    let given = answers().results;
    assert_eq!(answers().reduce_with_min_by_key(|v| *v), Ok(10));
    for error in [
        answers().reduce_with_equality().unwrap_err(),
        answers()
            .reduce_with_strict_majority_by_key(|v| *v)
            .unwrap_err(),
    ] {
        match error {
            MultiCallError::InconsistentResults(report) => {
                assert!(report.results.len() >= 2);
                for (provider, answer) in &report.results {
                    assert_eq!(given.get(provider), Some(answer));
                }
            }
            MultiCallError::ConsistentError(e) => panic!("no provider failed: {:?}", e),
        }
    }
}

#[test]
fn the_first_match_ends_the_search() {
    let error: MultiCallError<u64> = inconsistent(vec![
        (3, Err(bad_reply(500))),
        (1, Err(bad_reply(404))),
        (2, Ok(1)),
    ]);
    assert!(error.has_http_outcall_error_matching(|e| match e {
        HttpOutcallError::InvalidHttpJsonRpcResponse { status, .. } => {
            assert_eq!(*status, 404);
            true
        }
        HttpOutcallError::IcError { .. } => false,
    }));
}
