use std::cell::Cell;

use eth_rpc_client::eth_rpc::RpcError;
use eth_rpc_client::multi_call::{MultiCallError, MultiCallResults};

type Vote = (u64, &'static str);

fn results<T>(answers: Vec<(u64, T)>) -> MultiCallResults<T> {
    MultiCallResults::from_non_empty_iter(answers.into_iter().map(|(p, v)| (p, Ok(v))).collect())
}

fn inconsistent<T>(answers: Vec<(u64, T)>) -> MultiCallError<T> {
    MultiCallError::InconsistentResults(results(answers))
}

fn vote(answers: Vec<(u64, Vote)>) -> Result<Vote, MultiCallError<Vote>> {
    results(answers).reduce_with_strict_majority_by_key(|v| v.0)
}

#[test]
fn one_vote_wins() {
    assert_eq!(vote(vec![(1, (5, "a"))]), Ok((5, "a")));
}

#[test]
fn unanimous_vote_wins() {
    assert_eq!(
        vote(vec![(1, (5, "a")), (2, (5, "a")), (3, (5, "a"))]),
        Ok((5, "a"))
    );
}

#[test]
fn more_than_half_wins() {
    assert_eq!(
        vote(vec![(1, (5, "a")), (2, (6, "b")), (3, (5, "a"))]),
        Ok((5, "a"))
    );
}

#[test]
fn most_votes_win_without_half_of_them() {
    assert_eq!(
        vote(vec![
            (1, (5, "a")),
            (2, (6, "b")),
            (3, (7, "c")),
            (4, (6, "b")),
        ]),
        Ok((6, "b"))
    );
}

#[test]
fn two_keys_with_as_many_votes_tie() {
    assert_eq!(
        vote(vec![
            (1, (5, "a")),
            (2, (6, "b")),
            (3, (5, "a")),
            (4, (6, "b")),
            (5, (9, "c")),
        ]),
        Err(inconsistent(vec![
            (1, (5, "a")),
            (2, (6, "b")),
            (3, (5, "a")),
            (4, (6, "b")),
        ]))
    );
}

#[test]
fn the_two_highest_keys_of_a_wider_tie_are_reported() {
    assert_eq!(
        vote(vec![(1, (5, "a")), (2, (7, "b")), (3, (6, "c"))]),
        Err(inconsistent(vec![(2, (7, "b")), (3, (6, "c"))]))
    );
}

#[test]
fn different_values_with_one_key_clash() {
    assert_eq!(
        vote(vec![
            (1, (5, "a")),
            (2, (6, "b")),
            (3, (5, "a")),
            (4, (5, "x")),
            (5, (5, "y")),
        ]),
        Err(inconsistent(vec![(1, (5, "a")), (3, (5, "a")), (4, (5, "x"))]))
    );
}

#[test]
fn a_clash_of_few_votes_ends_the_vote() {
    assert_eq!(
        vote(vec![
            (1, (5, "a")),
            (2, (5, "a")),
            (3, (6, "b")),
            (4, (6, "c")),
            (5, (5, "a")),
        ]),
        Err(inconsistent(vec![(3, (6, "b")), (4, (6, "c"))]))
    );
}

#[test]
fn a_clash_ends_the_extraction_of_keys() {
    let asked = Cell::new(0u64);
    let r = results(vec![(1, 10u64), (2, 11), (3, 12)]).reduce_with_strict_majority_by_key(|v| {
        asked.set(asked.get() + 1);
        *v / 10
    });
    assert_eq!(r, Err(inconsistent(vec![(1, 10), (2, 11)])));
    assert_eq!(asked.get(), 2);
}

/// Equal whenever the second part is.
#[derive(Debug)]
struct Loose(u64, u64);

impl PartialEq for Loose {
    fn eq(&self, other: &Self) -> bool {
        self.1 == other.1
    }
}

#[test]
fn the_last_vote_for_the_winning_key_is_returned() {
    let r = results(vec![(3, Loose(3, 5)), (1, Loose(1, 5)), (2, Loose(2, 5))])
        .reduce_with_strict_majority_by_key(|v| v.1);
    match r {
        Ok(v) => assert_eq!(v.0, 3),
        Err(e) => panic!("no majority: {:?}", e),
    }
}

#[test]
fn equality_returns_the_value_of_the_lowest_provider() {
    let r = results(vec![(3, Loose(3, 5)), (1, Loose(1, 5)), (2, Loose(2, 5))])
        .reduce_with_equality();
    match r {
        Ok(v) => assert_eq!(v.0, 1),
        Err(e) => panic!("not equal: {:?}", e),
    }
}

#[test]
fn keys_of_any_ordered_type() {
    let r = results(vec![(1, "x"), (2, "y"), (3, "y")])
        .reduce_with_strict_majority_by_key(|v| v.to_string());
    assert_eq!(r, Ok("y"));
}

#[test]
fn errors_come_before_votes() {
    let error = RpcError::ProviderError(
        eth_rpc_client::eth_rpc::ProviderError::MissingRequiredProvider,
    );
    let r = MultiCallResults::from_non_empty_iter(vec![
        (1, Ok(5u64)),
        (2, Ok(5)),
        (3, Err(error.clone())),
    ]);
    assert_eq!(
        r.reduce_with_strict_majority_by_key(|v| *v),
        Err(MultiCallError::ConsistentError(error))
    );
}
