//! The providers that a query can go to.

use vstd::prelude::*;

verus! {

/// Names a provider by its place in the order in which providers are reported.
pub type RpcNodeProvider = u64;

/// An Ethereum network.
#[derive(Clone, Copy, Debug, PartialEq, Eq, Structural)]
pub enum EthereumNetwork {
    Mainnet,
    Sepolia,
}

/// The providers to query where a client was given none of its own.
#[derive(Clone, Debug)]
pub struct DefaultProviders {
    pub mainnet: Vec<RpcNodeProvider>,
    pub sepolia: Vec<RpcNodeProvider>,
}

} // verus!
