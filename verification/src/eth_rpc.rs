//! What a single JSON-RPC call sends, and how it can fail.

use vstd::prelude::*;

verus! {

/// Why the platform did not deliver an HTTP reply.
#[derive(Clone, Copy, Debug, PartialEq, Eq, Structural)]
pub enum RejectionCode {
    NoError,
    SysFatal,
    SysTransient,
    DestinationInvalid,
    CanisterReject,
    CanisterError,
    Unknown,
}

/// A call that brought no readable JSON-RPC reply.
#[derive(Clone, Debug)]
pub enum HttpOutcallError {
    /// The platform refused or lost the request.
    IcError { code: RejectionCode, message: String },
    /// The reply was no JSON-RPC reply.
    InvalidHttpJsonRpcResponse { status: u16, body: String, parsing_error: Option<String> },
}

/// What an `HttpOutcallError` says.
pub enum HttpOutcallErrorView {
    IcError { code: RejectionCode, message: Seq<char> },
    InvalidHttpJsonRpcResponse {
        status: u16,
        body: Seq<char>,
        parsing_error: Option<Seq<char>>,
    },
}

/// The text of an optional string.
pub open spec fn optional_text(text: Option<String>) -> Option<Seq<char>> {
    match text {
        Some(s) => Some(s@),
        None => None,
    }
}

impl View for HttpOutcallError {
    type V = HttpOutcallErrorView;

    open spec fn view(&self) -> HttpOutcallErrorView {
        match *self {
            HttpOutcallError::IcError { code, message } => HttpOutcallErrorView::IcError {
                code,
                message: message@,
            },
            HttpOutcallError::InvalidHttpJsonRpcResponse {
                status,
                body,
                parsing_error,
            } => HttpOutcallErrorView::InvalidHttpJsonRpcResponse {
                status,
                body: body@,
                parsing_error: optional_text(parsing_error),
            },
        }
    }
}

impl vstd::std_specs::cmp::PartialEqSpecImpl for HttpOutcallError {
    open spec fn obeys_eq_spec() -> bool {
        true
    }

    open spec fn eq_spec(&self, other: &Self) -> bool {
        self@ == other@
    }
}

impl PartialEq for HttpOutcallError {
    fn eq(&self, other: &Self) -> (r: bool) {
        match (self, other) {
            (
                HttpOutcallError::IcError { code: left_code, message: left_message },
                HttpOutcallError::IcError { code: right_code, message: right_message },
            ) => *left_code == *right_code && *left_message == *right_message,
            (
                HttpOutcallError::InvalidHttpJsonRpcResponse {
                    status: left_status,
                    body: left_body,
                    parsing_error: left_parsing_error,
                },
                HttpOutcallError::InvalidHttpJsonRpcResponse {
                    status: right_status,
                    body: right_body,
                    parsing_error: right_parsing_error,
                },
            ) => {
                let same_parsing_error: bool = match (left_parsing_error, right_parsing_error) {
                    (Some(left), Some(right)) => *left == *right,
                    (None, None) => true,
                    _ => false,
                };
                *left_status == *right_status && *left_body == *right_body && same_parsing_error
            },
            _ => false,
        }
    }
}

impl Eq for HttpOutcallError {

}

/// The error object of a JSON-RPC reply.
#[derive(Clone, Debug)]
pub struct JsonRpcError {
    pub code: i64,
    pub message: String,
}

/// What a `JsonRpcError` says.
pub struct JsonRpcErrorView {
    pub code: i64,
    pub message: Seq<char>,
}

impl View for JsonRpcError {
    type V = JsonRpcErrorView;

    open spec fn view(&self) -> JsonRpcErrorView {
        JsonRpcErrorView { code: self.code, message: self.message@ }
    }
}

impl vstd::std_specs::cmp::PartialEqSpecImpl for JsonRpcError {
    open spec fn obeys_eq_spec() -> bool {
        true
    }

    open spec fn eq_spec(&self, other: &Self) -> bool {
        self@ == other@
    }
}

impl PartialEq for JsonRpcError {
    fn eq(&self, other: &Self) -> (r: bool) {
        self.code == other.code && self.message == other.message
    }
}

impl Eq for JsonRpcError {

}

/// A call that could not be made through the chosen provider.
#[derive(Clone, Copy, Debug, PartialEq, Eq, Structural)]
pub enum ProviderError {
    NoPermission,
    TooFewCycles { expected: u128, received: u128 },
    ProviderNotFound,
    MissingRequiredProvider,
}

/// How a call to one provider can fail.
#[derive(Clone, Debug)]
pub enum RpcError {
    ProviderError(ProviderError),
    HttpOutcallError(HttpOutcallError),
    JsonRpcError(JsonRpcError),
}

/// What an `RpcError` says.
pub enum RpcErrorView {
    ProviderError(ProviderError),
    HttpOutcallError(HttpOutcallErrorView),
    JsonRpcError(JsonRpcErrorView),
}

impl View for RpcError {
    type V = RpcErrorView;

    open spec fn view(&self) -> RpcErrorView {
        match *self {
            RpcError::ProviderError(e) => RpcErrorView::ProviderError(e),
            RpcError::HttpOutcallError(e) => RpcErrorView::HttpOutcallError(e@),
            RpcError::JsonRpcError(e) => RpcErrorView::JsonRpcError(e@),
        }
    }
}

impl vstd::std_specs::cmp::PartialEqSpecImpl for RpcError {
    open spec fn obeys_eq_spec() -> bool {
        true
    }

    open spec fn eq_spec(&self, other: &Self) -> bool {
        self@ == other@
    }
}

impl PartialEq for RpcError {
    fn eq(&self, other: &Self) -> (r: bool) {
        match (self, other) {
            (RpcError::ProviderError(left), RpcError::ProviderError(right)) => *left == *right,
            (RpcError::HttpOutcallError(left), RpcError::HttpOutcallError(right)) => *left
                == *right,
            (RpcError::JsonRpcError(left), RpcError::JsonRpcError(right)) => *left == *right,
            _ => false,
        }
    }
}

impl Eq for RpcError {

}

impl From<JsonRpcError> for RpcError {
    fn from(error: JsonRpcError) -> (r: RpcError) {
        RpcError::JsonRpcError(error)
    }
}

impl vstd::std_specs::convert::FromSpecImpl<JsonRpcError> for RpcError {
    open spec fn obeys_from_spec() -> bool {
        true
    }

    open spec fn from_spec(error: JsonRpcError) -> RpcError {
        RpcError::JsonRpcError(error)
    }
}

/// Whether two calls failed with the same error.
pub fn are_errors_consistent(left: &RpcError, right: &RpcError) -> (r: bool)
    ensures
        r == (left@ == right@),
{
    *left == *right
}

/// How many bytes a reply is expected to have.
#[derive(Clone, Copy, Debug, PartialEq, Eq, Structural)]
pub struct ResponseSizeEstimate {
    bytes: u64,
}

impl View for ResponseSizeEstimate {
    type V = u64;

    closed spec fn view(&self) -> u64 {
        self.bytes
    }
}

impl ResponseSizeEstimate {
    pub fn new(bytes: u64) -> (r: Self)
        ensures
            r@ == bytes,
    {
        ResponseSizeEstimate { bytes }
    }

    pub fn get(self) -> (r: u64)
        ensures
            r == self@,
    {
        self.bytes
    }
}

/// What a provider is asked.
#[derive(Clone, Debug)]
pub struct RpcRequest<P> {
    pub method: String,
    pub params: P,
    pub response_size_estimate: ResponseSizeEstimate,
}

/// Parameters of `eth_getBlockByNumber`.
#[derive(Clone, Debug)]
pub struct GetBlockByNumberParams<BlockSpec> {
    pub block: BlockSpec,
    /// If true, the block holds the transactions in full; otherwise only their hashes.
    pub include_full_transactions: bool,
}

/// An unsigned number of 256 bits.
#[derive(Clone, Copy, Debug, PartialEq, Eq, Structural)]
pub struct Quantity {
    pub high: u128,
    pub low: u128,
}

impl Quantity {
    /// The number.
    pub open spec fn value(self) -> nat {
        (self.high * 0x1_0000_0000_0000_0000_0000_0000_0000_0000 + self.low) as nat
    }

    /// The halves, high one first: they are ordered as the numbers are.
    pub fn halves(&self) -> (r: (u128, u128))
        ensures
            r == (self.high, self.low),
    {
        (self.high, self.low)
    }
}

/// The number of a block.
pub type BlockNumber = Quantity;

/// Whether two lists hold the same numbers.
fn same_quantities(left: &Vec<Quantity>, right: &Vec<Quantity>) -> (r: bool)
    ensures
        r == (left@ == right@),
{
    if left.len() != right.len() {
        return false;
    }
    let mut i: usize = 0;
    while i < left.len()
        invariant
            i <= left@.len(),
            left@.len() == right@.len(),
            forall|j: int| 0 <= j < i ==> left@[j] == right@[j],
        decreases left@.len() - i,
    {
        if left[i] != right[i] {
            return false;
        }
        i += 1;
    }
    assert(left@ =~= right@);
    true
}

/// The numbers of a list of lists.
pub open spec fn rows(lists: Vec<Vec<Quantity>>) -> Seq<Seq<Quantity>> {
    lists@.map_values(|list: Vec<Quantity>| list@)
}

/// Whether two lists hold the same lists of numbers.
fn same_rows(left: &Vec<Vec<Quantity>>, right: &Vec<Vec<Quantity>>) -> (r: bool)
    ensures
        r == (rows(*left) == rows(*right)),
{
    if left.len() != right.len() {
        assert(rows(*left).len() != rows(*right).len());
        return false;
    }
    let mut i: usize = 0;
    while i < left.len()
        invariant
            i <= left@.len(),
            left@.len() == right@.len(),
            forall|j: int| 0 <= j < i ==> (#[trigger] left@[j])@ == right@[j]@,
        decreases left@.len() - i,
    {
        if !same_quantities(&left[i], &right[i]) {
            assert(rows(*left)[i as int] != rows(*right)[i as int]);
            return false;
        }
        i += 1;
    }
    assert(rows(*left) =~= rows(*right));
    true
}

/// Reply to `eth_feeHistory`.
#[derive(Clone, Debug)]
pub struct FeeHistory {
    /// Lowest number block of the range.
    pub oldest_block: BlockNumber,
    /// Base fees per gas, one for each block of the range and one for the block after it.
    pub base_fee_per_gas: Vec<Quantity>,
    /// Effective priority fees per gas at the requested percentiles, for each block.
    pub reward: Vec<Vec<Quantity>>,
}

/// What a `FeeHistory` says.
pub struct FeeHistoryView {
    pub oldest_block: BlockNumber,
    pub base_fee_per_gas: Seq<Quantity>,
    pub reward: Seq<Seq<Quantity>>,
}

impl View for FeeHistory {
    type V = FeeHistoryView;

    open spec fn view(&self) -> FeeHistoryView {
        FeeHistoryView {
            oldest_block: self.oldest_block,
            base_fee_per_gas: self.base_fee_per_gas@,
            reward: rows(self.reward),
        }
    }
}

impl vstd::std_specs::cmp::PartialEqSpecImpl for FeeHistory {
    open spec fn obeys_eq_spec() -> bool {
        true
    }

    open spec fn eq_spec(&self, other: &Self) -> bool {
        self@ == other@
    }
}

impl PartialEq for FeeHistory {
    fn eq(&self, other: &Self) -> (r: bool) {
        self.oldest_block == other.oldest_block && same_quantities(
            &self.base_fee_per_gas,
            &other.base_fee_per_gas,
        ) && same_rows(&self.reward, &other.reward)
    }
}

impl Eq for FeeHistory {

}

} // verus!
