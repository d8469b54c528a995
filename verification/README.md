# eth_rpc_client

A client asks several Ethereum JSON-RPC providers the same question, so that no single one of them
has to be trusted. This library decides what to ask whom, and what the replies amount to: one
answer, an error that all failing providers share, or a report of the answers that contradict one
another. Every function of it is verified with [Verus](https://github.com/verus-lang/verus).

- `src/client.rs`: the queries, and the steps of a query that goes to one provider after another.
- `src/multi_call.rs`: the answers of several providers, and their reduction by equality or to the
  lowest key.
- `src/majority.rs`: reduction by strict majority of a key.
- `src/eth_rpc.rs`: requests, replies and errors of a single call.
- `src/ordered.rs`, `src/key.rs`, `src/providers.rs`: maps walked in order of provider, keys, and
  providers.
- `src/laws.rs`, `src/laws_reduce.rs`: what holds of calls and reductions as a whole.
- `app/`: makes the calls over the network, sends results in Candid, and holds test doubles.
