# spark_middleware

Order book, order pools and matcher service for a spot market, fed by on-chain indexers.

- `src/` is the verified library (Verus): the order book and the set of orders being
  matched; the sharded order pool and the aggregation of several indexers' pools; the
  batches served to matchers; the handling of indexer events; the requests, subscriptions
  and messages exchanged with the Envio, Subsquid and Pangea indexers; the HTTP and GraphQL
  views of the book.
- `tests/` runs the library on concrete cases.
- `app/` is the service around it: environment and configuration, the HTTP server, the
  websocket connections to matchers and indexers, metrics.
