# orderbook_merge

Merges the order books of two exchanges (Binance and Bitstamp) into the ten
best levels of each side and streams the result out through gRPC.

- `src/` is the verified library. Prices and amounts are fixed-point
  integers with eighteen fractional digits, read from the exchanges' text by
  `decimal::parse_decimal`. `merger::Merger` keeps each exchange's latest
  levels and merges them with `Itertools::merge_by`; `server` holds the step
  that the service takes for each exchange message. The proof functions in
  `merger`, `named` and `grpc` state what holds across calls.
- `app/` is the program around it: websocket clients, the gRPC service and
  client, and the serde forms of the exchanges' messages.
- `tests/` runs the library on concrete values.
