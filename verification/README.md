# perml

The logic of a small exchange runtime: a token ledger, a book of pending
orders, and the matching of buy against sell orders, with each runtime
module's storage held as a plain value.

- `src/store.rs`: the storage maps, keyed by account ids, symbols and tuples of them.
- `src/support.rs`: call origins, the signed-origin check, dispatch errors.
- `src/tokens.rs`: issuing, transferring, freezing and unfreezing tokens.
- `src/pendingorders.rs`: placing orders (freezing what they offer and filing them by pair, side, price and block) and cancelling them (freeing what is left of them).
- `src/matchorders.rs`: the matching pass over the book, which reads it and writes nothing.
- `src/codec.rs`, `src/collections.rs`: the SCALE bytes of the ordered maps that the book stores (keys of four or eight bytes), written and read through `parity_codec`.
- `app/lib.rs`: the `parity_codec::Encode` trait for those maps.

Each public function carries a contract, and the laws of the library (what
transfers and freezes keep, that order ids are fresh, that reading back the
bytes of a map gives the map) are proof functions next to the code they speak
of.
