# pocker_back

A small Texas hold'em server, with its game logic verified by Verus.

## Layout

- `src/card.rs`: suits, ranks, cards, the deck and hand evaluation, with
  the ordering of hands stated as a mathematical model.
- `src/table.rs`: the dealer's state machine (blinds, pockets, flop, turn,
  river, showdown) and the game table built on it.
- `src/casino.rs`: the registry of open tables and seated players, and the
  short identifiers given to them.
- `src/protocol.rs`: the text requests and framed responses of the wire
  protocol.
- `src/manager.rs`: the request handler that ties connections to players
  and tables.
- `src/common.rs`, `src/client.rs`: the types shared with the browser client
  and the decisions it makes on server messages.
- `src/practice.rs`: a two-player practice round.
- `src/text.rs`: string helpers used above.
- `app/`: the WebSocket server, the JSON encoding and the web front end,
  which call the library.
