# phantom_service

The room services of a Matrix homeserver, as a verified library: the rules
that decide what happens to a room's state, its members, its timeline and the
events other servers send, each with a contract that Verus proves.

What the library decides and what its caller does are kept apart. The caller
reads the database, talks to other servers, checks signatures and keeps the
clock; it hands the library plain values and does what the library answers.

## Layout

- `src/` — the library, one module per concern:
  - state: `state_compressor` (layered storage of state versions),
    `state_accessor` (who may see what), `state_cache` (memberships),
    `room_servers`, `stripped_state`, `lazy_loading`;
  - events: `event_handler` (taking in remote events), `timeline`,
    `relations`, `threads`, `read_receipt`, `search`, `auth_chain`;
  - membership: `membership`, `auto_accept`, `alias`, `spaces`,
    `room_deletion`, `typing`;
  - shared: `json_object` (text-keyed maps, JSON objects and their JSON
    text), `text_order`,
    `bytes`, `room_version`, `registry`.
- `tests/` — tests of the library on concrete values.
- `app/` — what the library cannot hold: serde derives for the pagination
  token, conversion between ruma's canonical JSON and the library's, and the
  loop that feeds the auth-graph walk the events it asks for.
