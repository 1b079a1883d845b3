# mmorpg_lab

The verified core of a sharded multiplayer game cluster, written in Verus.

- `src/` is the library. Its functions are verified, except the small
  trusted wrappers (marked `external_body`) through which it calls `bytes`,
  `aho-corasick`, `uuid` and a few functions of std, whose contracts state
  what those calls do:
  - `wire`, `broker_protocol`, `orchestrator_protocol`: the binary protocols
    between the services, with encoding and decoding proved inverse;
  - `geometry`, `quadtree`: the map cut into shards, split when a shard holds
    too many players, with the players and the shard of every point tracked
    through each operation;
  - `spatial`: the spatial server's decisions (subscriptions, handoffs
    between shards, split requests), returned as actions to send;
  - `broker`, `topic_table`: the broker's routing tables and what each event
    and message makes it send;
  - `handoff`, `shard_registry`, `shard_net`: a game server's players, the
    handoff state of each, and what it sends to the broker;
  - `chat`, `services`: chat moderation, login, health, server status and
    port search.
- `app/` holds what Verus does not see: network loops over a transport
  interface, HTTP with axum, Redis, processes, serde types, floating point.
- `tests/` runs the library on concrete values.
