# ipars-control-plane

The control plane of an overlay network: it lets nodes and clients join a cluster, gives them VPN
addresses, keeps what they report, and tells them whom they may talk to, through which routes,
gateways and relays. The logic is written in Rust and verified with Verus.

- `src/` is the verified library. Each function states what it returns, when it refuses and why,
  and what it changes. `ControlPlane` in `src/control_plane.rs` holds the state of a cluster; its
  operations stand there and in `enrollment.rs`, `membership.rs`, `reports.rs` and `fabric.rs`. The
  other modules hold the rules that the operations go by: access rules, policies, routes, tokens,
  service directories, heartbeats, gateways, the overlay.
- `tests/` runs the library on concrete values.
- `app/` is the service around the library: the clock, stores that several control planes share,
  waiting for news, and the join service.

Calls into other crates stand behind small functions marked `#[verifier::external_body]`, each with
a contract and a comment on what it claims: SHA-256 digests, JSON encodings, networks and their
aggregation, and calendar times.

What only another part of the system can find out comes in as an argument: whether a signature
verifies, whether a key or a URL is one, how the topology of the overlay is laid out, and what is
wrong with a finished neighbor map or path, where something is.
