# offline_sync

Offline-first sync on an append-only event log, verified with Verus.

An item's state is never stored directly: every change is an event, and the
state is a fold over the item's events in one canonical total order (replica
time, then the replica's write offset, then the event id). Because every replica folds the same
events in the same order, devices that have seen the same events agree on every
item, whatever order the events arrived in.

Layout:

- `src/` — the verified library.
  - `event_core`: events, descriptors, the fold order and `sort_events`.
  - `event_log`: wire types and the contract every event log meets.
  - `item`: the inventory `Item`, its events and its fold.
  - `item_storage`: an event log plus the projection table built from it.
  - `device_log`, `sync`, `item_service`, `records`: the device side; a sync
    round is a state machine whose transport is the caller's.
  - `server_log`, `backend`: the server side.
  - `ids`, `text`, `clock`, `replica`: UUIDs, string comparisons, the wall
    clock and the replica id.
- `tests/` — tests of the library on concrete values.
- `app/` — the HTTP server binary, the HTTP client transport, the background
  sync runner and the mobile-facing objects, in plain Rust around the library.
