//! Offline-first sync on an event log.
//!
//! Don't store the item, store the events that produced it: an item's current
//! state is a fold over an append-only event log, folded in one total order on
//! every replica, which makes offline capture and multi-device sync fall out.
//!
//! - `event_core`: events, descriptors, and the canonical fold order.
//! - `event_log`: wire types and the contract every event log meets.
//! - `item`: the demo domain, an inventory `Item`.
//! - `item_storage`: event log plus projection table.
//! - `device_log`, `sync`, `item_service`, `records`: the device side.
//! - `server_log`, `backend`: the server side.
pub mod backend;
pub mod clock;
pub mod device_log;
pub mod event_core;
pub mod event_log;
pub mod ids;
pub mod item;
pub mod item_service;
pub mod item_storage;
pub mod records;
pub mod replica;
pub mod runner;
pub mod server_log;
pub mod sync;
pub mod text;

pub use event_core::{
    order_key, sort_events, EntityEvent, EntityId, Event, EventDescriptor, EventSourcedEntity, ServerOffset,
};
pub use event_log::{AppendEvent, EntityEventLog, EventsPage};
pub use item::{Item, ItemEvent, ItemId};
pub use item_storage::{ItemFilter, ItemStorage};
pub use replica::ReplicaIdProvider;
pub use device_log::{max_server_offset, DeviceEventLog};
pub use server_log::ServerEventLog;
pub use item_service::SdkItemService;
pub use records::ItemView;
pub use sync::{SyncError, SyncListener, SyncState};
