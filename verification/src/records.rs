//! Flat records for the app's UI, and reading ids back from text.

use vstd::prelude::*;
use crate::ids::{parse_uuid, uuid_parse, uuid_text, uuid_to_string};
use crate::item::{Item, ItemId, opt_view};

verus! {

/// A flattened item for the UI: the id as text and the plain fields.
#[derive(Debug)]
pub struct ItemView {
    pub id: String,
    pub name: String,
    pub quantity: i64,
    pub note: Option<String>,
}

impl ItemView {
    pub fn from_item(it: Item) -> (r: Self)
        ensures
            r.id@ == uuid_text(it@.id),
            r.name@ == it@.name,
            r.quantity == it@.quantity,
            opt_view(r.note) == it@.note,
    {
        let (id, name, quantity, note) = it.into_fields();
        ItemView { id: uuid_to_string(id.0), name, quantity, note }
    }
}

/// Read an item id from its text form.
pub fn parse_id(s: &str) -> (r: Option<ItemId>)
    ensures
        r == match uuid_parse(s@) {
            Some(v) => Some(ItemId(v)),
            None => None,
        },
{
    match parse_uuid(s) {
        Some(v) => Some(ItemId(v)),
        None => None,
    }
}

/// The text form of an item id; `parse_id` reads it back.
pub fn id_text(id: &ItemId) -> (r: String)
    ensures
        r@ == uuid_text(id.0),
        uuid_parse(r@) == Some(id.0),
{
    uuid_to_string(id.0)
}

} // verus!
