//! Records of the memory store: preference rules consumed by the model and
//! key-value settings consumed by the app. The store itself is the SQLite
//! database file.
use vstd::prelude::*;

verus! {

/// A freeform rule the user taught the buddy.
pub struct Preference {
    pub id: i64,
    pub rule: String,
    pub created_at: String,
}

/// A key-value setting (e.g. `transcript_dir`).
pub struct Setting {
    pub key: String,
    pub value: String,
}

} // verus!
