//! What holds of lifting, beyond what each function states by itself.
pub mod attrs;
pub mod defs;
pub mod exact;
pub mod ids;
pub mod kept;
pub mod lifted;
pub mod lines;
pub mod made;
pub mod module;
pub mod needs;
pub mod reading;
pub mod refs;
pub mod renaming;
pub mod seen;
pub mod seen_attrs;
pub mod seen_body;
pub mod seen_sources;
pub mod sources;
pub mod stops;
pub mod words;
