//! A static-site assembler core: pages may reference reusable HTML
//! fragments ("components") and a wrapper template ("layout"); the
//! resolver inlines fragments recursively, detects reference cycles,
//! caches resolved content, and applies at most one layout per page.

pub mod laws;
pub mod resolve;
pub mod store;
pub mod tags;
pub mod text;
