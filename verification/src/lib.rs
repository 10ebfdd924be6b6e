//! Input remapping for a single mouse-like device: profiles, output-binding
//! resolution and the mapping engine that turns physical presses into
//! virtual key events.

pub mod names;
pub mod codes;
pub mod input;
pub mod profile;
pub mod mappings;
pub mod engine;
pub mod flat;
pub mod output;
pub mod text;
pub mod device;
pub mod args;
pub mod wrapper;
