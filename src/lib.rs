//! Core logic of an audio-reactive LED controller: strips and their effect
//! segments, the wire format of a frame, the effect registry, the plugin
//! lifecycle ledger, the device reconnect machine and the tick pacing.

pub mod color;
pub mod ledstrip;
pub mod controller;
pub mod plugin_host;
pub mod device_link;
pub mod pacing;
pub mod lua;
pub mod config;
pub mod raindrop;
