//! On-device redaction of personal data: the rules of the daemon, of the desktop
//! tray app and of the inference engine's decoder, as verified functions on plain
//! values.
pub mod text;
pub mod windows;
pub mod score;
pub mod select;
pub mod entity;
pub mod mask;
pub mod decode;
pub mod engine;
pub mod extract;
pub mod rules;
pub mod json;
pub mod config;
pub mod http;
pub mod classify;
pub mod pairing;
pub mod desktop;
