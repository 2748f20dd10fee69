//! Verified core of a WebRTC desktop-streaming server.

pub mod client;
pub mod codec;
pub mod commands;
pub mod double;
pub mod error;
pub mod formats;
pub mod frames;
pub mod gamepad;
pub mod hevc;
pub mod input;
pub mod json;
pub mod messages;
pub mod mouse;
pub mod nal;
pub mod number;
pub mod offer;
pub mod oracle;
pub mod pattern;
pub mod pipeline;
pub mod sdp;
pub mod settings;
pub mod signaling_proto;
pub mod spaces;
pub mod splice;
pub mod stats;
pub mod text;
pub mod uinput;
