//! Arbitration of graphics resources: who may use a display or an input
//! device, what is said about it on the wire, and what a client does with
//! what it was granted.

pub mod cards;
pub mod client;
pub mod client_id;
pub mod connection;
pub mod control;
pub mod engine;
pub mod frame;
pub mod guarantees;
pub mod input;
pub mod listing;
pub mod message;
pub mod modeset;
pub mod motion;
pub mod mouse;
pub mod policy;
pub mod reading;
pub mod registry;
pub mod render;
pub mod resources;
pub mod scene;
pub mod service;
pub mod slot;
pub mod text;
pub mod timer;
pub mod wire;
