//! Claymore rules: hex geometry, the seeded dice, dialog banks, the trans
//! meter, and the turn-based hunt.

pub mod hex;
pub mod single;
pub mod rng;
pub mod dialog;
pub mod text;
pub mod combat_ui;
pub mod audio;
pub mod world;
pub mod combat;
pub mod game;
pub mod present;
pub mod hunt;
pub mod gltf;
