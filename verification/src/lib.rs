//! Decision logic of the CD-Active App Volume plugin for OpenDeck: which
//! processes belong to the focused application, which PipeWire streams a
//! command reaches, and how the encoder surface is labelled.

pub mod app_match;
pub mod text;
pub mod parse;
pub mod streams;
pub mod color;
pub mod render;
pub mod display;
pub mod action;
pub mod refresh;
