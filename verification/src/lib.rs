//! A small agent harness: the rules behind its terminal interface, its session
//! log and its conversation with a streaming model.
pub mod text;
pub mod order;
pub mod json;
pub mod counts;
pub mod block;
pub mod session;
pub mod tree;
pub mod skills;
pub mod instructions;
pub mod commands;
pub mod input;
pub mod process;
pub mod tools;
pub mod ui;
pub mod editor;
pub mod app;
pub mod transcript;
pub mod screen;
pub mod sse;
pub mod api;
