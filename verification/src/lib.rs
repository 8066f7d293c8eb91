//! Verified core of the NCOS documentation assistant: markdown chunking,
//! index bookkeeping, the Ollama protocol decisions and the applet's state
//! machine. Everything that talks to the network, the disk or the desktop
//! lives outside this crate and hands plain values in and out.

pub mod text;
pub mod rag;
pub mod config;
pub mod ollama;
pub mod app;
pub mod chat;
pub mod ui;
