//! Verified text storage and editing logic for the Oxiden terminal editor.

pub mod buffer;
pub mod command;
pub mod config;
pub mod cursor;
pub mod document;
pub mod editor;
pub mod error;
pub mod history;
pub mod input;
pub mod position;
pub mod render;
pub mod session;
pub mod storage;
pub mod text;
pub mod viewport;
