//! Conversation listing and contact resolution for a local message store.
//!
//! The library holds the logic: how phone numbers and e-mail addresses are
//! normalised into lookup keys, how contact rows fill the handle table, how
//! chats are folded into conversation summaries, and how the conversation
//! list is navigated. Reading databases and drawing the terminal is left to
//! the program around it.
pub mod text;
pub mod keys;
pub mod contacts;
pub mod chatdb;
pub mod app_state;
