//! Turns the Unicode emoji test data into a catalog of emote entries (text, name, group
//! and subgroup tag), and checks and unwraps the response that carried the document.

pub mod catalog;
pub mod codepoint;
pub mod fetch;
pub mod row;
pub mod text;
