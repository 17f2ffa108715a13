//! Select a piece of text from a terminal page by typing a short hint.
//!
//! The library finds the selectable parts of a page (hits), gives each a
//! hint of one or two characters, follows the keys typed against those
//! hints and composes the frame that shows the page with the hits
//! highlighted and labelled.
pub mod configuration;
pub mod error;
pub mod hints;
pub mod input_handler;
pub mod modes;
pub mod offsets;
pub mod pager;
pub mod rendering;
pub mod run;
pub mod text;
