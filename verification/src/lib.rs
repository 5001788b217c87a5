//! A launcher's decision core: chord detection on mouse buttons, a usage
//! ledger ranked by recency, and a bounded clipboard history with fuzzy
//! search. Every function here is verified; reading devices, files and the
//! clock of the desktop is left to the program around it.
//!
//! - `trigger`: the chord of the left and the right button, debounced.
//! - `usage`: launch records, their ages, ranking and cleanup.
//! - `clipboard`, `ledger`, `fuzzy`, `math`: the clipboard history, its
//!   previews, its order and eviction, and the search in it.
//! - `config`, `panel`, `theme`: the settings and what the popup offers.
//! - `platform`: the lists of the desktop and the starting of items.
//! - `clock`, `order`, `text`: time, stable sorting and text, which the
//!   others build on.

pub mod clipboard;
pub mod clock;
pub mod config;
pub mod fuzzy;
pub mod ledger;
pub mod math;
pub mod order;
pub mod panel;
pub mod platform;
pub mod text;
pub mod theme;
pub mod trigger;
pub mod usage;
