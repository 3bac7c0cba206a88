//! Rendering of parsed CommonMark documents for character terminals.
//!
//! A document arrives as a sequence of events from a depth-first walk over
//! its tree. The engine (`engine::render`) walks them once, keeps the stack
//! of open contexts, and writes styled text through a terminal
//! (`terminal::Terminal`), which either emits ANSI control sequences or
//! drops styles. Highlighted code is reduced to the 8 ANSI colours by
//! `colour::quantize`. `model` states what a render writes; `laws` proves
//! what holds of every render. Lines are not reflowed: the column width
//! only sets the width of horizontal rules.

pub mod colour;
pub mod terminal;
pub mod model;
pub mod engine;
pub mod laws;
pub mod highlighting;
pub mod options;
