//! Calendar grid and event store for a desktop clock widget.
//!
//! The library renders a textual month grid with one highlighted day,
//! keeps calendar events in an RFC 5545-style interchange text, and
//! validates the widget's configuration values. All date arithmetic,
//! grid layout, event parsing and serialization is verified; reading
//! and writing the actual files is left to the embedding application.

pub mod config;
pub mod controller;
pub mod datemath;
pub mod events;
pub mod grid;
pub mod lines;
pub mod text;
