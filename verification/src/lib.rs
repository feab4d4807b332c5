//! charpaint: the canvas, the drawing tools and the image matching of a
//! MacPaint-style painting program that paints with characters.
//!
//! The crate holds every rule of the program and no browser: a shell hands it
//! plain values (cells, keys, pixels) and shows what it answers.

pub mod app;
pub mod asciiart;
pub mod background;
pub mod clipboard;
pub mod controls;
pub mod ellipse;
pub mod events;
pub mod fill;
pub mod grid;
pub mod history;
pub mod modes;
pub mod page;
pub mod paint;
pub mod selection;
pub mod single;
pub mod startup;
pub mod typing;
pub mod util;
