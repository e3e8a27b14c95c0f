//! Core of a terminal-style text console: an ANSI SGR escape scanner and
//! decoder that turn an annotated string into byte-offset-tagged formatting
//! overrides, a compositor that folds those overrides and the escape-stripped
//! text into contiguous styled runs, and the plain-value decision logic of the
//! console around them (command dispatch, suggestions, key handling, history).

pub mod color;
pub mod compose;
pub mod console;
pub mod scan;
