//! A small engine for building indented, C-like source text. A
//! [`Formatter`] owns a destination buffer, tracks the current indentation
//! depth and a stack of scope names, and exposes write helpers that insert
//! the indentation for every line they open.

pub mod emit;
pub mod formatter;

pub use formatter::FmtView;
pub use formatter::Formatter;
