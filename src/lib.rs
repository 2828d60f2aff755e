//! Checks that JSON text is laid out in the canonical 4-space pretty-printed form,
//! and classifies files as clean, syntax-invalid or wrongly formatted.
pub mod format_parser;
pub mod syntax;
pub mod layout_laws;
pub mod shift_laws;
