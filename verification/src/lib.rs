//! A minimal style-sheet engine.
//!
//! The crate parses a small style language into a typed rule set and
//! resolves, for a content node's identity (tag name, optional id, class
//! set), the effective property values by selector matching and cascade.
//!
//! Example source text:
//!     h1, h2, h3 { margin: auto; color: #cc0000; }
//!     div.note { margin-bottom: 20px; padding: 10px; }
//!     #answer { display: none; }

pub mod css;
pub mod dom;
pub mod parser;
pub mod style;
pub mod text;
