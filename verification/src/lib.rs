//! A gettext-style localization library.
//!
//! Catalogs of `msgid` / `msgstr` pairs are parsed into [`lang::Lang`]
//! values, collected by a [`localizer::Localizer`], and turned into a
//! generated source artifact that dispatches a format string to its
//! per-language translation with positional `{}` placeholders filled in.

pub mod chars;
pub mod error;
pub mod lang;
pub mod localizer;
pub mod macrogen;
pub mod parser;
pub mod roundtrip;
pub mod template;

pub use error::ParseError;
pub use error::ValidationError;
pub use lang::Lang;
pub use localizer::Localizer;
pub use macrogen::Tables;
