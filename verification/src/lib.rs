//! Runtime translation engine: locale-keyed lookup tables with layered
//! backends, RFC 4647-style locale fallback, deterministic key minification,
//! and `%{name}` placeholder substitution.

pub mod atomic;
pub mod backend;
pub mod config;
pub mod cow_str;
pub mod minify;
pub mod pattern;
pub mod render;
pub mod resolver;
pub mod strutil;
