//! A template engine for text with tags in braces, verified with Verus.
//!
//! `{name}` stands for the value bound to `name`, `{!` for a literal `{`.
//! `{:name:} ... {:}` binds `name` to the rendered text of the block and leaves nothing in
//! its place. `{#name#} ... {#}` stands for the resource `name`, rendered with what the
//! block binds.
//!
//! The library reads no resource itself. [`render`] walks a template until it is rendered,
//! a fault is found or an include block is closed; for an include block it names the
//! resource, and [`Waiting::supply`] takes what the host has read and goes on.
//!
//! What the functions return is stated over sequences of characters and maps: `started`
//! and `supplied` in `walk` say how a render stands, and `laws` holds what follows for
//! every template.

pub mod compose;
pub mod context;
pub mod engine;
pub mod error;
pub mod fits;
pub mod label;
pub mod laws;
pub mod pos;
pub mod scope;
pub mod text;
pub mod token;
pub mod walk;

pub use crate::compose::replace;
pub use crate::context::Context;
pub use crate::engine::render;
pub use crate::engine::Inclusion;
pub use crate::engine::Progress;
pub use crate::engine::Waiting;
pub use crate::error::RenderError;
pub use crate::pos::Pos;
pub use crate::token::tokenize;
pub use crate::token::Token;
