pub mod braces;
pub mod escapes;
pub mod scopes;
pub mod templates;
