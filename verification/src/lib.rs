//! Run commands declared in an `AsciiDoc` file.

pub mod command;
pub mod dag;
pub mod discovery;
pub mod paths;
pub mod text;
