//! wikiBits: the verified core of a terminal wiki built on a folder of Markdown files.

pub mod text;
pub mod diabits;
pub mod wiki;
pub mod ui;
pub mod app;
pub mod editor;
pub mod markdown;
