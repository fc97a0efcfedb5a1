//! The verified core of a food-diary blog's search service.
pub mod text;
pub mod paths;
pub mod names;
pub mod frontmatter;
pub mod markdown;
pub mod post;
pub mod admin;
pub mod search;
pub mod morphology;
pub mod api;
