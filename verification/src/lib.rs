pub mod text;
pub mod pattern;
pub mod error;
pub mod insta_client;
pub mod extract;
pub mod highlights;
pub mod cards;
pub mod summary;
pub mod search;
