pub mod text;
pub mod syntax;
pub mod symbols;
pub mod search;
pub mod persist;
pub mod listing;
pub mod store;
pub mod project;
pub mod watch;
