pub mod args;
pub mod export;
pub mod extract;
pub mod options;
pub mod plans;
pub mod presentation;
pub mod report;
pub mod scrape;
pub mod store;
pub mod text;
