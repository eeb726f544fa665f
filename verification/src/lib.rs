//! Browser bookmark trees seen as a file system: virtual paths, listings, edits, exports and link
//! checks over the bookmark stores of Chromium and Firefox.
pub mod backup;
pub mod check;
pub mod cli;
pub mod command;
pub mod config;
pub mod edit;
pub mod export;
pub mod fault;
pub mod firefox;
pub mod guid;
pub mod listing;
pub mod node;
pub mod number;
pub mod outcome;
pub mod path;
pub mod place;
pub mod report;
pub mod store;
pub mod sync;
pub mod table;
pub mod text;
pub mod time;
pub mod tree;
pub mod value;
pub mod work;
