pub mod diff;
pub mod oplog;
pub mod text;
