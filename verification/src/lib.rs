pub mod board;
pub mod bytes;
pub mod calendar;
pub mod chars;
pub mod cli;
pub mod crdt;
pub mod engine;
pub mod host;
pub mod json;
pub mod kanban;
pub mod monitor;
pub mod net;
pub mod numerals;
pub mod ordered;
pub mod page;
pub mod sync;
pub mod syncer;
pub mod textmap;
pub mod wal;
