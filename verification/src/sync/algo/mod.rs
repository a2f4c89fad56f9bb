pub mod cells;
pub mod image;
pub mod lww_record;
pub mod rsync;
pub mod text_crdt;
pub mod wal;
