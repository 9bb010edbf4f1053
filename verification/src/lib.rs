pub mod header;
pub mod phindex;
pub mod database;
pub mod protocol;
