//! An archive that keeps each item as one SQL `INSERT` line in a script per
//! data type, and reads the script back to restore an item.

pub mod clock;
pub mod digest;
pub mod hex;
pub mod laws;
pub mod literal;
pub mod metadata;
pub mod statement;
pub mod store;
pub mod text;
