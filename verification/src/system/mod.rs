//! Systems and the parameters that they access: queries and global resources.
pub mod query;
pub mod system;
