//! Scoped temporary directories for tests: the name allocation and the
//! ownership rules, apart from the filesystem calls that carry them out.

pub mod suffix;
pub mod temp_dir;

pub use suffix::{format_decimal, next_name, parse_i32};
pub use temp_dir::{resolve_root, Allocation, Attempt, TempDir, ROOT_NAME_DEFAULT};
