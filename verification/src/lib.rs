pub mod command;
pub mod commit;
pub mod compress;
pub mod directory;
pub mod error;
pub mod hash;
pub mod index;
pub mod object;
pub mod store;
pub mod tree;
pub mod util;
