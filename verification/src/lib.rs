//! A minimal content-addressable snapshot store: staged file contents are
//! sealed into a tree of directory objects and a commit that a branch
//! reference points to.
pub mod add;
pub mod codec;
pub mod commit;
pub mod digest;
pub mod error;
pub mod index;
pub mod init;
pub mod layout;
pub mod names;
pub mod object;
pub mod repository;
pub mod table;
pub mod text;
pub mod tree;
pub mod tree_laws;
