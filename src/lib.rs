//! A small content-addressed version-control engine: object encoding,
//! tree and commit formats, the staging index and branch handling.
pub mod branch;
pub mod codec;
pub mod commit;
pub mod config;
pub mod error;
pub mod index;
pub mod repository;
pub mod store;
pub mod text;
pub mod textmap;
pub mod tree;
