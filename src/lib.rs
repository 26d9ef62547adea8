//! Declarative installation of plugin archives published as tagged releases:
//! version resolution over a repository's tags, archive entry planning,
//! content digests and the manifest / lockfile bookkeeping around them.

pub mod text;
pub mod version;
pub mod tags;
pub mod resolve;
pub mod fetch;
pub mod archive;
pub mod manifest;
pub mod lock;
pub mod pipeline;
