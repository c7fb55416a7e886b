//! Update checking for a fixed set of packages: reading a published version
//! out of a build recipe or a changelog, comparing it with the recorded one,
//! and naming the command that installs the newer release.

mod host;
pub mod number;
pub mod text;
pub mod update;
pub mod version;
