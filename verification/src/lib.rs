//! Copying local files and directory trees into a Dropbox account: the
//! decisions and computations of the `dcp` tool, with their contracts.

pub mod text;
pub mod path;
pub mod retry;
pub mod session;
pub mod outcome;
pub mod order;
pub mod walk;
pub mod credentials;
