//! The decisions of a Wizard101 patcher: how a patch server's reply is read, which files of a
//! file list are fetched, and what is reported. Reading and writing sockets, files and the
//! terminal is left to the caller.

pub mod checksum;
pub mod cli;
pub mod enums;
pub mod errors;
pub mod file_list;
pub mod patcher;
pub mod pool;
pub mod run;
pub mod tally;
pub mod text;
pub mod utils;
pub mod webdriver;

pub use crate::checksum::Crc32;
pub use crate::cli::{parse_args, Invocation};
pub use crate::enums::{Country, Game, Platform};
pub use crate::errors::WizPatchError;
pub use crate::file_list::read_file_list;
pub use crate::patcher::{FileRecord, Outcome, PatchOptions};
pub use crate::tally::{PatchStats, Tally};
pub use crate::utils::{fix_src_path, revision_from_url};
pub use crate::webdriver::{parse_patch_urls, PatchUrls};
