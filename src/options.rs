//! The run's settings, their consistency rules, and loading the chain record.

use vstd::prelude::*;
use crate::storage::{ChainStorage, StorageError, decode_spec};

verus! {

/// Holds all settings of a run.
pub struct ParserOptions {
    /// Name of the consumer that receives each block.
    pub callback: String,
    /// Settings handed on to the consumer.
    pub callback_args: Vec<String>,
    /// Check each block's Merkle root; a mismatch ends the run.
    pub verify_merkle_root: bool,
    /// Number of decoding threads.
    pub thread_count: u8,
    /// Rescan headers from the latest known block.
    pub resume: bool,
    /// Discard the chain record and scan anew.
    pub new: bool,
    /// Directory of the archive files.
    pub blockchain_dir: String,
    /// Path of the chain record.
    pub chain_storage_path: String,
    /// Capacity of the queue between decoder and consumer.
    pub worker_backlog: usize,
    pub verbose: bool,
    pub debug: bool,
}

/// Errors in the settings.
#[derive(Debug, Clone, Copy, PartialEq, Eq, Structural)]
pub enum ConfigError {
    /// A fresh scan and a resume were both asked for.
    NewAndResume,
    /// No consumer of that name exists.
    UnknownCallback,
}

/// The consumers that can be selected by name.
pub open spec fn known_callback(name: Seq<char>) -> bool {
    name == "csvdump"@ || name == "simplestats"@
}

pub fn is_known_callback(name: &str) -> (r: bool)
    ensures
        r == known_callback(name@),
{
    proof {
        reveal_strlit("csvdump");
        reveal_strlit("simplestats");
    }
    str_eq(name, "csvdump") || str_eq(name, "simplestats")
}

/// Whether two strings are equal.
pub fn str_eq(a: &str, b: &str) -> (r: bool)
    ensures
        r == (a@ == b@),
{
    let n = a.unicode_len();
    if n != b.unicode_len() {
        return false;
    }
    let mut i: usize = 0;
    while i < n
        invariant
            n == a@.len() == b@.len(),
            i <= n,
            forall|k: int| 0 <= k < i ==> a@[k] == b@[k],
        decreases n - i,
    {
        if a.get_char(i) != b.get_char(i) {
            return false;
        }
        i = i + 1;
    }
    assert(a@ =~= b@);
    true
}

impl ParserOptions {
    /// Checks the settings before any scan begins.
    pub fn validate(&self) -> (r: Result<(), ConfigError>)
        ensures
            r == if self.new && self.resume {
                Err(ConfigError::NewAndResume)
            } else if !known_callback(self.callback@) {
                Err(ConfigError::UnknownCallback)
            } else {
                Ok::<(), ConfigError>(())
            },
    {
        if self.new && self.resume {
            return Err(ConfigError::NewAndResume);
        }
        if !is_known_callback(self.callback.as_str()) {
            return Err(ConfigError::UnknownCallback);
        }
        Ok(())
    }
}

/// The help text that lists the consumers.
pub open spec fn callbacks_text() -> Seq<char> {
    "Available Callbacks:\n-> csvdump:\tDumps the whole blockchain into CSV files.\n-> simplestats:\tCallback example. Shows simple Blockchain stats.\n"@
}

/// Lists all available consumers.
pub fn list_callbacks() -> (r: String)
    ensures
        r@ == callbacks_text(),
{
    "Available Callbacks:\n-> csvdump:\tDumps the whole blockchain into CSV files.\n-> simplestats:\tCallback example. Shows simple Blockchain stats.\n".to_owned()
}

/// The chain record to start from: a fresh one where no record exists
/// (`None`), else the one the persisted bytes hold.
pub fn load_chain_file(contents: Option<&[u8]>) -> (r: Result<ChainStorage, StorageError>)
    ensures
        match contents {
            None => r matches Ok(s) && s.entries@.len() == 0 && s.processed == 0
                && s.latest_blk_idx == 0,
            Some(b) => match decode_spec(b@) {
                Some(v) => r matches Ok(s) && s.view() == v,
                None => r == Err::<ChainStorage, StorageError>(StorageError::CorruptState),
            },
        },
{
    match contents {
        None => Ok(ChainStorage::new()),
        Some(b) => ChainStorage::from_bytes(b),
    }
}

} // verus!
