//! The options of a run and their defaults.

use vstd::prelude::*;

verus! {

/// Where the download is written when no path is given.
pub const DEFAULT_OUTPUT_FILE: &'static str = "./hibp_password_hashes.txt";

/// Where the sorted rows are written when no path is given.
pub const DEFAULT_SORTED_FILE: &'static str = "./hibp_password_hashes_sorted.txt";

/// Where the sort keeps its segments when no directory is given.
pub const DEFAULT_TEMP_DIR: &'static str = "./tmp_scratch_disk_for_hibp_sort";

/// The server throttles at about this many requests in flight.
pub const CONNECTION_CEILING: usize = 128;

/// What to do instead of downloading.
#[derive(Debug, Clone)]
pub enum Commands {
    /// Sort downloaded rows by descending count.
    Sort {
        /// The file to be sorted.
        input_file: String,
        /// The file that takes the sorted rows.
        output_file: String,
        /// The directory that holds the segments while the sort runs.
        temp_dir: String,
    },
}

/// The options of a run.
#[derive(Debug, Clone)]
pub struct Config {
    pub subcommands: Option<Commands>,
    /// The number of workers to use for requests.
    pub workers: usize,
    /// The number of requests per worker.
    pub multiplier: usize,
    /// Download NTLM hashes instead of SHA-1 hashes.
    pub ntlm: bool,
    /// The file, or the empty directory, where the output is written.
    pub output_file: String,
}

/// How many requests each of `workers` workers may have in flight so that all
/// together stay at the server's ceiling.
pub fn default_multiplier(workers: usize) -> (m: usize)
    requires
        workers > 0,
    ensures
        m == CONNECTION_CEILING as int / workers as int,
{
    CONNECTION_CEILING / workers
}

/// The sort with every path at its default.
pub fn default_sort() -> (c: Commands)
    ensures
        c matches Commands::Sort { input_file, output_file, temp_dir } && input_file@
            == DEFAULT_OUTPUT_FILE@ && output_file@ == DEFAULT_SORTED_FILE@ && temp_dir@
            == DEFAULT_TEMP_DIR@,
{
    Commands::Sort {
        input_file: DEFAULT_OUTPUT_FILE.to_owned(),
        output_file: DEFAULT_SORTED_FILE.to_owned(),
        temp_dir: DEFAULT_TEMP_DIR.to_owned(),
    }
}

/// The options of a run for which none was given, on a machine with
/// `parallelism` hardware threads: a download of SHA-1 hashes to the default
/// file, one worker per thread.
pub fn get_config(parallelism: usize) -> (c: Config)
    requires
        parallelism > 0,
    ensures
        c.subcommands.is_none(),
        c.workers == parallelism,
        c.multiplier == CONNECTION_CEILING as int / parallelism as int,
        !c.ntlm,
        c.output_file@ == DEFAULT_OUTPUT_FILE@,
{
    Config {
        subcommands: None,
        workers: parallelism,
        multiplier: default_multiplier(parallelism),
        ntlm: false,
        output_file: DEFAULT_OUTPUT_FILE.to_owned(),
    }
}

} // verus!
