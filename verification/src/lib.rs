//! Relay: a small, readable CI/CD engine.
//!
//! The core is a pure, deterministic DAG scheduler ([`schedule::run`]) over an
//! abstract [`executor::Executor`]. That is the whole point: parallelism,
//! failure propagation, and content-hash caching can be unit-tested with a mock
//! executor and zero real processes, and proved of every run.
//!
//! The scheduler is a machine that says what it waits for and takes the answer
//! ([`machine::Scheduler`]). What holds of all its runs stands in [`laws`] and
//! [`cache_laws`], of the times in a report in [`time_laws`], and of the calls on the
//! executor in [`call_laws`], over what every state keeps ([`soundness`]) and why
//! every run ends ([`progress`]). What a cache key tells apart stands in
//! [`key_laws`], and how an entry is kept in [`entry_laws`]. What the lines of a
//! config say stands in [`parser_laws`], that the config text and the pipeline
//! round-trip in [`round_trip`], and which graphs are accepted in [`graph_laws`].
//! [`shell_laws`] tells how a job is driven through its steps, [`mock_laws`] what the
//! mock records, [`cli_laws`] what the command line means and shows, and
//! [`text_laws`] how text is taken apart and put together.

pub mod cache;
pub mod cache_laws;
pub mod call_laws;
pub mod cli;
pub mod cli_laws;
pub mod content;
pub mod dag;
pub mod duration;
pub mod entry;
pub mod entry_laws;
pub mod error;
pub mod executor;
pub mod graph_laws;
pub mod hash;
pub mod key_laws;
pub mod laws;
pub mod machine;
pub mod mock;
pub mod mock_laws;
pub mod order;
pub mod parser;
pub mod parser_laws;
pub mod pipeline;
pub mod printer;
pub mod progress;
pub mod report;
pub mod round_trip;
pub mod safepath;
pub mod schedule;
pub mod shell;
pub mod shell_laws;
pub mod soundness;
pub mod text;
pub mod text_laws;
pub mod time_laws;

pub use duration::Duration;
pub use error::Error;
pub use executor::{Artifacts, Executor, JobOutcome, ShellExecutor};
pub use pipeline::{Cache, Job, Pipeline};
pub use report::{JobRecord, Report, Status};
pub use schedule::{run, run_with_cache, Limits};
