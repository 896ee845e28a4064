//! Extraction, normalisation and compact rendering of openQA job references.
//!
//! Log text that mentions openQA jobs, one `name -> URL` per line among other
//! output, is turned into a single line that names each job once, sorted, with
//! consecutive ids folded into runs: `openqa-mon https://openqa.suse.de/tests/123+2`.

pub mod aggregate;
pub mod extract;
pub mod formatter;
pub mod normalize;
pub mod openqa_job;
pub mod summary;
pub mod text;

pub use aggregate::aggregate_consecutive_jobs;
pub use formatter::JobFormatter;
pub use openqa_job::{Domain, Instance, OpenQAJob};
pub use summary::summarize;
