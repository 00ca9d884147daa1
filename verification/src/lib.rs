//! Replays timed text records into a paced, retrying submission pipeline.
//!
//! The crate has two halves. The extractor turns the structural events of a
//! markup document into an ordered list of timed records. The delivery state
//! machine decides, from each outcome reported by a driver, what the driver
//! does next: submit a record, wait, finish or abort.

pub mod delivery;
pub mod document;
pub mod extract;
pub mod markup;
pub mod pipeline;
pub mod record;
pub mod response;
pub mod submission;
pub mod text;
pub mod timestamp;
