//! Replay, simulation and study of a limit order book.
pub mod archive;
pub mod arrival_laws;
pub mod book;
pub mod book_laws;
pub mod bootstrap;
pub mod course_laws;
pub mod desk;
pub mod desk_laws;
pub mod double;
pub mod doubling;
pub mod engine;
pub mod error;
pub mod event;
pub mod fill_laws;
pub mod fit_laws;
pub mod gaps;
pub mod intensity;
pub mod ledger;
pub mod line_laws;
pub mod markout;
pub mod markout_laws;
pub mod measure;
pub mod measure_laws;
pub mod messages;
pub mod number_laws;
pub mod ofi;
pub mod order;
pub mod packing;
pub mod parse_laws;
pub mod percentile_laws;
pub mod queue;
pub mod queue_laws;
pub mod quoters;
pub mod quoting_laws;
pub mod recorder;
pub mod recording;
pub mod recording_laws;
pub mod replay;
pub mod replay_laws;
pub mod rounding;
pub mod scaling_laws;
pub mod session;
pub mod session_laws;
pub mod shifting;
pub mod snapshot;
pub mod snapshot_laws;
pub mod sort;
pub mod stats;
pub mod study;
pub mod study_laws;
pub mod text;
pub mod trading_laws;
pub mod whole;
