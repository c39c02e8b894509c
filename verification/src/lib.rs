//! The logic of a viewer for the scalars in TensorBoard event files.
//!
//! Points are read from event files ([`events`], [`io`]), kept by tag and run and
//! summarised into bins ([`data`], [`worker`], [`batches`]), held ready ([`cache`]) and
//! laid out for drawing ([`plot`], [`color`]) in a window ([`board`], [`export`]).
//! Evaluation tags are never binned: all their points are shown.
//!
//! What all this is for is stated apart, of steps, values, characters and messages:
//! of bins in [`binning_laws`], [`series_laws`] and [`arrival_laws`], of the worker and
//! the shown series in [`worker_laws`] and [`history_laws`], of files in [`reading_laws`]
//! and [`scan_laws`], of texts in [`text_laws`], and of the window in [`window_laws`].

pub mod arrival_laws;
pub mod batches;
pub mod binning_laws;
pub mod board;
pub mod cache;
pub mod color;
pub mod data;
pub mod events;
pub mod export;
pub mod history_laws;
pub mod io;
pub mod names;
pub mod plot;
pub mod reading_laws;
pub mod scan_laws;
pub mod series_laws;
pub mod text;
pub mod text_laws;
pub mod window_laws;
pub mod worker;
pub mod worker_laws;
