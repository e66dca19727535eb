//! Watch-progress tracking for a directory of video files.
//!
//! A [`db::Database`] holds the series of one tracked directory: its episodes
//! in strictly ascending name order, each with a watched flag, and whether it
//! has changes that were not written yet. [`codec`] turns a series into the
//! bytes of its record and back; [`media`] tells video files apart; [`order`]
//! is the order in which names are kept.

pub mod codec;
pub mod db;
pub mod media;
pub mod order;
