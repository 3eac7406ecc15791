//! Dynamic range (DR) metering core: block statistics over fixed-point
//! samples, the sort-and-select reduction, album aggregation, directory
//! selection, tag choice and the decisions of the decoding loop.

pub mod album;
pub mod bulk;
pub mod cache;
pub mod decode;
pub mod events;
pub mod options;
pub mod scan;
pub mod select;
pub mod stream;
pub mod tags;
pub mod tui;
