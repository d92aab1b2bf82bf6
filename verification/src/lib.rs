//! Lines of a large file, found once and fetched on demand.
//!
//! A file is scanned a single time to learn where each of its lines begins and how long
//! it is. After that any line can be fetched by its index, in any order, with one seek
//! and one read, so that the lines can be handed out shuffled without the file ever
//! being held in memory as a whole.

pub mod io;
pub mod order;
