//! Building blocks of the MAR archive: a data file of independently compressed
//! file bodies and a compressed index that maps paths to byte ranges.
//!
//! An archive is made file by file. The [`planner`] cuts the contents of a
//! file into chunks and chooses how each is stored, with the [`codec`]s;
//! [`body`] puts the chunks together and says what it means for an entry to
//! tell the truth about the data file; the [`packer`] keeps the books of the
//! archive, so that contents that come twice are stored once, and hands out
//! the index at the end. The index is written and read by [`index_file`]: a
//! [`container`] around a message whose fields [`schema`] and [`wire`] lay
//! down. The [`splitter`] spreads the entries of an archive over several,
//! and [`layout`] lays out the data file of each.
//!
//! Nothing here touches a file, a clock or a thread. The functions take and
//! hand back bytes and records, and say in their contracts what they hand
//! back.

pub mod body;
pub mod bytes;
pub mod codec;
pub mod container;
pub mod digest;
pub mod digest_map;
pub mod index_file;
pub mod layout;
pub mod model;
pub mod order;
pub mod packer;
pub mod paths;
pub mod planner;
pub mod schema;
pub mod showsum;
pub mod splitter;
pub mod wire;
