//! A library that allows managing GUID partition tables.
//!
//! # Examples
//! Reading all the partitions of a disk that is in memory:
//! ```ignore
//! let gpt = gptman::GPT::try_find_from(&disk)
//!     .expect("cannot be read")
//!     .expect("could not find GPT");
//!
//! println!("Disk GUID: {:?}", gpt.header.disk_guid);
//!
//! for (i, p) in gpt.iter() {
//!     if p.is_used() {
//!         println!("Partition #{}: type = {:?}, size = {} bytes, starting lba = {}",
//!             i,
//!             p.partition_type_guid,
//!             p.size().unwrap() * gpt.sector_size,
//!             p.starting_lba);
//!     }
//! }
//! ```
//! Creating new partitions:
//! ```ignore
//! let free_partition_number = gpt.iter().into_iter().find(|(_, p)| p.is_unused()).map(|(i, _)| i)
//!     .expect("no more places available");
//! let size = gpt.get_maximum_partition_size()
//!     .expect("no more space available");
//! let starting_lba = gpt.find_optimal_place(size)
//!     .expect("could not find a place to put the partition");
//! let ending_lba = starting_lba + size - 1;
//!
//! gpt[free_partition_number] = gptman::GPTPartitionEntry {
//!     partition_type_guid: [0xff; 16],
//!     unique_parition_guid: [0xff; 16],
//!     starting_lba,
//!     ending_lba,
//!     attribute_bits: 0,
//!     partition_name: "A Robot Named Fight!".into(),
//! };
//! ```
//! Creating a new partition table with one entry that fills the entire disk:
//! ```ignore
//! let ss = 512;
//! let mut disk = vec![0; 100 * ss as usize];
//! let mut gpt = gptman::GPT::new_from(disk.len() as u64, ss, [0xff; 16]);
//!
//! gpt[1] = gptman::GPTPartitionEntry {
//!     partition_type_guid: [0xff; 16],
//!     unique_parition_guid: [0xff; 16],
//!     starting_lba: gpt.header.first_usable_lba,
//!     ending_lba: gpt.header.last_usable_lba,
//!     attribute_bits: 0,
//!     partition_name: "A Robot Named Fight!".into(),
//! };
//!
//! gpt.write_into(&mut disk).expect("could not write GPT to disk");
//! ```
//!
//! # Disks
//! A disk is a sequence of bytes. The functions that take a whole disk ([`GPT::read_from`],
//! [`GPT::find_from`], [`GPT::write_into`]) have it in memory. For a disk that is not, a
//! [`GPTReader`] says which of its bytes it wants to see next, and [`GPT::plan_write`] which
//! bytes go where.
//!
//! # Modules
//! - [`bytes`] and [`utf16`]: how numbers and text are encoded;
//! - [`error`]: what can go wrong;
//! - [`partition`], [`header`]: the two structures on disk;
//! - [`checksum`]: the CRC32 that guards them;
//! - [`disk`]: disks in memory;
//! - [`table`]: the table and its entries;
//! - [`order`]: sorting;
//! - [`free`], [`layout`]: the search for free space, and what it finds;
//! - [`reader`], [`writer`], [`storage`]: reading and writing a table, and what is read where one
//!   was written;
//! - [`fields`], [`meaning`], [`space`], [`medium`]: what all of this comes to, byte by byte, entry
//!   by entry and sector by sector.

pub mod bytes;
pub mod checksum;
pub mod disk;
pub mod error;
pub mod fields;
pub mod free;
pub mod header;
pub mod layout;
pub mod meaning;
pub mod medium;
pub mod order;
pub mod partition;
pub mod reader;
pub mod space;
pub mod storage;
pub mod table;
pub mod utf16;
pub mod writer;

pub use crate::disk::DiskWrite;
pub use crate::error::Error;
pub use crate::header::GPTHeader;
pub use crate::partition::{GPTPartitionEntry, PartitionName};
pub use crate::reader::{Answer, GPTReader, Request};
pub use crate::table::GPT;
