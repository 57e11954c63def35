//! Userspace bindings for the `/dev/memlog` kernel char device.
//!
//! `/dev/memlog` is a per-uid circular ring that keeps the context a process is
//! about to drop, so that it outlives the process. Userspace writes opaque CBOR
//! blobs of at most [`RECORD_MAX`] bytes; the kernel prefixes each with a
//! [`RecordHeader`] and stores `<header><blob>` tuples in the ring, which
//! readers get back as [`Record`]s.

use vstd::prelude::*;

pub mod bytes;
pub mod cli;
pub mod daemon;
pub mod delivery;
pub mod disk;
pub mod durability;
pub mod listing;
pub mod lock;
pub mod mode_contract;
pub mod number;
pub mod order;
pub mod path;
pub mod persistence;
pub mod quote;
pub mod record;
pub mod session;
pub mod status;
pub mod storage;
pub mod text;

pub use record::{check_blob_len, parse_records, InvalidInput, Record, RecordHeader};

verus! {

/// Canonical device path created by the kernel module and its udev rule.
pub const DEVICE_PATH: &'static str = "/dev/memlog";

/// Char-major under which the driver registers.
pub const MAJOR: u32 = 244;

/// Largest CBOR blob accepted in one record (64 KiB).
pub const RECORD_MAX: usize = 64 * 1024;

/// Version of the record layout that this crate understands.
pub const SCHEMA_VERSION: u32 = 1;

/// Record-header magic: ASCII `MLOG`, little-endian on the wire.
pub const RECORD_MAGIC: u32 = 0x4D4C_4F47;

/// Size of a [`RecordHeader`] on the wire, in bytes.
pub const HEADER_LEN: usize = 56;

} // verus!
