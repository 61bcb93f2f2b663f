//! Userspace UDF reader for raw optical devices.

pub mod descriptor;
pub mod device;
pub mod format;
pub mod law;
pub mod log;
pub mod node;
pub mod place;
pub mod space;
pub mod volume;

pub use device::{
    bsd_whole_disk, devices_match, find_optical_rdisks, open_bd_rdisk_for_bsd, poll_bd_rdisk,
    rdisk_paths_for_bsd, sanitize_label, wait_for_bd_rdisk,
};
pub use volume::{RawUdf, PREFETCH_WINDOW};
