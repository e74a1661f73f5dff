//! A model of a sysfs-style device tree and the devices found in it.
//!
//! The library works on a [`FileSystem`] value: a snapshot of the directory
//! tree, taken by the caller. Everything here is a function of that snapshot,
//! so the same snapshot always describes the same devices.
//!
//! [`Device::from_syspath`] builds one device with the devices above it, and
//! an [`Enumerator`] lists the devices of a subsystem.

pub mod attributes;
pub mod device;
pub mod enumerator;
pub mod error;
pub mod path;
pub mod properties;
pub mod search;
pub mod table;
pub mod text;
pub mod tree;

pub use device::Device;
pub use enumerator::Enumerator;
pub use error::Error;
pub use table::Table;
pub use tree::{Entry, FileSystem, Node};
