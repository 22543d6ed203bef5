//! Device drivers: what they decide and reckon. The ports and registers of the
//! devices are read and written by the caller.
pub mod block;
pub mod bus;
pub mod chardev;
pub mod pci;
