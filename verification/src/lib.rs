//! Device-emulation building blocks for a virtual-machine monitor.
//!
//! The heart of the crate is [`memory_mapper`]: a table of non-overlapping
//! IOVA-to-physical-address mappings, as maintained by a virtio-iommu
//! backend, with verified insertion, transactional removal and
//! range translation. [`pcie_device`] holds the PCI Express capability
//! register layout used by emulated PCIe ports.

pub mod memory_mapper;
pub mod pcie_device;
