//! PCI Express capability registers for emulated PCIe ports.
//!
//! `PcieCap` mirrors the layout of the PCI Express capability structure
//! as it appears in configuration space; `PcieCap::new` fills in the
//! registers of a freshly plugged port.

use vstd::prelude::*;

verus! {

/// PCI Express capability version 2.
pub const PCIE_CAP_VERSION: u16 = 0x2;

/// Shift of the device/port type field in the capabilities register.
pub const PCIE_TYPE_SHIFT: u16 = 4;

/// Shift of the slot-implemented bit in the capabilities register.
pub const PCIE_CAP_SLOT_SHIFT: u16 = 8;

/// Shift of the interrupt message number in the capabilities register.
pub const PCIE_CAP_IRQ_NUM_SHIFT: u16 = 9;

/// Role-based error reporting, in the device capabilities register.
pub const PCIE_DEVCAP_RBER: u32 = 0x8000;

/// x1 maximum link width, in the link capabilities and status registers.
pub const PCIE_LINK_X1: u16 = 0x10;

/// 2.5 GT/s link speed, in the link capabilities and status registers.
pub const PCIE_LINK_2_5GT: u16 = 0x1;

/// Attention button present, in the slot capabilities register.
pub const PCIE_SLTCAP_ABP: u32 = 0x1;

/// Attention indicator present, in the slot capabilities register.
pub const PCIE_SLTCAP_AIP: u32 = 0x2;

/// Power indicator present, in the slot capabilities register.
pub const PCIE_SLTCAP_PIP: u32 = 0x4;

/// Hot-plug surprise, in the slot capabilities register.
pub const PCIE_SLTCAP_HPS: u32 = 0x20;

/// Hot-plug capable, in the slot capabilities register.
pub const PCIE_SLTCAP_HPC: u32 = 0x40;

/// Power indicator off, in the slot control register.
pub const PCIE_SLTCTL_PIC_OFF: u16 = 0x300;

/// Attention indicator off, in the slot control register.
pub const PCIE_SLTCTL_AIC_OFF: u16 = 0xc0;

/// Device/port type, as encoded in the capabilities register.
#[derive(Clone, Copy, Debug, PartialEq, Eq, Structural)]
pub enum PcieDevicePortType {
    PcieEndpoint,
    PcieLegacyEndpoint,
    RootPort,
    UpstreamPort,
    DownstreamPort,
    Pcie2PciBridge,
    Pci2PcieBridge,
    RCIntegratedEndpoint,
    RCEventCollector,
}

impl PcieDevicePortType {
    /// The encoding of the port type in the device/port type field.
    pub open spec fn spec_value(self) -> u16 {
        match self {
            PcieDevicePortType::PcieEndpoint => 0x0,
            PcieDevicePortType::PcieLegacyEndpoint => 0x1,
            PcieDevicePortType::RootPort => 0x4,
            PcieDevicePortType::UpstreamPort => 0x5,
            PcieDevicePortType::DownstreamPort => 0x6,
            PcieDevicePortType::Pcie2PciBridge => 0x7,
            PcieDevicePortType::Pci2PcieBridge => 0x8,
            PcieDevicePortType::RCIntegratedEndpoint => 0x9,
            PcieDevicePortType::RCEventCollector => 0xa,
        }
    }

    /// Returns the encoding of the port type.
    pub fn value(self) -> (v: u16)
        ensures
            v == self.spec_value(),
    {
        match self {
            PcieDevicePortType::PcieEndpoint => 0x0,
            PcieDevicePortType::PcieLegacyEndpoint => 0x1,
            PcieDevicePortType::RootPort => 0x4,
            PcieDevicePortType::UpstreamPort => 0x5,
            PcieDevicePortType::DownstreamPort => 0x6,
            PcieDevicePortType::Pcie2PciBridge => 0x7,
            PcieDevicePortType::Pci2PcieBridge => 0x8,
            PcieDevicePortType::RCIntegratedEndpoint => 0x9,
            PcieDevicePortType::RCEventCollector => 0xa,
        }
    }
}

/// The PCI Express capability structure, register by register.
#[derive(Clone, Copy)]
pub struct PcieCap {
    pub _cap_vndr: u8,
    pub _cap_next: u8,
    pub pcie_cap: u16,
    pub dev_cap: u32,
    pub dev_control: u16,
    pub dev_status: u16,
    pub link_cap: u32,
    pub link_control: u16,
    pub link_status: u16,
    pub slot_cap: u32,
    pub slot_control: u16,
    pub slot_status: u16,
    pub root_control: u16,
    pub root_cap: u16,
    pub root_status: u32,
    pub dev_cap_2: u32,
    pub dev_control_2: u16,
    pub dev_status_2: u16,
    pub link_cap_2: u32,
    pub link_control_2: u16,
    pub link_status_2: u16,
    pub slot_cap_2: u32,
    pub slot_control_2: u16,
    pub slot_status_2: u16,
}

impl PcieCap {
    /// Fills in the capability registers of a port of the given type:
    /// version, port type, slot presence and interrupt number in the
    /// capabilities register; role-based error reporting; an x1 link at
    /// 2.5 GT/s; and, when a slot is present, a hot-pluggable slot with
    /// both indicators off. Every other register starts at zero.
    pub fn new(device_type: PcieDevicePortType, slot: bool, irq_num: u16) -> (r: Self)
        ensures
            r._cap_vndr == 0,
            r._cap_next == 0,
            r.pcie_cap == PCIE_CAP_VERSION | (device_type.spec_value() << PCIE_TYPE_SHIFT) | (
            if slot {
                (1u16 << PCIE_CAP_SLOT_SHIFT)
            } else {
                0u16
            }) | (irq_num << PCIE_CAP_IRQ_NUM_SHIFT),
            r.dev_cap == PCIE_DEVCAP_RBER,
            r.dev_control == 0,
            r.dev_status == 0,
            r.link_cap == (PCIE_LINK_X1 | PCIE_LINK_2_5GT) as u32,
            r.link_control == 0,
            r.link_status == PCIE_LINK_X1 | PCIE_LINK_2_5GT,
            r.slot_cap == (if slot {
                PCIE_SLTCAP_ABP | PCIE_SLTCAP_AIP | PCIE_SLTCAP_PIP | PCIE_SLTCAP_HPS
                    | PCIE_SLTCAP_HPC
            } else {
                0u32
            }),
            r.slot_control == (if slot {
                PCIE_SLTCTL_PIC_OFF | PCIE_SLTCTL_AIC_OFF
            } else {
                0u16
            }),
            r.slot_status == 0,
            r.root_control == 0,
            r.root_cap == 0,
            r.root_status == 0,
            r.dev_cap_2 == 0,
            r.dev_control_2 == 0,
            r.dev_status_2 == 0,
            r.link_cap_2 == 0,
            r.link_control_2 == 0,
            r.link_status_2 == 0,
            r.slot_cap_2 == 0,
            r.slot_control_2 == 0,
            r.slot_status_2 == 0,
    {
        let slot_bit: u16 = if slot {
            1u16 << PCIE_CAP_SLOT_SHIFT
        } else {
            0u16
        };
        let pcie_cap = PCIE_CAP_VERSION | (device_type.value() << PCIE_TYPE_SHIFT) | slot_bit | (
        irq_num << PCIE_CAP_IRQ_NUM_SHIFT);

        let dev_cap = PCIE_DEVCAP_RBER;
        let link_cap = (PCIE_LINK_X1 | PCIE_LINK_2_5GT) as u32;
        let link_status = PCIE_LINK_X1 | PCIE_LINK_2_5GT;

        let mut slot_cap: u32 = 0;
        let mut slot_control: u16 = 0;
        if slot {
            slot_cap = PCIE_SLTCAP_ABP | PCIE_SLTCAP_AIP | PCIE_SLTCAP_PIP | PCIE_SLTCAP_HPS
                | PCIE_SLTCAP_HPC;
            slot_control = PCIE_SLTCTL_PIC_OFF | PCIE_SLTCTL_AIC_OFF;
        }

        PcieCap {
            _cap_vndr: 0,
            _cap_next: 0,
            pcie_cap,
            dev_cap,
            dev_control: 0,
            dev_status: 0,
            link_cap,
            link_control: 0,
            link_status,
            slot_cap,
            slot_control,
            slot_status: 0,
            root_control: 0,
            root_cap: 0,
            root_status: 0,
            dev_cap_2: 0,
            dev_control_2: 0,
            dev_status_2: 0,
            link_cap_2: 0,
            link_control_2: 0,
            link_status_2: 0,
            slot_cap_2: 0,
            slot_control_2: 0,
            slot_status_2: 0,
        }
    }

    /// The run-time writable bits of each 32-bit register of the
    /// capability structure, in configuration-space order.
    pub fn writable_bits(&self) -> (r: Vec<u32>)
        ensures
            r@ =~= seq![
                0u32,
                0u32,
                0xf_ffffu32,
                0u32,
                0x3000_0fffu32,
                0u32,
                0x11f_1fffu32,
                0x1fu32,
                0u32,
                0u32,
                0u32,
                0u32,
                0u32,
                0u32,
                0u32,
            ],
    {
        let mut v: Vec<u32> = Vec::new();
        v.push(0);
        v.push(0);
        v.push(0xf_ffff);
        v.push(0);
        v.push(0x3000_0fff);
        v.push(0);
        v.push(0x11f_1fff);
        v.push(0x1f);
        v.push(0);
        v.push(0);
        v.push(0);
        v.push(0);
        v.push(0);
        v.push(0);
        v.push(0);
        v
    }
}

} // verus!
