//! PCI device discovery over a sysfs tree: canonical PCI addresses, the paths
//! sysfs exposes for them, the records read back from it, and a summary of
//! the InfiniBand devices present.
use vstd::prelude::*;

pub mod bdf;
pub mod infiniband;
pub mod pci_manager;
pub mod sysfs;
pub mod testfs;
pub mod text;

pub use bdf::{address_to_id, is_vfio_device_type, normalize_bdf};
pub use pci_manager::{DeviceCache, PCIDevice, PCIDeviceManager};
pub use sysfs::{Sysfs, SYSFS};

verus! {

/// The PCI domain sysfs always spells out, and callers often omit.
pub const PCI_DEV_DOMAIN: &'static str = "0000";

/// Device driver for vfio-pci guest kernel driver.
pub const DRIVER_VFIO_PCI_GK_TYPE: &'static str = "vfio-pci-gk";

/// Device driver for vfio-pci.
pub const DRIVER_VFIO_PCI_TYPE: &'static str = "vfio-pci";

/// Device driver for vfio-ap hotplug.
pub const DRIVER_VFIO_AP_TYPE: &'static str = "vfio-ap";

/// Device driver for vfio-ap coldplug.
pub const DRIVER_VFIO_AP_COLD_TYPE: &'static str = "vfio-ap-cold";

} // verus!
