use pcilibs::pci_manager::{
    check_vendor, finish_lookup, is_pcie_config_size, listing_step, parse_sysfs_hex, sort_devices,
    DeviceAttributes, DeviceLookup, ListingStep, PciClass, PciDeviceName, PciIds, PciVendor,
    VendorCheck,
};
use pcilibs::{DeviceCache, PCIDevice, PCIDeviceManager, Sysfs};

fn no_names() -> PciIds {
    PciIds { vendors: Vec::new(), classes: Vec::new() }
}

fn mock_attributes() -> DeviceAttributes {
    DeviceAttributes {
        class: "0x060100".to_string(),
        device: "0x1234".to_string(),
        driver: None,
        iommu_group: None,
        numa_node: Some("0".to_string()),
    }
}

/// Looks `address` up the way a manager does, with the mock device's
/// attributes where its directory has to be read.
fn lookup(
    manager: &PCIDeviceManager,
    address: &str,
    vendor: Option<u16>,
    cache: &mut DeviceCache,
) -> Option<PCIDevice> {
    match manager.begin_lookup(address, cache).expect("a PCI address") {
        DeviceLookup::Cached(d) => Some(d),
        DeviceLookup::Read { address, device_path } => match check_vendor("0x8086", vendor) {
            VendorCheck::Accept(v) => Some(finish_lookup(
                address,
                device_path,
                v,
                &mock_attributes(),
                &no_names(),
                cache,
            )),
            VendorCheck::Skip => None,
            VendorCheck::Malformed => panic!("malformed vendor"),
        },
    }
}

#[test]
fn test_get_all_devices() {
    let manager = PCIDeviceManager::new(Sysfs::new("/tmp/fake"));
    let mut cache = DeviceCache::new();

    let mut found = Vec::new();
    for entry in ["0000:ff:1f.0"] {
        if let Some(dev) = lookup(&manager, entry, None, &mut cache) {
            found.push(dev);
        }
    }
    let devices = sort_devices(found);

    assert_eq!(devices.len(), 1);

    let device = &devices[0];
    assert_eq!(device.vendor, 0x8086);
    assert_eq!(device.device, 0x1234);
    assert_eq!(device.class, 0x060100);
}

#[test]
fn a_lookup_canonicalises_the_address_it_reports() {
    let manager = PCIDeviceManager::new(Sysfs::new("/tmp/fake"));

    let device = lookup(&manager, "FF:1F.0", None, &mut DeviceCache::new())
        .expect("the mock device should be found");

    assert_eq!(device.address, "0000:ff:1f.0");
}

#[test]
fn a_lookup_refuses_an_address_that_is_not_one() {
    let manager = PCIDeviceManager::new(Sysfs::new("/tmp/fake"));
    for address in ["../../../etc/shadow", "0000:ff:1f.0/../../..", "/etc/shadow", "nonsense"] {
        assert!(manager.begin_lookup(address, &DeviceCache::new()).is_none());
    }
}

#[test]
fn a_lookup_reads_the_directory_of_the_canonical_address() {
    let manager = PCIDeviceManager::new(Sysfs::new("/tmp/fake"));
    match manager.begin_lookup("ff:1f.0", &DeviceCache::new()) {
        Some(DeviceLookup::Read { address, device_path }) => {
            assert_eq!(address, "0000:ff:1f.0");
            assert_eq!(device_path, "/tmp/fake/bus/pci/devices/0000:ff:1f.0");
        }
        _ => panic!("expected a read"),
    }
}

#[test]
fn a_second_lookup_of_any_spelling_answers_from_the_cache() {
    let manager = PCIDeviceManager::new(Sysfs::new("/tmp/fake"));
    let mut cache = DeviceCache::new();
    let first = lookup(&manager, "FF:1F.0", None, &mut cache).unwrap();
    assert!(cache.get("0000:ff:1f.0").is_some());
    match manager.begin_lookup("0000:FF:1f.0", &cache) {
        Some(DeviceLookup::Cached(d)) => {
            assert_eq!(d.address, first.address);
            assert_eq!(d.device_path, first.device_path);
            assert_eq!(d.vendor, first.vendor);
        }
        _ => panic!("expected the cached device"),
    }
}

#[test]
fn a_device_read_for_the_mock_tree_has_every_field() {
    let manager = PCIDeviceManager::new(Sysfs::new("/tmp/fake"));
    let device = lookup(&manager, "ff:1f.0", None, &mut DeviceCache::new()).unwrap();
    assert_eq!(device.device_path, "/tmp/fake/bus/pci/devices/0000:ff:1f.0");
    assert_eq!(device.driver, "");
    assert_eq!(device.iommu_group, -1);
    assert_eq!(device.numa_node, 0);
    assert_eq!(device.device_name, "UNKNOWN_DEVICE");
    assert_eq!(device.class_name, "UNKNOWN_CLASS");
}

#[test]
fn the_vendor_filter_skips_other_vendors() {
    assert!(matches!(check_vendor("0x8086", Some(0x10de)), VendorCheck::Skip));
    assert!(matches!(check_vendor("0x8086\n", Some(0x8086)), VendorCheck::Accept(0x8086)));
    assert!(matches!(check_vendor("0x8086", None), VendorCheck::Accept(0x8086)));
    assert!(matches!(check_vendor("vendor", None), VendorCheck::Malformed));
    assert!(matches!(check_vendor("0x18086", None), VendorCheck::Malformed));
    assert!(matches!(check_vendor("", Some(0)), VendorCheck::Malformed));
}

#[test]
fn sysfs_numbers_are_read_after_trimming_and_dropping_0x() {
    assert_eq!(parse_sysfs_hex("  0x060100\n", 0xffff_ffff), Some(0x060100));
    assert_eq!(parse_sysfs_hex("0x0x10", 0xffff), Some(0x10));
    assert_eq!(parse_sysfs_hex("10de", 0xffff), Some(0x10de));
    assert_eq!(parse_sysfs_hex("\u{a0}0xff\u{3000}", 0xff), Some(0xff));
    assert_eq!(parse_sysfs_hex("0x100", 0xff), None);
    assert_eq!(parse_sysfs_hex("0x", 0xff), None);
}

#[test]
fn attributes_fill_in_driver_group_and_node() {
    let attrs = DeviceAttributes {
        class: "0x030200\n".to_string(),
        device: "0x2330\n".to_string(),
        driver: Some("vfio-pci".to_string()),
        iommu_group: Some("42".to_string()),
        numa_node: Some(" -1\n".to_string()),
    };
    let mut cache = DeviceCache::new();
    let d = finish_lookup(
        "0000:65:00.0".to_string(),
        "/sys/bus/pci/devices/0000:65:00.0".to_string(),
        0x10de,
        &attrs,
        &no_names(),
        &mut cache,
    );
    assert_eq!(d.class, 0x030200);
    assert_eq!(d.device, 0x2330);
    assert_eq!(d.driver, "vfio-pci");
    assert_eq!(d.iommu_group, 42);
    assert_eq!(d.numa_node, -1);

    let attrs = DeviceAttributes {
        class: "0x030200".to_string(),
        device: "0x2330".to_string(),
        driver: None,
        iommu_group: Some("group".to_string()),
        numa_node: Some("9223372036854775808".to_string()),
    };
    let d = finish_lookup(
        "0000:65:00.1".to_string(),
        String::new(),
        0x10de,
        &attrs,
        &no_names(),
        &mut cache,
    );
    assert_eq!(d.iommu_group, -1);
    assert_eq!(d.numa_node, -1);
    assert_eq!(d.driver, "");
}

#[test]
fn names_come_from_the_table() {
    let ids = PciIds {
        vendors: vec![
            PciVendor {
                id: 0x10de,
                devices: vec![
                    PciDeviceName { id: 0x2330, name: "H100".to_string() },
                    PciDeviceName { id: 0x2330, name: "H100 again".to_string() },
                ],
            },
            PciVendor { id: 0x8086, devices: vec![PciDeviceName { id: 0x2330, name: "other".to_string() }] },
        ],
        classes: vec![
            PciClass { id: 0x02, name: "Network controller".to_string() },
            PciClass { id: 0x02, name: "shadowed".to_string() },
        ],
    };
    assert_eq!(ids.device_name(0x10de, 0x2330), "H100");
    assert_eq!(ids.device_name(0x8086, 0x2330), "other");
    assert_eq!(ids.device_name(0x10de, 0x1), "UNKNOWN_DEVICE");
    assert_eq!(ids.class_name(0x02), "Network controller");
    assert_eq!(ids.class_name(0x020000), "UNKNOWN_CLASS");
}

#[test]
fn the_last_vendor_that_names_a_device_wins() {
    let ids = PciIds {
        vendors: vec![
            PciVendor { id: 1, devices: vec![PciDeviceName { id: 2, name: "first".to_string() }] },
            PciVendor { id: 1, devices: vec![PciDeviceName { id: 2, name: "second".to_string() }] },
            PciVendor { id: 1, devices: vec![PciDeviceName { id: 3, name: "third".to_string() }] },
        ],
        classes: Vec::new(),
    };
    assert_eq!(ids.device_name(1, 2), "second");
}

fn device_at(address: &str, vendor: u16) -> PCIDevice {
    PCIDevice { address: address.to_string(), vendor, ..Default::default() }
}

#[test]
fn devices_are_listed_by_address_keeping_ties_in_order() {
    let sorted = sort_devices(vec![
        device_at("0000:ff:1f.0", 1),
        device_at("0000:00:02.0", 2),
        device_at("bogus", 3),
        device_at("0000:00:01.0", 4),
        device_at("also bogus", 5),
        device_at("0000:00:02.0", 6),
    ]);
    let order: Vec<u16> = sorted.iter().map(|d| d.vendor).collect();
    assert_eq!(order, vec![3, 5, 4, 2, 6, 1]);
}

#[test]
fn an_empty_list_sorts_to_itself() {
    assert!(sort_devices(Vec::new()).is_empty());
}

#[test]
fn a_config_space_over_256_bytes_is_pcie() {
    assert!(is_pcie_config_size(512));
    assert!(is_pcie_config_size(4096));
    assert!(!is_pcie_config_size(256));
    assert!(!is_pcie_config_size(0));
}

#[test]
fn a_listing_keeps_found_devices_skips_failed_lookups_and_stops_on_read_errors() {
    let found: Result<Result<Option<PCIDevice>, String>, u8> = Ok(Ok(Some(device_at("0000:00:01.0", 7))));
    assert!(matches!(listing_step(found), ListingStep::Keep(d) if d.vendor == 7));

    let other_vendor: Result<Result<Option<PCIDevice>, String>, u8> = Ok(Ok(None));
    assert!(matches!(listing_step(other_vendor), ListingStep::Skip));

    let failed: Result<Result<Option<PCIDevice>, String>, u8> = Ok(Err("not an address".to_string()));
    assert!(matches!(listing_step(failed), ListingStep::Skip));

    let unreadable: Result<Result<Option<PCIDevice>, String>, u8> = Err(5);
    assert!(matches!(listing_step(unreadable), ListingStep::Fail(5)));
}

#[test]
fn listing_by_key_lists_canonical_addresses_in_string_order() {
    let addresses = [
        "0001:00:00.0",
        "0000:ff:1f.7",
        "0000:00:02.0",
        "0000:0a:00.0",
        "0000:00:01.f",
        "0000:00:01.0",
    ];
    let sorted = sort_devices(addresses.iter().map(|a| device_at(a, 0)).collect());
    let listed: Vec<String> = sorted.iter().map(|d| d.address.clone()).collect();
    let mut by_string: Vec<String> = addresses.iter().map(|a| a.to_string()).collect();
    by_string.sort();
    assert_eq!(listed, by_string);
}
