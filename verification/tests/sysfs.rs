use std::path::Path;

use pcilibs::sysfs::join_path;
use pcilibs::testfs::vfio_cdev_name;
use pcilibs::Sysfs;

#[test]
fn defaults_to_the_running_kernel() {
    assert_eq!(
        Path::new(&Sysfs::default().devices()),
        Path::new("/sys/bus/pci/devices")
    );
}

#[test]
fn derives_every_path_from_the_root_it_was_given() {
    let sysfs = Sysfs::new("/tmp/fake");

    assert_eq!(
        Path::new(&sysfs.devices()),
        Path::new("/tmp/fake/bus/pci/devices")
    );
}

#[test]
fn spells_an_address_the_way_sysfs_does() {
    for address in ["0000:65:00.0", "65:00.0", "0000:6F:00.0", "0:6:0.0"] {
        let path = Sysfs::default().device(address).expect("a PCI address");
        let path = Path::new(&path);

        assert_eq!(path.parent(), Some(Path::new("/sys/bus/pci/devices")));
        assert!(
            path.file_name()
                .is_some_and(|name| name.to_string_lossy().len() == "0000:00:00.0".len()),
            "{path:?}"
        );
    }
}

#[test]
fn refuses_an_address_that_is_not_one() {
    for address in ["../../../etc", "/etc/shadow", "0000:65:00.0/..", "zzzz:65:00.0", ""] {
        assert!(Sysfs::default().device(address).is_none());
    }
}

#[test]
fn a_device_path_is_the_canonical_address_under_the_devices_directory() {
    let sysfs = Sysfs::new("/tmp/fake");
    assert_eq!(
        sysfs.device("FF:1F.0").unwrap(),
        "/tmp/fake/bus/pci/devices/0000:ff:1f.0"
    );
}

#[test]
fn vfio_devices_live_under_their_class() {
    let sysfs = Sysfs::new("/tmp/fake");
    assert_eq!(sysfs.vfio_dev("vfio3"), "/tmp/fake/class/vfio-dev/vfio3");
    assert_eq!(Sysfs::default().vfio_dev("vfio0"), "/sys/class/vfio-dev/vfio0");
}

#[test]
fn join_path_joins_as_path_join_does() {
    assert_eq!(join_path("/a", "b"), "/a/b");
    assert_eq!(join_path("/a/", "b"), "/a/b");
    assert_eq!(join_path("", "b"), "b");
    assert_eq!(join_path("/a", "/b"), "/b");
    assert_eq!(join_path("/a", ""), "/a/");
    for (base, rest) in [("/a", "b"), ("/a/", "b"), ("", "b"), ("/a", "/b"), ("/a", "")] {
        assert_eq!(
            Path::new(&join_path(base, rest)),
            Path::new(base).join(rest).as_path()
        );
    }
}

#[test]
fn a_root_with_a_trailing_slash_gives_the_same_paths() {
    assert_eq!(Sysfs::new("/tmp/fake/").devices(), "/tmp/fake/bus/pci/devices");
}

#[test]
fn vfio_cdev_name_numbers_the_device() {
    assert_eq!(vfio_cdev_name(0), "vfio0");
    assert_eq!(vfio_cdev_name(3), "vfio3");
    assert_eq!(vfio_cdev_name(4294967295), "vfio4294967295");
}
