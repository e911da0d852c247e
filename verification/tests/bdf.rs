use pcilibs::{
    address_to_id, is_vfio_device_type, normalize_bdf, DRIVER_VFIO_AP_COLD_TYPE,
    DRIVER_VFIO_AP_TYPE, DRIVER_VFIO_PCI_GK_TYPE, DRIVER_VFIO_PCI_TYPE,
};

fn canonical(input: &str) -> String {
    normalize_bdf(input).unwrap()
}

#[test]
fn normalize_bdf_keeps_an_already_qualified_address() {
    assert_eq!(canonical("0000:65:00.0"), "0000:65:00.0");
}

#[test]
fn normalize_bdf_fills_in_an_omitted_domain() {
    assert_eq!(canonical("65:00.0"), "0000:65:00.0");
}

#[test]
fn normalize_bdf_keeps_a_non_zero_domain() {
    assert_eq!(canonical("0009:01:00.0"), "0009:01:00.0");
}

#[test]
fn normalize_bdf_lowers_upper_case_digits() {
    assert_eq!(canonical("0000:6F:00.0"), "0000:6f:00.0");
    assert_eq!(canonical("FF:1F.0"), "0000:ff:1f.0");
}

#[test]
fn normalize_bdf_pads_unpadded_fields() {
    assert_eq!(canonical("9:1:0.0"), "0009:01:00.0");
}

#[test]
fn normalize_bdf_accepts_a_leading_plus_as_from_str_radix_does() {
    assert_eq!(canonical("+65:+00.+1"), "0000:65:00.1");
}

#[test]
fn normalize_bdf_spells_a_wide_function_in_two_digits() {
    assert_eq!(canonical("0:6:0.1f"), "0000:06:00.1f");
}

#[test]
fn normalize_bdf_reads_leading_zeros() {
    assert_eq!(canonical("000000ff:0001:00.7"), "00ff:01:00.7");
}

#[test]
fn normalize_bdf_is_a_fixed_point_on_its_output() {
    for input in ["65:00.0", "9:1:0.0", "FF:1F.0", "0:6:0.1f"] {
        let once = canonical(input);
        assert_eq!(canonical(&once), once);
    }
}

#[test]
fn normalize_bdf_refuses_what_is_not_an_address() {
    for input in [
        "../../../etc/shadow",
        "0000:../:00.0",
        "/etc/shadow",
        "0000:65:00.0/../..",
        "65",
        "0000:0000:65:00.0",
        "0000:65:00",
        "zzzz:65:00.0",
        "",
        "+:65:00.0",
        "0000:100:00.0",
        "10000:65:00.0",
        "0000:65:00.100",
        "0000:-1:00.0",
        "0000:65:00.0.0",
        "0000::00.0",
    ] {
        assert!(normalize_bdf(input).is_none(), "{input:?} was accepted");
    }
}

#[test]
fn test_is_vfio_device_type() {
    assert!(is_vfio_device_type(DRIVER_VFIO_PCI_TYPE));
    assert!(is_vfio_device_type(DRIVER_VFIO_PCI_GK_TYPE));
    assert!(is_vfio_device_type(DRIVER_VFIO_AP_TYPE));
    assert!(is_vfio_device_type(DRIVER_VFIO_AP_COLD_TYPE));
    assert!(!is_vfio_device_type("virtio-pci"));
}

#[test]
fn is_vfio_device_type_wants_the_exact_name() {
    assert!(!is_vfio_device_type("vfio"));
    assert!(!is_vfio_device_type("vfio-pci "));
    assert!(!is_vfio_device_type("VFIO-PCI"));
    assert!(!is_vfio_device_type(""));
}

#[test]
fn address_to_id_reads_the_address_without_separators() {
    assert_eq!(address_to_id("0000:ff:1f.0"), 0xff1f0);
    assert_eq!(address_to_id("0001:02:03.4"), 0x0001_0203_4);
    assert_eq!(address_to_id("ffff:ff:ff.ff"), 0xffff_ffff_ff);
}

#[test]
fn address_to_id_is_zero_where_the_rest_is_not_a_number() {
    assert_eq!(address_to_id("not-an-address"), 0);
    assert_eq!(address_to_id(""), 0);
    assert_eq!(address_to_id("::."), 0);
    assert_eq!(address_to_id("1:0000:0000:0000:0000.0"), 0);
}
