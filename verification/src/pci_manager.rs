//! PCI functions as sysfs describes them: the record kept for each, the cache
//! of records already read, the names looked up for their numbers, and the
//! order in which they are listed.
use vstd::prelude::*;

use crate::bdf::{address_to_id, spec_address_to_id, spec_normalize_bdf};
use crate::sysfs::{path_join, spec_devices, Sysfs};
use crate::text::{
    hex_lower, is_whitespace, lemma_dec_string, lemma_parse_i64_signed_dec, lemma_sysfs_hex_reads_back,
    lemma_trim_padded, signed_dec, dec_string,
    chars_eq, chars_of, parse_hex, parse_i64, parse_i64_chars, parse_unsigned, strip_hex_prefixes,
    strip_hex_prefixes_chars, trim, trim_chars,
};

verus! {

/// A conventional PCI function's config space, in bytes; a PCIe function's is
/// larger.
pub const PCI_CONFIG_SPACE_SZ: u64 = 256;

/// The device name given where the name table has none.
pub const UNKNOWN_DEVICE: &'static str = "UNKNOWN_DEVICE";

/// The class name given where the name table has none.
pub const UNKNOWN_CLASS: &'static str = "UNKNOWN_CLASS";

/// One PCI function as read from sysfs.
#[derive(Clone, Debug, Default)]
pub struct PCIDevice {
    pub device_path: String,
    pub address: String,
    pub vendor: u16,
    pub class: u32,
    pub class_name: String,
    pub device: u16,
    pub device_name: String,
    pub driver: String,
    pub iommu_group: i64,
    pub numa_node: i64,
}

/// The contents of a `PCIDevice`, with its text as characters.
pub struct PciDeviceView {
    pub device_path: Seq<char>,
    pub address: Seq<char>,
    pub vendor: u16,
    pub class: u32,
    pub class_name: Seq<char>,
    pub device: u16,
    pub device_name: Seq<char>,
    pub driver: Seq<char>,
    pub iommu_group: i64,
    pub numa_node: i64,
}

impl View for PCIDevice {
    type V = PciDeviceView;

    open spec fn view(&self) -> PciDeviceView {
        PciDeviceView {
            device_path: self.device_path@,
            address: self.address@,
            vendor: self.vendor,
            class: self.class,
            class_name: self.class_name@,
            device: self.device,
            device_name: self.device_name@,
            driver: self.driver@,
            iommu_group: self.iommu_group,
            numa_node: self.numa_node,
        }
    }
}

/// A field-by-field copy of `d`.
fn copy_device(d: &PCIDevice) -> (r: PCIDevice)
    ensures
        r@ == d@,
{
    PCIDevice {
        device_path: d.device_path.clone(),
        address: d.address.clone(),
        vendor: d.vendor,
        class: d.class,
        class_name: d.class_name.clone(),
        device: d.device,
        device_name: d.device_name.clone(),
        driver: d.driver.clone(),
        iommu_group: d.iommu_group,
        numa_node: d.numa_node,
    }
}

// ---------------------------------------------------------------------------
// The cache of devices already read
// ---------------------------------------------------------------------------

/// The map that a list of records stands for: each address to the last record
/// listed under it.
pub open spec fn entries_map(entries: Seq<PCIDevice>) -> Map<Seq<char>, PciDeviceView>
    decreases entries.len(),
{
    if entries.len() == 0 {
        Map::empty()
    } else {
        entries_map(entries.drop_last()).insert(entries.last().address@, entries.last()@)
    }
}

/// The map has a key exactly where a record has that address, and holds the
/// last such record.
proof fn lemma_entries_map_lookup(entries: Seq<PCIDevice>, key: Seq<char>, i: int)
    requires
        -1 <= i < entries.len(),
        i >= 0 ==> entries[i].address@ == key,
        forall|k: int| i < k < entries.len() ==> #[trigger] entries[k].address@ != key,
    ensures
        i >= 0 ==> entries_map(entries).contains_key(key) && entries_map(entries)[key] == entries[i]@,
        i < 0 ==> !entries_map(entries).contains_key(key),
    decreases entries.len(),
{
    if entries.len() > 0 {
        let init = entries.drop_last();
        if i == entries.len() - 1 {
        } else {
            assert forall|k: int| i < k < init.len() implies #[trigger] init[k].address@ != key by {
                assert(init[k] == entries[k]);
            }
            assert(entries[entries.len() - 1].address@ != key);
            lemma_entries_map_lookup(init, key, i);
            if i >= 0 {
                assert(init[i] == entries[i]);
            }
        }
    }
}

/// Devices already read, by canonical address: what a lookup answers with
/// before it goes to sysfs.
pub struct DeviceCache {
    entries: Vec<PCIDevice>,
}

impl View for DeviceCache {
    type V = Map<Seq<char>, PciDeviceView>;

    closed spec fn view(&self) -> Map<Seq<char>, PciDeviceView> {
        entries_map(self.entries@)
    }
}

impl DeviceCache {
    /// An empty cache.
    pub fn new() -> (c: Self)
        ensures
            c@ == Map::<Seq<char>, PciDeviceView>::empty(),
    {
        DeviceCache { entries: Vec::new() }
    }

    /// The device kept under `address`, if any.
    pub fn get(&self, address: &str) -> (r: Option<PCIDevice>)
        ensures
            match r {
                Some(d) => self@.contains_key(address@) && d@ == self@[address@],
                None => !self@.contains_key(address@),
            },
    {
        let key = chars_of(address);
        let mut i = self.entries.len();
        while i > 0
            invariant
                i <= self.entries.len(),
                key@ == address@,
                forall|k: int| i <= k < self.entries@.len() ==> #[trigger] self.entries@[k].address@ != key@,
            decreases i,
        {
            let candidate = chars_of(self.entries[i - 1].address.as_str());
            if chars_eq(&candidate, &key) {
                proof {
                    lemma_entries_map_lookup(self.entries@, key@, i - 1);
                }
                return Some(copy_device(&self.entries[i - 1]));
            }
            i = i - 1;
        }
        proof {
            lemma_entries_map_lookup(self.entries@, key@, -1);
        }
        None
    }

    /// Keeps `device` under its address, in place of what was kept there.
    pub fn insert(&mut self, device: PCIDevice)
        ensures
            final(self)@ == old(self)@.insert(device.address@, device@),
    {
        self.entries.push(device);
        assert(self.entries@.drop_last() == old(self).entries@);
    }
}

// ---------------------------------------------------------------------------
// Names for vendor, device and class numbers
// ---------------------------------------------------------------------------

/// A device of some vendor, and its name.
pub struct PciDeviceName {
    pub id: u16,
    pub name: String,
}

/// A vendor and the devices it names.
pub struct PciVendor {
    pub id: u16,
    pub devices: Vec<PciDeviceName>,
}

/// A device class and its name.
pub struct PciClass {
    pub id: u8,
    pub name: String,
}

/// The table of PCI vendor, device and class names.
pub struct PciIds {
    pub vendors: Vec<PciVendor>,
    pub classes: Vec<PciClass>,
}

/// The name of the first device in `devices` numbered `device_id`.
pub open spec fn first_device_name(devices: Seq<PciDeviceName>, device_id: u16) -> Option<Seq<char>>
    decreases devices.len(),
{
    if devices.len() == 0 {
        None
    } else if devices[0].id == device_id {
        Some(devices[0].name@)
    } else {
        first_device_name(devices.drop_first(), device_id)
    }
}

/// The name of device `device_id` of vendor `vendor_id`: taken from the last
/// vendor so numbered that lists such a device, and from the first such
/// device in it; `UNKNOWN_DEVICE` where there is none.
pub open spec fn spec_device_name(vendors: Seq<PciVendor>, vendor_id: u16, device_id: u16) -> Seq<char>
    decreases vendors.len(),
{
    if vendors.len() == 0 {
        UNKNOWN_DEVICE@
    } else {
        let v = vendors.last();
        if v.id == vendor_id && first_device_name(v.devices@, device_id) is Some {
            first_device_name(v.devices@, device_id).unwrap()
        } else {
            spec_device_name(vendors.drop_last(), vendor_id, device_id)
        }
    }
}

/// The name of the first class in `classes` whose number equals `class_id`;
/// `UNKNOWN_CLASS` where there is none.
pub open spec fn spec_class_name(classes: Seq<PciClass>, class_id: u32) -> Seq<char>
    decreases classes.len(),
{
    if classes.len() == 0 {
        UNKNOWN_CLASS@
    } else if classes[0].id as u32 == class_id {
        classes[0].name@
    } else {
        spec_class_name(classes.drop_first(), class_id)
    }
}

/// The first device numbered `device_id` in `devices`, found by index.
pub proof fn lemma_first_device_name_at(devices: Seq<PciDeviceName>, device_id: u16, i: int)
    requires
        0 <= i <= devices.len(),
        forall|k: int| 0 <= k < i ==> #[trigger] devices[k].id != device_id,
        i < devices.len() ==> devices[i].id == device_id,
    ensures
        i < devices.len() ==> first_device_name(devices, device_id) == Some(devices[i].name@),
        i == devices.len() ==> first_device_name(devices, device_id) is None,
    decreases i,
{
    if i > 0 {
        let t = devices.drop_first();
        assert forall|k: int| 0 <= k < i - 1 implies #[trigger] t[k].id != device_id by {
            assert(t[k] == devices[k + 1]);
        }
        assert(devices[0].id != device_id);
        lemma_first_device_name_at(t, device_id, i - 1);
        if i < devices.len() {
            assert(t[i - 1] == devices[i]);
        }
    }
}

/// The class name, found by index: the name of the first class whose number
/// equals `class_id`, or `UNKNOWN_CLASS` where there is none.
pub proof fn lemma_class_name_at(classes: Seq<PciClass>, class_id: u32, i: int)
    requires
        0 <= i <= classes.len(),
        forall|k: int| 0 <= k < i ==> #[trigger] classes[k].id as u32 != class_id,
        i < classes.len() ==> classes[i].id as u32 == class_id,
    ensures
        i < classes.len() ==> spec_class_name(classes, class_id) == classes[i].name@,
        i == classes.len() ==> spec_class_name(classes, class_id) == UNKNOWN_CLASS@,
    decreases i,
{
    if i > 0 {
        let t = classes.drop_first();
        assert forall|k: int| 0 <= k < i - 1 implies #[trigger] t[k].id as u32 != class_id by {
            assert(t[k] == classes[k + 1]);
        }
        assert(classes[0].id as u32 != class_id);
        lemma_class_name_at(t, class_id, i - 1);
        if i < classes.len() {
            assert(t[i - 1] == classes[i]);
        }
    }
}

impl PciIds {
    /// The name of device `device_id` of vendor `vendor_id`.
    pub fn device_name(&self, vendor_id: u16, device_id: u16) -> (r: String)
        ensures
            r@ == spec_device_name(self.vendors@, vendor_id, device_id),
    {
        let mut name = UNKNOWN_DEVICE.to_string();
        let n = self.vendors.len();
        for i in 0..n
            invariant
                n == self.vendors@.len(),
                name@ == spec_device_name(self.vendors@.take(i as int), vendor_id, device_id),
        {
            let vendor = &self.vendors[i];
            let ghost taken = self.vendors@.take(i + 1);
            assert(taken.drop_last() == self.vendors@.take(i as int));
            assert(taken.last() == self.vendors@[i as int]);
            if vendor.id == vendor_id {
                let m = vendor.devices.len();
                let mut j: usize = 0;
                while j < m && vendor.devices[j].id != device_id
                    invariant
                        j <= m,
                        m == vendor.devices@.len(),
                        forall|k: int| 0 <= k < j ==> #[trigger] vendor.devices@[k].id != device_id,
                    decreases m - j,
                {
                    j = j + 1;
                }
                proof {
                    lemma_first_device_name_at(vendor.devices@, device_id, j as int);
                }
                if j < m {
                    name = vendor.devices[j].name.clone();
                }
            }
        }
        assert(self.vendors@.take(n as int) == self.vendors@);
        name
    }

    /// The name of class `class_id`.
    pub fn class_name(&self, class_id: u32) -> (r: String)
        ensures
            r@ == spec_class_name(self.classes@, class_id),
    {
        let n = self.classes.len();
        let mut i: usize = 0;
        while i < n && self.classes[i].id as u32 != class_id
            invariant
                i <= n,
                n == self.classes@.len(),
                forall|k: int| 0 <= k < i ==> #[trigger] self.classes@[k].id as u32 != class_id,
            decreases n - i,
        {
            i = i + 1;
        }
        proof {
            lemma_class_name_at(self.classes@, class_id, i as int);
        }
        if i < n {
            self.classes[i].name.clone()
        } else {
            UNKNOWN_CLASS.to_string()
        }
    }
}

// ---------------------------------------------------------------------------
// What a record holds
// ---------------------------------------------------------------------------

/// A device passes the vendor filter `Some(f)` exactly when its vendor is `f`,
/// and passes no filter at all always.
pub proof fn lemma_vendor_filter_is_exact(vendor: nat, f: u16)
    ensures
        vendor_passes(vendor, Some(f)) == (vendor == f as nat),
        vendor_passes(vendor, None),
{
}

/// The vendor attribute as sysfs writes it (`0x` and four digits, then a
/// newline; or any whitespace around the number, with or without `0x`) reads
/// as the vendor it spells, and a vendor filter for another vendor skips the
/// device.
pub proof fn lemma_vendor_attribute_reads_back(
    pre: Seq<char>,
    prefixed: bool,
    vendor: nat,
    post: Seq<char>,
    f: u16,
)
    requires
        forall|i: int| 0 <= i < pre.len() ==> #[trigger] is_whitespace(pre[i]),
        forall|i: int| 0 <= i < post.len() ==> #[trigger] is_whitespace(post[i]),
        vendor <= 0xffff,
    ensures
        ({
            let raw = pre + ((if prefixed { seq!['0', 'x'] } else { Seq::<char>::empty() }) + hex_lower(vendor)) + post;
            &&& spec_parse_sysfs_hex(raw, 0xffff) == Some(vendor)
            &&& vendor_passes(vendor, Some(f)) == (vendor == f as nat)
        }),
{
    lemma_sysfs_hex_reads_back(pre, prefixed, vendor, post, 0xffff);
}

/// The NUMA node of a record is the number its `numa_node` attribute spells,
/// whatever whitespace surrounds it (sysfs ends it with a newline): `"0\n"`
/// is node 0.
pub proof fn lemma_numa_node_reads_back(
    address: Seq<char>,
    device_path: Seq<char>,
    vendor: u16,
    class: u32,
    device: u16,
    attrs: DeviceAttributes,
    ids: PciIds,
    pre: Seq<char>,
    n: nat,
    negative: bool,
    post: Seq<char>,
)
    requires
        attrs.numa_node matches Some(text) && text@ == pre + signed_dec(n, negative) + post,
        forall|i: int| 0 <= i < pre.len() ==> #[trigger] is_whitespace(pre[i]),
        forall|i: int| 0 <= i < post.len() ==> #[trigger] is_whitespace(post[i]),
        negative ==> n <= 0x8000_0000_0000_0000,
        !negative ==> n <= 0x7fff_ffff_ffff_ffff,
    ensures
        spec_read_device(address, device_path, vendor, class, device, attrs, ids).numa_node == (if negative {
            -n
        } else {
            n as int
        }),
{
    lemma_dec_string(n);
    let core = signed_dec(n, negative);
    let d = dec_string(n);
    assert('0' <= d[0] && d[0] <= '9');
    assert('0' <= d[d.len() - 1] && d[d.len() - 1] <= '9');
    assert(core.last() == d.last());
    if negative {
        assert(core[0] == '-');
    } else {
        assert(core[0] == d[0]);
    }
    lemma_trim_padded(pre, core, post);
    lemma_parse_i64_signed_dec(n, negative);
}

/// A record whose `numa_node` attribute could not be read has node -1.
pub proof fn lemma_numa_node_unread(
    address: Seq<char>,
    device_path: Seq<char>,
    vendor: u16,
    class: u32,
    device: u16,
    attrs: DeviceAttributes,
    ids: PciIds,
)
    requires
        attrs.numa_node is None,
    ensures
        spec_read_device(address, device_path, vendor, class, device, attrs, ids).numa_node == -1,
{
}

/// The IOMMU group of a record is the number that the name its
/// `iommu_group` link points at spells, 0 included: a link to
/// `.../iommu_groups/0` is group 0.
pub proof fn lemma_iommu_group_reads_back(
    address: Seq<char>,
    device_path: Seq<char>,
    vendor: u16,
    class: u32,
    device: u16,
    attrs: DeviceAttributes,
    ids: PciIds,
    g: nat,
    negative: bool,
)
    requires
        attrs.iommu_group matches Some(name) && name@ == signed_dec(g, negative),
        negative ==> g <= 0x8000_0000_0000_0000,
        !negative ==> g <= 0x7fff_ffff_ffff_ffff,
    ensures
        spec_read_device(address, device_path, vendor, class, device, attrs, ids).iommu_group == (if negative {
            -g
        } else {
            g as int
        }),
{
    lemma_parse_i64_signed_dec(g, negative);
}

/// A record whose `iommu_group` link could not be read is in group -1, and
/// one whose `driver` link could not be read has no driver; a `driver` link
/// gives the name it points at.
pub proof fn lemma_unread_links(
    address: Seq<char>,
    device_path: Seq<char>,
    vendor: u16,
    class: u32,
    device: u16,
    attrs: DeviceAttributes,
    ids: PciIds,
)
    ensures
        attrs.iommu_group is None ==> spec_read_device(address, device_path, vendor, class, device, attrs, ids).iommu_group == -1,
        attrs.driver is None ==> spec_read_device(address, device_path, vendor, class, device, attrs, ids).driver.len() == 0,
        attrs.driver matches Some(name) ==> spec_read_device(address, device_path, vendor, class, device, attrs, ids).driver == name@,
{
}

/// The device name, found by index: where vendor entry `k` is the last with
/// number `vendor_id` that lists device `device_id`, and its first entry so
/// numbered is at `j`, the name is that entry's name.
pub proof fn lemma_device_name_by_index(
    vendors: Seq<PciVendor>,
    vendor_id: u16,
    device_id: u16,
    k: int,
    j: int,
)
    requires
        0 <= k < vendors.len(),
        vendors[k].id == vendor_id,
        0 <= j < vendors[k].devices@.len(),
        vendors[k].devices@[j].id == device_id,
        forall|i: int| 0 <= i < j ==> #[trigger] vendors[k].devices@[i].id != device_id,
        forall|l: int, i: int|
            k < l < vendors.len() && vendors[l].id == vendor_id && 0 <= i < vendors[l].devices@.len()
                ==> #[trigger] vendors[l].devices@[i].id != device_id,
    ensures
        spec_device_name(vendors, vendor_id, device_id) == vendors[k].devices@[j].name@,
    decreases vendors.len(),
{
    let last = vendors.len() - 1;
    let init = vendors.drop_last();
    if k == last {
        lemma_first_device_name_at(vendors[k].devices@, device_id, j);
    } else {
        let v = vendors[last];
        if v.id == vendor_id {
            assert forall|i: int| 0 <= i < v.devices@.len() implies #[trigger] v.devices@[i].id != device_id by {
                assert(vendors[last].devices@[i].id != device_id);
            }
            lemma_first_device_name_at(v.devices@, device_id, v.devices@.len() as int);
        }
        assert forall|l: int, i: int|
            k < l < init.len() && init[l].id == vendor_id && 0 <= i < init[l].devices@.len()
                implies #[trigger] init[l].devices@[i].id != device_id by {
            assert(init[l] == vendors[l]);
            assert(vendors[l].devices@[i].id != device_id);
        }
        assert(init[k] == vendors[k]);
        lemma_device_name_by_index(init, vendor_id, device_id, k, j);
    }
}

/// Where no vendor numbered `vendor_id` lists device `device_id`, the device
/// is `UNKNOWN_DEVICE`.
pub proof fn lemma_device_name_unknown(vendors: Seq<PciVendor>, vendor_id: u16, device_id: u16)
    requires
        forall|l: int, i: int|
            0 <= l < vendors.len() && vendors[l].id == vendor_id && 0 <= i < vendors[l].devices@.len()
                ==> #[trigger] vendors[l].devices@[i].id != device_id,
    ensures
        spec_device_name(vendors, vendor_id, device_id) == UNKNOWN_DEVICE@,
    decreases vendors.len(),
{
    if vendors.len() > 0 {
        let last = vendors.len() - 1;
        let init = vendors.drop_last();
        let v = vendors[last];
        if v.id == vendor_id {
            assert forall|i: int| 0 <= i < v.devices@.len() implies #[trigger] v.devices@[i].id != device_id by {
                assert(vendors[last].devices@[i].id != device_id);
            }
            lemma_first_device_name_at(v.devices@, device_id, v.devices@.len() as int);
        }
        assert forall|l: int, i: int|
            0 <= l < init.len() && init[l].id == vendor_id && 0 <= i < init[l].devices@.len()
                implies #[trigger] init[l].devices@[i].id != device_id by {
            assert(init[l] == vendors[l]);
            assert(vendors[l].devices@[i].id != device_id);
        }
        lemma_device_name_unknown(init, vendor_id, device_id);
    }
}

// ---------------------------------------------------------------------------
// Reading a device
// ---------------------------------------------------------------------------

/// What a sysfs attribute holding a hexadecimal number reads as: surrounding
/// whitespace and any leading `0x` dropped, the rest read as hexadecimal, and
/// `None` unless it fits under `max`.
pub open spec fn spec_parse_sysfs_hex(raw: Seq<char>, max: nat) -> Option<nat> {
    parse_unsigned(strip_hex_prefixes(trim(raw)), 16, max)
}

/// Reads a sysfs attribute that holds a hexadecimal number (such as `0x8086`).
pub fn parse_sysfs_hex(raw: &str, max: u64) -> (r: Option<u64>)
    ensures
        match r {
            Some(v) => spec_parse_sysfs_hex(raw@, max as nat) == Some(v as nat),
            None => spec_parse_sysfs_hex(raw@, max as nat) is None,
        },
{
    let chars = chars_of(raw);
    let trimmed = trim_chars(&chars);
    let digits = strip_hex_prefixes_chars(&trimmed);
    parse_hex(&digits, max)
}

/// The IOMMU group a device is in, from the name its `iommu_group` link
/// points at (`None` where the link could not be read): -1 where there is
/// none or it is not a number.
pub open spec fn spec_iommu_group(link_name: Option<String>) -> int {
    match link_name {
        Some(name) => match parse_i64(name@) {
            Some(g) => g,
            None => -1,
        },
        None => -1,
    }
}

/// The NUMA node of a device, from the contents of its `numa_node` attribute
/// (`None` where it could not be read): -1 where there is none or it is not a
/// number.
pub open spec fn spec_numa_node(raw: Option<String>) -> int {
    match raw {
        Some(text) => match parse_i64(trim(text@)) {
            Some(n) => n,
            None => -1,
        },
        None => -1,
    }
}

/// The driver bound to a device, from the name its `driver` link points at;
/// empty where the link could not be read.
pub open spec fn spec_driver(link_name: Option<String>) -> Seq<char> {
    match link_name {
        Some(name) => name@,
        None => Seq::<char>::empty(),
    }
}

/// What a device's sysfs directory holds beyond its vendor: the contents of
/// `class` and `device`, the names the `driver` and `iommu_group` links point
/// at, and the contents of `numa_node`; `None` for what could not be read.
pub struct DeviceAttributes {
    pub class: String,
    pub device: String,
    pub driver: Option<String>,
    pub iommu_group: Option<String>,
    pub numa_node: Option<String>,
}

/// The first step of a lookup: the device is already known, or its directory
/// has to be read.
pub enum DeviceLookup {
    Cached(PCIDevice),
    Read { address: String, device_path: String },
}

/// What the vendor attribute decides.
pub enum VendorCheck {
    /// The vendor is the one asked for (or none was asked for).
    Accept(u16),
    /// The device belongs to another vendor than the one asked for.
    Skip,
    /// The vendor attribute is not a hexadecimal `u16`.
    Malformed,
}

/// Whether `vendor` passes the vendor filter.
pub open spec fn vendor_passes(vendor: nat, filter: Option<u16>) -> bool {
    match filter {
        Some(f) => f == vendor,
        None => true,
    }
}

/// Reads the vendor attribute and holds it against the filter.
pub fn check_vendor(raw: &str, filter: Option<u16>) -> (r: VendorCheck)
    ensures
        r matches VendorCheck::Accept(x) ==> (spec_parse_sysfs_hex(raw@, 0xffff) == Some(x as nat) && (
        filter matches Some(f) ==> x == f)),
        r is Skip ==> (filter matches Some(f) && (spec_parse_sysfs_hex(raw@, 0xffff) matches Some(v)
            && v != f as nat)),
        match spec_parse_sysfs_hex(raw@, 0xffff) {
            None => r is Malformed,
            Some(v) => if vendor_passes(v, filter) {
                r == VendorCheck::Accept(v as u16)
            } else {
                r is Skip
            },
        },
{
    match parse_sysfs_hex(raw, 0xffff) {
        None => VendorCheck::Malformed,
        Some(v) => {
            let v = v as u16;
            match filter {
                Some(f) => if f != v {
                    VendorCheck::Skip
                } else {
                    VendorCheck::Accept(v)
                },
                None => VendorCheck::Accept(v),
            }
        },
    }
}

/// The device kept for any spelling of an address: `None` where the spelling
/// is not an address or nothing is kept under it.
pub open spec fn cached_device(cache: Map<Seq<char>, PciDeviceView>, spelling: Seq<char>) -> Option<PciDeviceView> {
    match spec_normalize_bdf(spelling) {
        Some(n) => if cache.contains_key(n) {
            Some(cache[n])
        } else {
            None
        },
        None => None,
    }
}

/// The record that a lookup builds from what it read.
pub open spec fn spec_read_device(
    address: Seq<char>,
    device_path: Seq<char>,
    vendor: u16,
    class: u32,
    device: u16,
    attrs: DeviceAttributes,
    ids: PciIds,
) -> PciDeviceView {
    PciDeviceView {
        device_path,
        address,
        vendor,
        class,
        class_name: spec_class_name(ids.classes@, class),
        device,
        device_name: spec_device_name(ids.vendors@, vendor, device),
        driver: spec_driver(attrs.driver),
        iommu_group: spec_iommu_group(attrs.iommu_group) as i64,
        numa_node: spec_numa_node(attrs.numa_node) as i64,
    }
}

/// Reads `raw` as an `i64`, -1 where it is not one.
fn i64_or_minus_one(raw: &Vec<char>) -> (r: i64)
    ensures
        r == match parse_i64(raw@) {
            Some(v) => v,
            None => -1,
        },
{
    match parse_i64_chars(raw) {
        Some(v) => v,
        None => -1,
    }
}

/// Builds the record of a device from its attributes, and keeps it in `cache`
/// under `address`.
pub fn finish_lookup(
    address: String,
    device_path: String,
    vendor: u16,
    attrs: &DeviceAttributes,
    ids: &PciIds,
    cache: &mut DeviceCache,
) -> (d: PCIDevice)
    requires
        spec_parse_sysfs_hex(attrs.class@, u32::MAX as nat) is Some,
        spec_parse_sysfs_hex(attrs.device@, u16::MAX as nat) is Some,
    ensures
        d@ == spec_read_device(
            address@,
            device_path@,
            vendor,
            spec_parse_sysfs_hex(attrs.class@, u32::MAX as nat).unwrap() as u32,
            spec_parse_sysfs_hex(attrs.device@, u16::MAX as nat).unwrap() as u16,
            *attrs,
            *ids,
        ),
        final(cache)@ == old(cache)@.insert(address@, d@),
{
    let class = match parse_sysfs_hex(attrs.class.as_str(), 0xffff_ffff) {
        Some(v) => v as u32,
        None => 0,
    };
    let device = match parse_sysfs_hex(attrs.device.as_str(), 0xffff) {
        Some(v) => v as u16,
        None => 0,
    };
    let driver = match &attrs.driver {
        Some(name) => name.clone(),
        None => String::new(),
    };
    let iommu_group = match &attrs.iommu_group {
        Some(name) => {
            let chars = chars_of(name.as_str());
            i64_or_minus_one(&chars)
        },
        None => -1,
    };
    let numa_node = match &attrs.numa_node {
        Some(text) => {
            let chars = chars_of(text.as_str());
            let trimmed = trim_chars(&chars);
            i64_or_minus_one(&trimmed)
        },
        None => -1,
    };
    let device_name = ids.device_name(vendor, device);
    let class_name = ids.class_name(class);
    let pci_device = PCIDevice {
        device_path,
        address,
        vendor,
        class,
        class_name,
        device,
        device_name,
        driver,
        iommu_group,
        numa_node,
    };
    cache.insert(copy_device(&pci_device));
    pci_device
}

/// Finds devices in a sysfs tree.
#[derive(Clone, Debug, Default)]
pub struct PCIDeviceManager {
    sysfs: Sysfs,
}

impl View for PCIDeviceManager {
    type V = Seq<char>;

    /// The mount point of the sysfs tree it reads.
    closed spec fn view(&self) -> Seq<char> {
        self.sysfs@
    }
}

impl PCIDeviceManager {
    /// A manager that reads the sysfs tree `sysfs`.
    pub fn new(sysfs: Sysfs) -> (m: Self)
        ensures
            m@ == sysfs@,
    {
        PCIDeviceManager { sysfs }
    }

    /// The first step of looking up `address`: `None` where it is not a PCI
    /// address; the kept device where one is kept under its canonical
    /// spelling; otherwise the canonical spelling and the directory to read.
    pub fn begin_lookup(&self, address: &str, cache: &DeviceCache) -> (r: Option<DeviceLookup>)
        ensures
            match spec_normalize_bdf(address@) {
                None => r is None,
                Some(n) => if cache@.contains_key(n) {
                    r matches Some(DeviceLookup::Cached(d)) && d@ == cache@[n]
                } else {
                    r matches Some(DeviceLookup::Read { address: a, device_path: p }) && a@ == n
                        && p@ == path_join(spec_devices(self@), n)
                },
            },
    {
        let n = match crate::bdf::normalize_bdf(address) {
            Some(n) => n,
            None => return None,
        };
        match cache.get(n.as_str()) {
            Some(d) => Some(DeviceLookup::Cached(d)),
            None => {
                let devices = self.sysfs.devices();
                let device_path = crate::sysfs::join_path(devices.as_str(), n.as_str());
                Some(DeviceLookup::Read { address: n, device_path })
            },
        }
    }
}

// ---------------------------------------------------------------------------
// What the cache gives back
// ---------------------------------------------------------------------------

/// Once the record read for an address is kept under its canonical spelling,
/// a lookup of any spelling of that address, and of the canonical spelling
/// itself, finds that record.
pub proof fn lemma_cache_reads_back(
    cache: Map<Seq<char>, PciDeviceView>,
    spelling: Seq<char>,
    canonical: Seq<char>,
    device: PciDeviceView,
)
    requires
        spec_normalize_bdf(spelling) == Some(canonical),
    ensures
        cached_device(cache.insert(canonical, device), spelling) == Some(device),
        cached_device(cache.insert(canonical, device), canonical) == Some(device),
{
    crate::bdf::lemma_normalize_bdf_idempotent(spelling);
}

/// Whether a config space of `len` bytes is a PCIe function's.
pub fn is_pcie_config_size(len: u64) -> (r: bool)
    ensures
        r == (len > PCI_CONFIG_SPACE_SZ),
{
    len > PCI_CONFIG_SPACE_SZ
}

/// What a listing does with one entry of the devices directory.
pub enum ListingStep<E> {
    /// The entry is a device to list.
    Keep(PCIDevice),
    /// The entry is passed over: its lookup failed, or it is of another vendor.
    Skip,
    /// The directory could not be read: the listing fails with this error.
    Fail(E),
}

/// Decides about one entry of the devices directory: `entry` is the error
/// reading the directory gave, or else what looking the entry up gave. A read
/// error ends the listing; a device found is kept; a failed lookup, or a
/// device of another vendor, is passed over.
pub fn listing_step<E, L>(entry: Result<Result<Option<PCIDevice>, L>, E>) -> (r: ListingStep<E>)
    ensures
        match entry {
            Err(e) => r == ListingStep::<E>::Fail(e),
            Ok(Ok(Some(d))) => r == ListingStep::<E>::Keep(d),
            Ok(_) => r is Skip,
        },
{
    match entry {
        Err(e) => ListingStep::Fail(e),
        Ok(Ok(Some(d))) => ListingStep::Keep(d),
        Ok(_) => ListingStep::Skip,
    }
}

// ---------------------------------------------------------------------------
// Listing order
// ---------------------------------------------------------------------------

/// The key by which a device is listed.
pub open spec fn device_key(d: PCIDevice) -> nat {
    spec_address_to_id(d.address@)
}

/// `output` is `input` reordered by `perm` (`output[k]` is `input[perm[k]]`),
/// ascending by key, with devices of equal key in the order they came in.
pub open spec fn is_stable_sort_by(input: Seq<PCIDevice>, output: Seq<PCIDevice>, perm: Seq<int>) -> bool {
    &&& perm.len() == input.len()
    &&& output.len() == input.len()
    &&& forall|k: int| 0 <= k < perm.len() ==> 0 <= #[trigger] perm[k] < input.len()
    &&& forall|k: int, l: int| 0 <= k < l < perm.len() ==> #[trigger] perm[k] != #[trigger] perm[l]
    &&& forall|k: int| 0 <= k < output.len() ==> #[trigger] output[k]@ == input[perm[k]]@
    &&& forall|k: int, l: int|
        0 <= k <= l < output.len() ==> device_key(#[trigger] output[k]) <= device_key(#[trigger] output[l])
    &&& forall|k: int, l: int|
        0 <= k < l < output.len() && device_key(#[trigger] output[k]) == device_key(#[trigger] output[l])
            ==> perm[k] < perm[l]
}

/// `output` is `input` sorted by address key, keeping the order of devices
/// whose keys are equal (what a stable `sort_by_key` gives).
pub open spec fn is_sorted_by_address(input: Seq<PCIDevice>, output: Seq<PCIDevice>) -> bool {
    exists|perm: Seq<int>| is_stable_sort_by(input, output, perm)
}

/// Sorts devices by the number their address stands for, keeping the order of
/// those that compare equal.
#[verifier::spinoff_prover]
#[verifier::rlimit(40)]
pub fn sort_devices(devices: Vec<PCIDevice>) -> (r: Vec<PCIDevice>)
    ensures
        is_sorted_by_address(devices@, r@),
{
    let ghost input = devices@;
    let n = devices.len();
    let mut rest = devices;
    let mut out: Vec<PCIDevice> = Vec::new();
    let mut keys: Vec<u64> = Vec::new();
    let ghost mut perm: Seq<int> = Seq::empty();
    for i in 0..n
        invariant
            n == input.len(),
            rest@ == input.skip(i as int),
            keys@.len() == out@.len(),
            forall|k: int| 0 <= k < out@.len() ==> #[trigger] keys@[k] == device_key(out@[k]),
            is_stable_sort_by(input.take(i as int), out@, perm),
            forall|k: int| 0 <= k < perm.len() ==> #[trigger] perm[k] < i,
    {
        assert(rest@[0] == input[i as int]);
        let d = rest.remove(0);
        assert(rest@ == input.skip(i + 1));
        let key = address_to_id(d.address.as_str());
        let len = keys.len();
        let mut j: usize = 0;
        while j < len && keys[j] <= key
            invariant
                j <= len,
                len == keys@.len(),
                forall|k: int| 0 <= k < j ==> #[trigger] keys@[k] <= key,
            decreases len - j,
        {
            j = j + 1;
        }
        let ghost old_out = out@;
        let ghost old_keys = keys@;
        let ghost old_perm = perm;
        out.insert(j, d);
        keys.insert(j, key);
        proof {
            perm = perm.insert(j as int, i as int);
            old_out.insert_ensures(j as int, d);
            old_keys.insert_ensures(j as int, key);
            old_perm.insert_ensures(j as int, i as int);
            let taken = input.take(i + 1);
            assert(taken[i as int] == input[i as int]);
            assert forall|k: int| 0 <= k < out@.len() implies #[trigger] keys@[k] == device_key(out@[k]) by {
                if k > j {
                    assert(keys@[k] == old_keys[k - 1]);
                    assert(out@[k] == old_out[k - 1]);
                }
            }
            // keys above the insertion point are larger than the new one
            assert forall|k: int| j <= k < old_keys.len() implies #[trigger] old_keys[k] > key by {
                assert(old_keys[j as int] > key);
                assert(device_key(old_out[j as int]) <= device_key(old_out[k]));
            }
            assert forall|k: int| 0 <= k < perm.len() implies 0 <= #[trigger] perm[k] < taken.len() by {
                if k > j {
                    assert(perm[k] == old_perm[k - 1]);
                }
            }
            assert forall|k: int| 0 <= k < perm.len() implies #[trigger] perm[k] < i + 1 by {
                if k > j {
                    assert(perm[k] == old_perm[k - 1]);
                }
            }
            assert forall|k: int, l: int| 0 <= k < l < perm.len() implies #[trigger] perm[k] != #[trigger] perm[l] by {
                if k < j && l > j {
                    assert(perm[l] == old_perm[l - 1]);
                } else if k > j {
                    assert(perm[l] == old_perm[l - 1]);
                    assert(perm[k] == old_perm[k - 1]);
                } else if k == j {
                    assert(perm[l] == old_perm[l - 1]);
                } else if l == j {
                } else {
                }
            }
            assert forall|k: int| 0 <= k < out@.len() implies #[trigger] out@[k]@ == taken[perm[k]]@ by {
                if k < j {
                    assert(taken[perm[k]] == input[perm[k]]);
                    assert(input.take(i as int)[perm[k]] == input[perm[k]]);
                } else if k > j {
                    assert(perm[k] == old_perm[k - 1]);
                    assert(out@[k] == old_out[k - 1]);
                    assert(taken[perm[k]] == input[perm[k]]);
                    assert(input.take(i as int)[perm[k]] == input[perm[k]]);
                }
            }
            assert forall|k: int, l: int|
                0 <= k <= l < out@.len() implies device_key(#[trigger] out@[k]) <= device_key(#[trigger] out@[l]) by {
                assert(keys@[k] == device_key(out@[k]));
                assert(keys@[l] == device_key(out@[l]));
                if k < j && l > j {
                    assert(old_keys[k] <= key);
                } else if k > j {
                    assert(out@[k] == old_out[k - 1]);
                    assert(out@[l] == old_out[l - 1]);
                } else if l < j {
                } else if k == j && l > j {
                    assert(old_keys[l - 1] > key);
                } else if k < j && l == j {
                    assert(old_keys[k] <= key);
                }
            }
            assert forall|k: int, l: int|
                0 <= k < l < out@.len() && device_key(#[trigger] out@[k]) == device_key(#[trigger] out@[l])
                implies perm[k] < perm[l] by {
                assert(keys@[k] == device_key(out@[k]));
                assert(keys@[l] == device_key(out@[l]));
                if k < j && l > j {
                    assert(old_keys[k] <= key);
                    assert(old_keys[l - 1] > key);
                } else if k > j {
                    assert(out@[k] == old_out[k - 1]);
                    assert(out@[l] == old_out[l - 1]);
                    assert(perm[l] == old_perm[l - 1]);
                    assert(perm[k] == old_perm[k - 1]);
                } else if k == j {
                    assert(old_keys[l - 1] > key);
                } else if l == j {
                    assert(perm[k] < i);
                }
            }
            assert(is_stable_sort_by(taken, out@, perm));
        }
    }
    assert(input.take(n as int) == input);
    assert(is_stable_sort_by(input, out@, perm));
    out
}

} // verus!
