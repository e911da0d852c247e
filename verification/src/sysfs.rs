//! Sysfs paths, off an injectable mount point so tests can point them at a
//! temp tree rather than the running kernel.
//!
//! Paths are held as text and joined as `Path::join` joins them on Unix.
use vstd::prelude::*;

use crate::bdf::{lemma_normalized_bdf_shape, normalize_bdf, spec_normalize_bdf};
use crate::text::is_lower_hex;
use crate::text::{chars_of, push_chars, string_of};

verus! {

/// Where sysfs is mounted on a running kernel.
pub const SYSFS: &'static str = "/sys";

/// `Path::join` on Unix: an absolute `path` replaces `base`; otherwise `path`
/// follows `base`, with a `/` between them unless `base` is empty or already
/// ends in one.
pub open spec fn path_join(base: Seq<char>, path: Seq<char>) -> Seq<char> {
    if path.len() > 0 && path[0] == '/' {
        path
    } else if base.len() > 0 && base.last() != '/' {
        base.push('/') + path
    } else {
        base + path
    }
}

/// `base` joined with `path`, as `Path::join` joins them on Unix.
pub fn join_path(base: &str, path: &str) -> (r: String)
    ensures
        r@ == path_join(base@, path@),
{
    let b = chars_of(base);
    let p = chars_of(path);
    let mut out: Vec<char> = Vec::new();
    if !(p.len() > 0 && p[0] == '/') {
        push_chars(&mut out, &b);
        if b.len() > 0 && b[b.len() - 1] != '/' {
            out.push('/');
        }
    }
    push_chars(&mut out, &p);
    string_of(&out)
}

/// The directory that holds one entry per PCI function, under `root`.
pub open spec fn spec_devices(root: Seq<char>) -> Seq<char> {
    path_join(root, "bus/pci/devices"@)
}

/// The directory of the device class `name`, under `root`.
pub open spec fn spec_class(root: Seq<char>, name: Seq<char>) -> Seq<char> {
    path_join(path_join(root, "class"@), name)
}

/// The path of a device is its canonical address one level below the devices
/// directory: whatever the caller spelled, the path names an entry of that
/// directory and nothing outside it.
pub proof fn lemma_device_path_stays_in_devices(root: Seq<char>, address: Seq<char>)
    ensures
        spec_normalize_bdf(address) matches Some(n) ==> {
            &&& path_join(spec_devices(root), n) == spec_devices(root).push('/') + n
            &&& !n.contains('/')
        },
{
    if let Some(n) = spec_normalize_bdf(address) {
        lemma_normalized_bdf_shape(address);
        reveal_strlit("bus/pci/devices");
        let rel = "bus/pci/devices"@;
        assert(rel[0] == 'b');
        let dev = spec_devices(root);
        assert(dev.len() > 0);
        assert(dev.last() == 's') by {
            assert(rel.last() == 's');
            if root.len() > 0 && root.last() != '/' {
                assert(dev == root.push('/') + rel);
            } else {
                assert(dev == root + rel);
            }
        }
        assert(is_lower_hex(n[0]));
        if n.contains('/') {
            let k = choose|k: int| 0 <= k < n.len() && n[k] == '/';
            if k != 4 && k != 7 && k != 10 {
                assert(is_lower_hex(n[k]));
            }
        }
    }
}

/// A sysfs tree, by the directory it is mounted at.
#[derive(Clone, Debug)]
pub struct Sysfs {
    root: String,
}

impl View for Sysfs {
    type V = Seq<char>;

    /// The mount point.
    closed spec fn view(&self) -> Seq<char> {
        self.root@
    }
}

impl Default for Sysfs {
    /// The sysfs of the running kernel.
    fn default() -> (s: Self)
        ensures
            s@ == SYSFS@,
    {
        Self::new(SYSFS)
    }
}

impl Sysfs {
    /// The sysfs tree mounted at `root`.
    pub fn new(root: &str) -> (s: Self)
        ensures
            s@ == root@,
    {
        let chars = chars_of(root);
        Sysfs { root: string_of(&chars) }
    }

    /// The directory of PCI functions.
    pub fn devices(&self) -> (p: String)
        ensures
            p@ == spec_devices(self@),
    {
        join_path(self.root.as_str(), "bus/pci/devices")
    }

    /// `None` unless the address is one, since this is where it becomes a
    /// path.
    pub fn device(&self, address: &str) -> (p: Option<String>)
        ensures
            match spec_normalize_bdf(address@) {
                Some(n) => p matches Some(q) && q@ == path_join(spec_devices(self@), n),
                None => p is None,
            },
    {
        match normalize_bdf(address) {
            Some(n) => {
                let devices = self.devices();
                Some(join_path(devices.as_str(), n.as_str()))
            },
            None => None,
        }
    }

    fn class(&self, name: &str) -> (p: String)
        ensures
            p@ == spec_class(self@, name@),
    {
        let classes = join_path(self.root.as_str(), "class");
        join_path(classes.as_str(), name)
    }

    /// `<name>/device` links to the PCI function behind a vfio character
    /// device.
    pub fn vfio_dev(&self, name: &str) -> (p: String)
        ensures
            p@ == path_join(spec_class(self@, "vfio-dev"@), name@),
    {
        let class = self.class("vfio-dev");
        join_path(class.as_str(), name)
    }
}

} // verus!
