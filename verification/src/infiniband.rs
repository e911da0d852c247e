//! A one-line summary of the InfiniBand devices a kernel exposes, built from
//! what was read out of `/sys/class/infiniband`, `/sys/class/infiniband_verbs`
//! and `/dev/infiniband`.
use vstd::prelude::*;

use crate::text::{chars_of, dec_string, push_chars, push_dec, push_str, string_of, trim, trim_chars};

verus! {

/// An entry of `/sys/class/infiniband`: its name, the name of the PCI
/// function its `device` link points at, and the contents of its `node_type`
/// and `fw_ver` attributes (`None` for what could not be read).
pub struct IbDeviceInfo {
    pub name: String,
    pub bdf: Option<String>,
    pub node_type: Option<String>,
    pub fw_ver: Option<String>,
}

/// An entry of `/sys/class/infiniband_verbs`: its name and the contents of its
/// `ibdev` and `dev` attributes (`None` for what could not be read).
pub struct VerbsInfo {
    pub name: String,
    pub ibdev: Option<String>,
    pub dev: Option<String>,
}

/// An entry of `/dev/infiniband`: its name, whether it is a character or a
/// block device, and the device number it stands for.
pub struct DevNodeInfo {
    pub name: String,
    pub is_char: bool,
    pub is_block: bool,
    pub rdev: u64,
}

/// What `format!("{:?}", s)` gives for a string with the characters `s`.
pub uninterp spec fn str_debug(s: Seq<char>) -> Seq<char>;

/// `<str as Debug>::fmt`, through `format!("{:?}", ..)`: `s` quoted and
/// escaped. The result is named, not spelled out.
#[verifier::external_body]
fn debug_str(s: &str) -> (r: String)
    ensures
        r@ == str_debug(s@),
{
    format!("{:?}", s)
}

/// `nix::sys::stat::major`: the major number of a Linux device number.
#[verifier::external_body]
fn device_major(rdev: u64) -> (r: u64)
    ensures
        r == ((rdev >> 32u64) & 0xffff_f000u64) | ((rdev >> 8u64) & 0x0000_0fffu64),
{
    nix::sys::stat::major(rdev)
}

/// `nix::sys::stat::minor`: the minor number of a Linux device number.
#[verifier::external_body]
fn device_minor(rdev: u64) -> (r: u64)
    ensures
        r == ((rdev >> 12u64) & 0xffff_ff00u64) | (rdev & 0x0000_00ffu64),
{
    nix::sys::stat::minor(rdev)
}

/// The major number of a Linux device number.
pub open spec fn spec_major(rdev: u64) -> u64 {
    ((rdev >> 32u64) & 0xffff_f000u64) | ((rdev >> 8u64) & 0x0000_0fffu64)
}

/// The minor number of a Linux device number.
pub open spec fn spec_minor(rdev: u64) -> u64 {
    ((rdev >> 12u64) & 0xffff_ff00u64) | (rdev & 0x0000_00ffu64)
}

/// The trimmed contents of an attribute, or nothing where it could not be
/// read.
pub open spec fn trimmed_or_empty(text: Option<String>) -> Seq<char> {
    match text {
        Some(t) => trim(t@),
        None => Seq::<char>::empty(),
    }
}

/// `parts` with `sep` between each two.
pub open spec fn join_with(parts: Seq<Seq<char>>, sep: Seq<char>) -> Seq<char>
    decreases parts.len(),
{
    if parts.len() == 0 {
        Seq::<char>::empty()
    } else if parts.len() == 1 {
        parts[0]
    } else {
        join_with(parts.drop_last(), sep) + sep + parts.last()
    }
}

/// `name=[bdf=..,node_type=..,fw=..]`, given the node type already quoted.
pub open spec fn ib_entry_quoted(d: IbDeviceInfo, quoted_node_type: Seq<char>) -> Seq<char> {
    d.name@ + "=[bdf="@ + (match d.bdf {
        Some(b) => b@,
        None => "<none>"@,
    }) + ",node_type="@ + quoted_node_type + ",fw="@ + trimmed_or_empty(d.fw_ver) + "]"@
}

/// `name=[bdf=..,node_type=..,fw=..]`, with the trimmed node type quoted.
pub open spec fn ib_entry(d: IbDeviceInfo) -> Seq<char> {
    ib_entry_quoted(d, str_debug(trimmed_or_empty(d.node_type)))
}

/// Whether an entry of `/sys/class/infiniband_verbs` named `name` is a
/// `uverbs` device.
pub open spec fn is_uverbs(name: Seq<char>) -> bool {
    "uverbs"@.is_prefix_of(name)
}

/// `name=[ibdev=..,dev=..]`.
pub open spec fn verbs_entry(v: VerbsInfo) -> Seq<char> {
    v.name@ + "=[ibdev="@ + trimmed_or_empty(v.ibdev) + ",dev="@ + trimmed_or_empty(v.dev) + "]"@
}

/// `char`, `block` or `other`.
pub open spec fn node_kind(n: DevNodeInfo) -> Seq<char> {
    if n.is_char {
        "char"@
    } else if n.is_block {
        "block"@
    } else {
        "other"@
    }
}

/// `name=[kind,major:minor]`.
pub open spec fn node_entry(n: DevNodeInfo) -> Seq<char> {
    n.name@ + "=["@ + node_kind(n) + ","@ + dec_string(spec_major(n.rdev) as nat) + ":"@ + dec_string(
        spec_minor(n.rdev) as nat,
    ) + "]"@
}

/// The whole summary: every InfiniBand device, every `uverbs` entry and every
/// device node, each list in the order given and joined with `, `.
pub open spec fn spec_summary(ib: Seq<IbDeviceInfo>, verbs: Seq<VerbsInfo>, nodes: Seq<DevNodeInfo>) -> Seq<char> {
    "ib_devices=["@ + join_with(ib.map_values(|d: IbDeviceInfo| ib_entry(d)), ", "@) + "] uverbs=["@
        + join_with(
        verbs.filter(|v: VerbsInfo| is_uverbs(v.name@)).map_values(|v: VerbsInfo| verbs_entry(v)),
        ", "@,
    ) + "] chardevs=["@ + join_with(nodes.map_values(|n: DevNodeInfo| node_entry(n)), ", "@) + "]"@
}

fn push_trimmed_or_empty(out: &mut Vec<char>, text: &Option<String>)
    ensures
        final(out)@ == old(out)@ + trimmed_or_empty(*text),
{
    match text {
        Some(t) => {
            let chars = chars_of(t.as_str());
            let trimmed = trim_chars(&chars);
            push_chars(out, &trimmed);
        },
        None => {
            assert(old(out)@ + Seq::<char>::empty() == old(out)@);
        },
    }
}

/// The summary entry of an InfiniBand device, given its node type already
/// quoted.
pub fn ib_entry_from_quoted(d: &IbDeviceInfo, quoted_node_type: &str) -> (r: Vec<char>)
    ensures
        r@ == ib_entry_quoted(*d, quoted_node_type@),
{
    let mut out: Vec<char> = Vec::new();
    push_str(&mut out, d.name.as_str());
    push_str(&mut out, "=[bdf=");
    match &d.bdf {
        Some(b) => push_str(&mut out, b.as_str()),
        None => push_str(&mut out, "<none>"),
    }
    push_str(&mut out, ",node_type=");
    push_str(&mut out, quoted_node_type);
    push_str(&mut out, ",fw=");
    push_trimmed_or_empty(&mut out, &d.fw_ver);
    push_str(&mut out, "]");
    out
}

fn ib_entry_exec(d: &IbDeviceInfo) -> (r: Vec<char>)
    ensures
        r@ == ib_entry(*d),
{
    let mut node_type: Vec<char> = Vec::new();
    push_trimmed_or_empty(&mut node_type, &d.node_type);
    assert(node_type@ == trimmed_or_empty(d.node_type));
    let quoted = debug_str(string_of(&node_type).as_str());
    ib_entry_from_quoted(d, quoted.as_str())
}

fn verbs_entry_exec(v: &VerbsInfo) -> (r: Vec<char>)
    ensures
        r@ == verbs_entry(*v),
{
    let mut out: Vec<char> = Vec::new();
    push_str(&mut out, v.name.as_str());
    push_str(&mut out, "=[ibdev=");
    push_trimmed_or_empty(&mut out, &v.ibdev);
    push_str(&mut out, ",dev=");
    push_trimmed_or_empty(&mut out, &v.dev);
    push_str(&mut out, "]");
    out
}

/// Whether an entry of `/sys/class/infiniband_verbs` named `name` is a
/// `uverbs` device, whose attributes go into the summary.
pub fn is_uverbs_name(name: &str) -> (r: bool)
    ensures
        r == is_uverbs(name@),
{
    let prefix = chars_of("uverbs");
    let name_chars = chars_of(name);
    if prefix.len() > name_chars.len() {
        return false;
    }
    for i in 0..prefix.len()
        invariant
            prefix@.len() <= name_chars@.len(),
            prefix@ == "uverbs"@,
            name_chars@ == name@,
            forall|k: int| 0 <= k < i ==> prefix@[k] == name_chars@[k],
    {
        if prefix[i] != name_chars[i] {
            assert(prefix@ != name_chars@.subrange(0, prefix@.len() as int)) by {
                assert(name_chars@.subrange(0, prefix@.len() as int)[i as int] == name_chars@[i as int]);
            }
            return false;
        }
    }
    assert(prefix@ =~= name_chars@.subrange(0, prefix@.len() as int));
    true
}

fn node_entry_exec(n: &DevNodeInfo) -> (r: Vec<char>)
    ensures
        r@ == node_entry(*n),
{
    let mut out: Vec<char> = Vec::new();
    push_str(&mut out, n.name.as_str());
    push_str(&mut out, "=[");
    if n.is_char {
        push_str(&mut out, "char");
    } else if n.is_block {
        push_str(&mut out, "block");
    } else {
        push_str(&mut out, "other");
    }
    push_str(&mut out, ",");
    push_dec(&mut out, device_major(n.rdev));
    push_str(&mut out, ":");
    push_dec(&mut out, device_minor(n.rdev));
    push_str(&mut out, "]");
    out
}

/// Appends `parts` with `sep` between each two.
fn push_joined(out: &mut Vec<char>, parts: &Vec<Vec<char>>, sep: &str)
    ensures
        final(out)@ == old(out)@ + join_with(parts@.map_values(|p: Vec<char>| p@), sep@),
{
    let ghost whole = parts@.map_values(|p: Vec<char>| p@);
    let ghost before = out@;
    for i in 0..parts.len()
        invariant
            whole == parts@.map_values(|p: Vec<char>| p@),
            before == old(out)@,
            out@ == before + join_with(whole.take(i as int), sep@),
    {
        let ghost prev = whole.take(i as int);
        let ghost next = whole.take(i + 1);
        assert(next.drop_last() == prev);
        assert(next.last() == parts@[i as int]@);
        if i > 0 {
            push_str(out, sep);
        } else {
            assert(prev.len() == 0);
            assert(join_with(prev, sep@) == Seq::<char>::empty());
        }
        push_chars(out, &parts[i]);
    }
    assert(whole.take(parts@.len() as int) == whole);
}

/// The one-line summary of every InfiniBand device, `uverbs` entry and device
/// node given.
pub fn infiniband_summary(ib: &Vec<IbDeviceInfo>, verbs: &Vec<VerbsInfo>, nodes: &Vec<DevNodeInfo>) -> (r: String)
    ensures
        r@ == spec_summary(ib@, verbs@, nodes@),
{
    let mut ib_parts: Vec<Vec<char>> = Vec::new();
    for i in 0..ib.len()
        invariant
            ib_parts@.map_values(|p: Vec<char>| p@) == ib@.take(i as int).map_values(
                |d: IbDeviceInfo| ib_entry(d),
            ),
    {
        let ghost old_parts = ib_parts@;
        ib_parts.push(ib_entry_exec(&ib[i]));
        assert(ib@.take(i + 1) == ib@.take(i as int).push(ib@[i as int]));
        assert(ib_parts@.map_values(|p: Vec<char>| p@) =~= old_parts.map_values(|p: Vec<char>| p@).push(
            ib_entry(ib@[i as int]),
        ));
        assert(ib@.take(i + 1).map_values(|d: IbDeviceInfo| ib_entry(d)) =~= ib@.take(i as int).map_values(
            |d: IbDeviceInfo| ib_entry(d),
        ).push(ib_entry(ib@[i as int])));
        assert(ib_parts@.map_values(|p: Vec<char>| p@) =~= ib@.take(i + 1).map_values(
            |d: IbDeviceInfo| ib_entry(d),
        ));
    }
    assert(ib@.take(ib@.len() as int) == ib@);

    let ghost keep = |v: VerbsInfo| is_uverbs(v.name@);
    let mut verbs_parts: Vec<Vec<char>> = Vec::new();
    for i in 0..verbs.len()
        invariant
            keep == (|v: VerbsInfo| is_uverbs(v.name@)),
            verbs_parts@.map_values(|p: Vec<char>| p@) == verbs@.take(i as int).filter(keep).map_values(
                |v: VerbsInfo| verbs_entry(v),
            ),
    {
        reveal_with_fuel(Seq::filter, 1);
        let ghost taken = verbs@.take(i + 1);
        assert(taken.drop_last() == verbs@.take(i as int));
        assert(taken.last() == verbs@[i as int]);
        if is_uverbs_name(verbs[i].name.as_str()) {
            let ghost old_parts = verbs_parts@;
            verbs_parts.push(verbs_entry_exec(&verbs[i]));
            assert(taken.filter(keep) == verbs@.take(i as int).filter(keep).push(verbs@[i as int]));
            assert(verbs_parts@.map_values(|p: Vec<char>| p@) =~= old_parts.map_values(|p: Vec<char>| p@).push(
                verbs_entry(verbs@[i as int]),
            ));
            assert(taken.filter(keep).map_values(|v: VerbsInfo| verbs_entry(v)) =~= verbs@.take(
                i as int,
            ).filter(keep).map_values(|v: VerbsInfo| verbs_entry(v)).push(verbs_entry(verbs@[i as int])));
            assert(verbs_parts@.map_values(|p: Vec<char>| p@) =~= taken.filter(keep).map_values(
                |v: VerbsInfo| verbs_entry(v),
            ));
        }
    }
    assert(verbs@.take(verbs@.len() as int) == verbs@);

    let mut node_parts: Vec<Vec<char>> = Vec::new();
    for i in 0..nodes.len()
        invariant
            node_parts@.map_values(|p: Vec<char>| p@) == nodes@.take(i as int).map_values(
                |n: DevNodeInfo| node_entry(n),
            ),
    {
        let ghost old_parts = node_parts@;
        node_parts.push(node_entry_exec(&nodes[i]));
        assert(nodes@.take(i + 1) == nodes@.take(i as int).push(nodes@[i as int]));
        assert(node_parts@.map_values(|p: Vec<char>| p@) =~= old_parts.map_values(|p: Vec<char>| p@).push(
            node_entry(nodes@[i as int]),
        ));
        assert(nodes@.take(i + 1).map_values(|n: DevNodeInfo| node_entry(n)) =~= nodes@.take(
            i as int,
        ).map_values(|n: DevNodeInfo| node_entry(n)).push(node_entry(nodes@[i as int])));
        assert(node_parts@.map_values(|p: Vec<char>| p@) =~= nodes@.take(i + 1).map_values(
            |n: DevNodeInfo| node_entry(n),
        ));
    }
    assert(nodes@.take(nodes@.len() as int) == nodes@);

    let mut out: Vec<char> = Vec::new();
    push_str(&mut out, "ib_devices=[");
    push_joined(&mut out, &ib_parts, ", ");
    push_str(&mut out, "] uverbs=[");
    push_joined(&mut out, &verbs_parts, ", ");
    push_str(&mut out, "] chardevs=[");
    push_joined(&mut out, &node_parts, ", ");
    push_str(&mut out, "]");
    string_of(&out)
}

} // verus!
