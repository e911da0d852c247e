//! PCI addresses (`domain:bus:device.function`) and their canonical spelling.
use vstd::prelude::*;

use crate::text::{
    all_digits, chars_of, digits_value, fold_case, is_digit, lemma_digits_value_bound, lemma_filter_all,
    lemma_filter_drop_one, lemma_lex_lt_concat, lemma_lex_lt_irreflexive, lemma_lex_lt_lower_hex, lex_lt,
    pow16, hex_lower, hex_padded, is_lower_hex, lemma_hex_lower, lemma_hex_padded,
    lemma_parse_hex_digits, lemma_parse_unsigned_ignores_case, lemma_split_on_concat,
    lemma_split_on_ignores_case, lemma_split_on_without_sep, lemma_split_once_at,
    lemma_split_once_ignores_case, parse_hex, parse_unsigned, push_hex, push_hex_padded,
    same_ignoring_case, split_chars, split_on, split_once, split_once_chars, str_is, string_of,
};
use crate::{
    DRIVER_VFIO_AP_COLD_TYPE, DRIVER_VFIO_AP_TYPE, DRIVER_VFIO_PCI_GK_TYPE, DRIVER_VFIO_PCI_TYPE,
    PCI_DEV_DOMAIN,
};

verus! {

/// The canonical spelling of an address: a four-digit domain, a two-digit bus
/// and device, and the function, all in lower-case hexadecimal.
pub open spec fn canonical_bdf(domain: nat, bus: nat, device: nat, function: nat) -> Seq<char> {
    hex_padded(domain, 4) + seq![':'] + hex_padded(bus, 2) + seq![':'] + hex_padded(device, 2)
        + seq!['.'] + hex_lower(function)
}

/// What `normalize_bdf` gives for `s`: `s` must be `bus:slot` or
/// `domain:bus:slot`, `slot` must be `device.function` (split at its first
/// dot), the domain must read as a hexadecimal `u16` and the other three as
/// hexadecimal `u8`s; an omitted domain is `PCI_DEV_DOMAIN`. The address is
/// then spelled out again from the numbers.
pub open spec fn spec_normalize_bdf(s: Seq<char>) -> Option<Seq<char>> {
    let fields = split_on(s, ':');
    if fields.len() == 2 || fields.len() == 3 {
        let domain = if fields.len() == 2 { PCI_DEV_DOMAIN@ } else { fields[0] };
        let bus = fields[fields.len() - 2];
        let slot = fields[fields.len() - 1];
        match split_once(slot, '.') {
            Some((device, function)) => {
                match (
                    parse_unsigned(domain, 16, 0xffff),
                    parse_unsigned(bus, 16, 0xff),
                    parse_unsigned(device, 16, 0xff),
                    parse_unsigned(function, 16, 0xff),
                ) {
                    (Some(d), Some(b), Some(v), Some(f)) => Some(canonical_bdf(d, b, v, f)),
                    _ => None,
                }
            },
            None => None,
        }
    } else {
        None
    }
}

/// `65:00.0` and `0000:65:00.0` name the same device; sysfs only answers to
/// the second.
///
/// Rebuilt from the parsed numbers rather than patched up, because the result
/// is joined onto a sysfs root: none of the caller's string may reach a path.
pub fn normalize_bdf(bdf: &str) -> (r: Option<String>)
    ensures
        match r {
            Some(out) => spec_normalize_bdf(bdf@) == Some(out@),
            None => spec_normalize_bdf(bdf@) is None,
        },
{
    let chars = chars_of(bdf);
    let fields = split_chars(&chars, ':');
    let n = fields.len();
    if n != 2 && n != 3 {
        return None;
    }
    let default_domain = chars_of(PCI_DEV_DOMAIN);
    let domain: &Vec<char> = if n == 2 { &default_domain } else { &fields[0] };
    let bus: &Vec<char> = &fields[n - 2];
    let slot: &Vec<char> = &fields[n - 1];
    assert(fields@[n - 1]@ == split_on(bdf@, ':')[n - 1]);
    assert(fields@[n - 2]@ == split_on(bdf@, ':')[n - 2]);
    assert(fields@[0]@ == split_on(bdf@, ':')[0]);
    let (device, function) = match split_once_chars(slot, '.') {
        Some(parts) => parts,
        None => return None,
    };
    let d = match parse_hex(domain, 0xffff) {
        Some(v) => v,
        None => return None,
    };
    let b = match parse_hex(bus, 0xff) {
        Some(v) => v,
        None => return None,
    };
    let v = match parse_hex(&device, 0xff) {
        Some(v) => v,
        None => return None,
    };
    let f = match parse_hex(&function, 0xff) {
        Some(v) => v,
        None => return None,
    };
    let mut out: Vec<char> = Vec::new();
    push_hex_padded(&mut out, d, 4);
    out.push(':');
    push_hex_padded(&mut out, b, 2);
    out.push(':');
    push_hex_padded(&mut out, v, 2);
    out.push('.');
    push_hex(&mut out, f);
    assert(out@ == canonical_bdf(d as nat, b as nat, v as nat, f as nat));
    Some(string_of(&out))
}

/// Whether `device_type` names one of the vfio drivers.
pub fn is_vfio_device_type(device_type: &str) -> (r: bool)
    ensures
        r == (device_type@ == DRIVER_VFIO_PCI_TYPE@ || device_type@ == DRIVER_VFIO_PCI_GK_TYPE@
            || device_type@ == DRIVER_VFIO_AP_TYPE@ || device_type@ == DRIVER_VFIO_AP_COLD_TYPE@),
{
    str_is(device_type, DRIVER_VFIO_PCI_TYPE) || str_is(device_type, DRIVER_VFIO_PCI_GK_TYPE)
        || str_is(device_type, DRIVER_VFIO_AP_TYPE) || str_is(device_type, DRIVER_VFIO_AP_COLD_TYPE)
}

/// Whether `c` is kept when the separators are taken out of an address.
pub open spec fn is_not_separator(c: char) -> bool {
    c != ':' && c != '.'
}

/// The number an address stands for when its separators are dropped and the
/// rest is read as one hexadecimal `u64`; 0 where that fails.
pub open spec fn spec_address_to_id(address: Seq<char>) -> nat {
    match parse_unsigned(address.filter(|c: char| is_not_separator(c)), 16, u64::MAX as nat) {
        Some(v) => v,
        None => 0,
    }
}

/// The key by which devices are ordered: the address with `:` and `.`
/// removed, read as a hexadecimal `u64`, or 0 where that fails.
pub fn address_to_id(address: &str) -> (id: u64)
    ensures
        id == spec_address_to_id(address@),
{
    let chars = chars_of(address);
    let ghost keep = |c: char| is_not_separator(c);
    let mut cleaned: Vec<char> = Vec::new();
    for i in 0..chars.len()
        invariant
            chars@ == address@,
            keep == (|c: char| is_not_separator(c)),
            cleaned@ == chars@.take(i as int).filter(keep),
    {
        reveal_with_fuel(Seq::filter, 1);
        assert(chars@.take(i + 1).drop_last() == chars@.take(i as int));
        assert(chars@.take(i + 1).last() == chars@[i as int]);
        if chars[i] != ':' && chars[i] != '.' {
            cleaned.push(chars[i]);
        }
    }
    assert(chars@.take(chars@.len() as int) == chars@);
    match parse_hex(&cleaned, u64::MAX) {
        Some(v) => v,
        None => 0,
    }
}

/// The four numbers of a 12-character canonical address, as its digits
/// without the separators.
pub open spec fn canonical_digits(a: Seq<char>) -> Seq<char> {
    a.subrange(0, 4) + (a.subrange(5, 7) + (a.subrange(8, 10) + a.subrange(11, 12)))
}

proof fn lemma_canonical_id(a: Seq<char>)
    requires
        spec_normalize_bdf(a) == Some(a),
        a.len() == 12,
    ensures
        a == a.subrange(0, 4) + (seq![':'] + (a.subrange(5, 7) + (seq![':'] + (a.subrange(8, 10) + (
        seq!['.'] + a.subrange(11, 12)))))),
        canonical_digits(a).len() == 9,
        forall|i: int| 0 <= i < 9 ==> #[trigger] is_lower_hex(canonical_digits(a)[i]),
        spec_address_to_id(a) == digits_value(canonical_digits(a), 16),
{
    lemma_normalized_bdf_shape(a);
    let p1 = a.subrange(0, 4);
    let p2 = a.subrange(5, 7);
    let p3 = a.subrange(8, 10);
    let p4 = a.subrange(11, 12);
    let c = seq![':'];
    let d = seq!['.'];
    assert(a =~= p1 + (c + (p2 + (c + (p3 + (d + p4))))));
    let digits = canonical_digits(a);
    assert forall|i: int| 0 <= i < 9 implies #[trigger] is_lower_hex(digits[i]) by {
        if i < 4 {
            assert(digits[i] == a[i]);
        } else if i < 6 {
            assert(digits[i] == a[i + 1]);
        } else if i < 8 {
            assert(digits[i] == a[i + 2]);
        } else {
            assert(digits[i] == a[i + 3]);
        }
    }
    let keep = |ch: char| is_not_separator(ch);
    assert forall|i: int| 0 <= i < p1.len() implies #[trigger] keep(p1[i]) by { assert(is_lower_hex(a[i])); }
    assert forall|i: int| 0 <= i < p2.len() implies #[trigger] keep(p2[i]) by { assert(is_lower_hex(a[i + 5])); }
    assert forall|i: int| 0 <= i < p3.len() implies #[trigger] keep(p3[i]) by { assert(is_lower_hex(a[i + 8])); }
    assert forall|i: int| 0 <= i < p4.len() implies #[trigger] keep(p4[i]) by { assert(is_lower_hex(a[i + 11])); }
    lemma_filter_all(p1, keep);
    lemma_filter_all(p2, keep);
    lemma_filter_all(p3, keep);
    lemma_filter_all(p4, keep);
    lemma_filter_drop_one(':', keep);
    lemma_filter_drop_one('.', keep);
    Seq::filter_distributes_over_add(d, p4, keep);
    Seq::filter_distributes_over_add(p3, d + p4, keep);
    Seq::filter_distributes_over_add(c, p3 + (d + p4), keep);
    Seq::filter_distributes_over_add(p2, c + (p3 + (d + p4)), keep);
    Seq::filter_distributes_over_add(c, p2 + (c + (p3 + (d + p4))), keep);
    Seq::filter_distributes_over_add(p1, c + (p2 + (c + (p3 + (d + p4)))), keep);
    assert(Seq::<char>::empty() + p4 == p4);
    assert(Seq::<char>::empty() + (p3 + p4) == p3 + p4);
    assert(Seq::<char>::empty() + (p2 + (p3 + p4)) == p2 + (p3 + p4));
    assert(a.filter(keep) == digits);
    assert forall|i: int| 0 <= i < digits.len() implies #[trigger] is_digit(digits[i], 16) by {
        assert(is_lower_hex(digits[i]));
    }
    lemma_digits_value_bound(digits);
    reveal_with_fuel(pow16, 10);
    assert(pow16(9) == 68719476736);
    lemma_parse_hex_digits(digits, u64::MAX as nat);
}

/// Listing by `address_to_id` lists 12-character canonical addresses in string
/// order: one key is below another exactly when its address sorts first, and
/// the keys are equal exactly when the addresses are.
pub proof fn lemma_address_id_orders_canonical(a: Seq<char>, b: Seq<char>)
    requires
        spec_normalize_bdf(a) == Some(a),
        spec_normalize_bdf(b) == Some(b),
        a.len() == 12,
        b.len() == 12,
    ensures
        (spec_address_to_id(a) < spec_address_to_id(b)) == lex_lt(a, b),
        (spec_address_to_id(a) == spec_address_to_id(b)) == (a == b),
{
    lemma_canonical_id(a);
    lemma_canonical_id(b);
    let (p1, p2, p3, p4) = (a.subrange(0, 4), a.subrange(5, 7), a.subrange(8, 10), a.subrange(11, 12));
    let (q1, q2, q3, q4) = (b.subrange(0, 4), b.subrange(5, 7), b.subrange(8, 10), b.subrange(11, 12));
    let c = seq![':'];
    let d = seq!['.'];
    lemma_lex_lt_lower_hex(canonical_digits(a), canonical_digits(b));
    // the order of the digit strings
    lemma_lex_lt_concat(p1, p2 + (p3 + p4), q1, q2 + (q3 + q4));
    lemma_lex_lt_concat(p2, p3 + p4, q2, q3 + q4);
    lemma_lex_lt_concat(p3, p4, q3, q4);
    // the order of the addresses, separators included
    lemma_lex_lt_irreflexive(c);
    lemma_lex_lt_irreflexive(d);
    lemma_lex_lt_concat(p1, c + (p2 + (c + (p3 + (d + p4)))), q1, c + (q2 + (c + (q3 + (d + q4)))));
    lemma_lex_lt_concat(c, p2 + (c + (p3 + (d + p4))), c, q2 + (c + (q3 + (d + q4))));
    lemma_lex_lt_concat(p2, c + (p3 + (d + p4)), q2, c + (q3 + (d + q4)));
    lemma_lex_lt_concat(c, p3 + (d + p4), c, q3 + (d + q4));
    lemma_lex_lt_concat(p3, d + p4, q3, d + q4);
    lemma_lex_lt_concat(d, p4, d, q4);
    // equality
    if canonical_digits(a) == canonical_digits(b) {
        assert(p1 == canonical_digits(a).subrange(0, 4));
        assert(q1 == canonical_digits(b).subrange(0, 4));
        assert(p2 == canonical_digits(a).subrange(4, 6));
        assert(q2 == canonical_digits(b).subrange(4, 6));
        assert(p3 == canonical_digits(a).subrange(6, 8));
        assert(q3 == canonical_digits(b).subrange(6, 8));
        assert(p4 == canonical_digits(a).subrange(8, 9));
        assert(q4 == canonical_digits(b).subrange(8, 9));
    }
}

/// Reading the canonical spelling of an address gives that same spelling.
pub proof fn lemma_canonical_bdf_reads_back(d: nat, b: nat, v: nat, f: nat)
    requires
        d <= 0xffff,
        b <= 0xff,
        v <= 0xff,
        f <= 0xff,
    ensures
        spec_normalize_bdf(canonical_bdf(d, b, v, f)) == Some(canonical_bdf(d, b, v, f)),
{
    let a = hex_padded(d, 4);
    let bb = hex_padded(b, 2);
    let vv = hex_padded(v, 2);
    let ff = hex_lower(f);
    lemma_hex_padded(d, 4);
    lemma_hex_padded(b, 2);
    lemma_hex_padded(v, 2);
    lemma_hex_lower(f);
    lemma_parse_hex_digits(a, 0xffff);
    lemma_parse_hex_digits(bb, 0xff);
    lemma_parse_hex_digits(vv, 0xff);
    lemma_parse_hex_digits(ff, 0xff);
    let t = vv.push('.') + ff;
    let o = canonical_bdf(d, b, v, f);
    assert(o == a.push(':') + (bb.push(':') + t));
    assert(!t.contains(':')) by {
        if t.contains(':') {
            let k = choose|k: int| 0 <= k < t.len() && t[k] == ':';
            if k < vv.len() {
                assert(t[k] == vv[k]);
                assert(vv.contains(':'));
            } else if k > vv.len() {
                assert(t[k] == ff[k - vv.len() - 1]);
                assert(ff.contains(':'));
            }
        }
    }
    lemma_split_on_concat(a, bb.push(':') + t, ':');
    lemma_split_on_concat(bb, t, ':');
    lemma_split_on_without_sep(a, ':');
    lemma_split_on_without_sep(bb, ':');
    lemma_split_on_without_sep(t, ':');
    let fields = split_on(o, ':');
    assert(fields == seq![a, bb, t]);
    assert forall|k: int| 0 <= k < vv.len() implies #[trigger] t[k] != '.' by {
        assert(t[k] == vv[k]);
        assert(is_lower_hex(vv[k]));
    }
    lemma_split_once_at(t, '.', vv.len() as int);
    assert(t.take(vv.len() as int) == vv);
    assert(t.skip(vv.len() as int + 1) == ff);
}

/// Normalizing an address that is already normalized leaves it as it is.
pub proof fn lemma_normalize_bdf_idempotent(s: Seq<char>)
    ensures
        spec_normalize_bdf(s) matches Some(o) ==> spec_normalize_bdf(o) == Some(o),
{
    let fields = split_on(s, ':');
    if fields.len() == 2 || fields.len() == 3 {
        let domain = if fields.len() == 2 { PCI_DEV_DOMAIN@ } else { fields[0] };
        let slot = fields[fields.len() - 1];
        if let Some((device, function)) = split_once(slot, '.') {
            let bus = fields[fields.len() - 2];
            if let (Some(d), Some(b), Some(v), Some(f)) = (
                parse_unsigned(domain, 16, 0xffff),
                parse_unsigned(bus, 16, 0xff),
                parse_unsigned(device, 16, 0xff),
                parse_unsigned(function, 16, 0xff),
            ) {
                lemma_canonical_bdf_reads_back(d, b, v, f);
            }
        }
    }
}

/// A normalized address is `dddd:bb:dd.f` or `dddd:bb:dd.ff`: lower-case
/// hexadecimal digits with a colon at 4 and 7 and a dot at 10, and nothing
/// else, so it can be joined onto a path without leaving the directory it
/// names.
pub proof fn lemma_normalized_bdf_shape(s: Seq<char>)
    ensures
        spec_normalize_bdf(s) matches Some(o) ==> {
            &&& o.len() == 12 || o.len() == 13
            &&& o[4] == ':' && o[7] == ':' && o[10] == '.'
            &&& forall|i: int|
                0 <= i < o.len() && i != 4 && i != 7 && i != 10 ==> #[trigger] is_lower_hex(o[i])
        },
{
    let fields = split_on(s, ':');
    if fields.len() == 2 || fields.len() == 3 {
        let domain = if fields.len() == 2 { PCI_DEV_DOMAIN@ } else { fields[0] };
        let slot = fields[fields.len() - 1];
        if let Some((device, function)) = split_once(slot, '.') {
            let bus = fields[fields.len() - 2];
            if let (Some(d), Some(b), Some(v), Some(f)) = (
                parse_unsigned(domain, 16, 0xffff),
                parse_unsigned(bus, 16, 0xff),
                parse_unsigned(device, 16, 0xff),
                parse_unsigned(function, 16, 0xff),
            ) {
                lemma_hex_lower(d);
                lemma_hex_lower(b);
                lemma_hex_lower(v);
                lemma_hex_padded(d, 4);
                lemma_hex_padded(b, 2);
                lemma_hex_padded(v, 2);
                lemma_hex_lower(f);
                let a = hex_padded(d, 4);
                let bb = hex_padded(b, 2);
                let vv = hex_padded(v, 2);
                let ff = hex_lower(f);
                let o = canonical_bdf(d, b, v, f);
                assert forall|i: int|
                    0 <= i < o.len() && i != 4 && i != 7 && i != 10 implies #[trigger] is_lower_hex(o[i]) by {
                    if i < 4 {
                        assert(o[i] == a[i]);
                    } else if i < 7 {
                        assert(o[i] == bb[i - 5]);
                    } else if i < 10 {
                        assert(o[i] == vv[i - 8]);
                    } else {
                        assert(o[i] == ff[i - 11]);
                    }
                }
            }
        }
    }
}

/// `bus:slot` and `PCI_DEV_DOMAIN:bus:slot` name the same device.
pub proof fn lemma_domain_may_be_omitted(bus: Seq<char>, slot: Seq<char>)
    requires
        !bus.contains(':'),
        !slot.contains(':'),
    ensures
        spec_normalize_bdf(bus.push(':') + slot) == spec_normalize_bdf(
            PCI_DEV_DOMAIN@.push(':') + (bus.push(':') + slot),
        ),
{
    reveal_strlit("0000");
    let dom = PCI_DEV_DOMAIN@;
    assert(!dom.contains(':')) by {
        if dom.contains(':') {
            let k = choose|k: int| 0 <= k < dom.len() && dom[k] == ':';
            assert(dom[k] == '0');
        }
    }
    lemma_split_on_concat(bus, slot, ':');
    lemma_split_on_concat(dom, bus.push(':') + slot, ':');
    lemma_split_on_without_sep(bus, ':');
    lemma_split_on_without_sep(slot, ':');
    lemma_split_on_without_sep(dom, ':');
    assert(split_on(bus.push(':') + slot, ':') == seq![bus, slot]);
    assert(split_on(dom.push(':') + (bus.push(':') + slot), ':') == seq![dom, bus, slot]);
}

/// Spellings of an address that differ only in the case of their letters
/// (`6F` and `6f`) name the same device.
pub proof fn lemma_normalize_bdf_ignores_case(a: Seq<char>, b: Seq<char>)
    requires
        same_ignoring_case(a, b),
    ensures
        spec_normalize_bdf(a) == spec_normalize_bdf(b),
{
    lemma_split_on_ignores_case(a, b, ':');
    let fa = split_on(a, ':');
    let fb = split_on(b, ':');
    if fa.len() == 2 || fa.len() == 3 {
        let n = fa.len();
        let da = if n == 2 { PCI_DEV_DOMAIN@ } else { fa[0] };
        let db = if n == 2 { PCI_DEV_DOMAIN@ } else { fb[0] };
        if n == 2 {
            assert forall|i: int| 0 <= i < da.len() implies #[trigger] fold_case(da[i]) == fold_case(db[i]) by {}
        } else {
            assert(same_ignoring_case(fa[0], fb[0]));
        }
        assert(same_ignoring_case(fa[n - 2], fb[n - 2]));
        assert(same_ignoring_case(fa[n - 1], fb[n - 1]));
        lemma_parse_unsigned_ignores_case(da, db, 16, 0xffff);
        lemma_parse_unsigned_ignores_case(fa[n - 2], fb[n - 2], 16, 0xff);
        lemma_split_once_ignores_case(fa[n - 1], fb[n - 1], '.');
        if let Some((va, ga)) = split_once(fa[n - 1], '.') {
            let (vb, gb) = split_once(fb[n - 1], '.').unwrap();
            lemma_parse_unsigned_ignores_case(va, vb, 16, 0xff);
            lemma_parse_unsigned_ignores_case(ga, gb, 16, 0xff);
        }
    }
}

} // verus!
