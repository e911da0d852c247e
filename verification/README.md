# pcilibs

PCI device discovery over a sysfs tree, verified with Verus.

- `src/text.rs`: splitting, trimming, number parsing and formatting on the
  characters of a string, each stated as a spec function (`split_on`,
  `split_once`, `trim`, `parse_unsigned`, `parse_i64`, `hex_lower`, ...).
- `src/bdf.rs`: `normalize_bdf`, the canonical `dddd:bb:dd.f` spelling of a PCI
  address, with its laws (idempotence, shape, omitted domain, letter case), and
  `address_to_id`, the listing key, which orders canonical addresses as strings.
- `src/sysfs.rs`: the paths of a sysfs tree, joined as `Path::join` does on Unix.
- `src/pci_manager.rs`: the device record, the cache of records by canonical
  address, the name table lookups, the decisions of a device lookup and of a
  listing, and the stable listing order.
- `src/infiniband.rs`: the one-line InfiniBand summary built from what was read.
- `src/testfs.rs`: names used by fake trees.
- `app/`: the file-system side: it reads sysfs and devfs and hands what it read
  to the library.

The tests under `tests/` hold the library against the standard library's own
string functions and against fixed values.
