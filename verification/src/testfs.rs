//! Names used by fake kernel trees for tests.
use vstd::prelude::*;

use crate::text::{dec_string, push_dec, push_str, string_of};

verus! {

/// The name of the `n`th vfio character device: `vfio<n>`.
pub fn vfio_cdev_name(n: u32) -> (r: String)
    ensures
        r@ == "vfio"@ + dec_string(n as nat),
{
    let mut out: Vec<char> = Vec::new();
    push_str(&mut out, "vfio");
    push_dec(&mut out, n as u64);
    string_of(&out)
}

} // verus!
