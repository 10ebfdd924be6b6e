//! Finding the configured device by its `vendor:product` id.
use vstd::prelude::*;
use crate::text::{chars_of, find_char, find_char_exec, parse_radix, parse_radix_range};

verus! {

/// `vendor:product` split at the first `:`, each half read in hexadecimal as a
/// `u16`.
pub open spec fn device_id_of(s: Seq<char>) -> Option<(u16, u16)> {
    let k = find_char(s, ':', 0);
    if k >= s.len() {
        None
    } else {
        match (
            parse_radix(s.subrange(0, k), 16, u16::MAX as nat),
            parse_radix(s.subrange(k + 1, s.len() as int), 16, u16::MAX as nat),
        ) {
            (Some(v), Some(p)) => Some((v as u16, p as u16)),
            _ => None,
        }
    }
}

pub fn parse_device_id(id: &str) -> (r: Option<(u16, u16)>)
    ensures
        r == device_id_of(id@),
{
    let s = chars_of(id);
    let k = find_char_exec(&s, ':', 0);
    if k >= s.len() {
        return None;
    }
    let vendor = parse_radix_range(&s, 0, k, 16, 0xffff);
    let product = parse_radix_range(&s, k + 1, s.len(), 16, 0xffff);
    match (vendor, product) {
        (Some(v), Some(p)) => Some((v as u16, p as u16)),
        _ => None,
    }
}

/// The position of the first device whose (vendor, product) is `target`.
pub fn find_device(ids: &Vec<(u16, u16)>, target: (u16, u16)) -> (r: Option<usize>)
    ensures
        match r {
            Some(i) => i < ids@.len() && ids@[i as int] == target && forall|j: int|
                0 <= j < i ==> ids@[j] != target,
            None => forall|j: int| 0 <= j < ids@.len() ==> ids@[j] != target,
        },
{
    let mut i: usize = 0;
    while i < ids.len()
        invariant
            i <= ids@.len(),
            forall|j: int| 0 <= j < i ==> ids@[j] != target,
        decreases ids@.len() - i,
    {
        if ids[i].0 == target.0 && ids[i].1 == target.1 {
            return Some(i);
        }
        i = i + 1;
    }
    None
}

} // verus!
