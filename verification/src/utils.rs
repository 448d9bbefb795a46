//! Ordering items and recipes by name, and loading icons.
use vstd::prelude::*;
use std::cmp::Ordering;
use crate::bytes::{byte_rank, byte_compare};
use vstd::string::StringSliceAdditionalSpecFns;

verus! {

/// The order of two byte strings: lexicographic, a proper prefix first.
pub open spec fn byte_order(a: Seq<u8>, b: Seq<u8>) -> Ordering {
    let r = byte_rank(a, b);
    if r < 0 {
        Ordering::Less
    } else if r == 0 {
        Ordering::Equal
    } else {
        Ordering::Greater
    }
}

/// Compare two strings byte by byte, as `str` orders them.
pub fn compare_names(a: &str, b: &str) -> (r: Ordering)
    ensures
        r == byte_order(a.spec_bytes(), b.spec_bytes()),
{
    let s = byte_compare(a, b);
    if s < 0 {
        Ordering::Less
    } else if s == 0 {
        Ordering::Equal
    } else {
        Ordering::Greater
    }
}

/// Orders items by name.
pub struct ItemCompare;

impl ItemCompare {
    /// The order of two item names.
    pub fn compare(a_name: &str, b_name: &str) -> (r: Ordering)
        ensures
            r == byte_order(a_name.spec_bytes(), b_name.spec_bytes()),
    {
        compare_names(a_name, b_name)
    }
}

/// Orders recipes by name.
pub struct RecipeCompare;

impl RecipeCompare {
    /// The order of two recipe names.
    pub fn compare(a_name: &str, b_name: &str) -> (r: Ordering)
        ensures
            r == byte_order(a_name.spec_bytes(), b_name.spec_bytes()),
    {
        compare_names(a_name, b_name)
    }
}

/// Icons are handled by the user interface; no image data is loaded here.
pub fn load_texture_from_file(path: &str) -> (r: Option<Vec<u8>>)
    ensures
        r is None,
{
    None
}

} // verus!
