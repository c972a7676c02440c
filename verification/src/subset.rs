//! The six coordinates of the cube, each as a type of its own, and the places
//! of the two triples of them in their dense ranges.

#![allow(non_camel_case_types)]

use vstd::prelude::*;

verus! {

/// The permutation of the corners, 0..=40'319.
pub struct C_prm(pub u16);

/// The orientation of the corners, 0..=2'186.
pub struct C_ori(pub u16);

/// The permutation of the edges outside the slice, 0..=40'319.
pub struct E_non_slice_prm(pub u16);

/// The permutation of the edges of the slice, 0..=23.
pub struct E_slice_prm(pub u8);

/// The places of the edges of the slice, 0..=494.
pub struct E_slice_loc(pub u16);

/// The orientation of the edges, 0..=2'047.
pub struct E_ori(pub u16);

/// The place of a state of the subgroup in its dense range, which holds one
/// place for each two permutations of the corners.
pub fn subset_index(c_prm: C_prm, e_non_slice_prm: E_non_slice_prm, e_slice_prm: E_slice_prm) -> (r:
    u64)
    ensures
        r == (c_prm.0 / 2) * 24 * 40320 + e_non_slice_prm.0 * 24 + e_slice_prm.0,
{
    let slice_prm_size: u64 = 24;
    let non_slice_prm_size: u64 = 40320;

    (c_prm.0 as u64 / 2) * slice_prm_size * non_slice_prm_size + (e_non_slice_prm.0 as u64)
        * slice_prm_size + (e_slice_prm.0 as u64)
}

/// The place of a coset of the subgroup in its dense range.
pub fn coset_index(c_ori: C_ori, e_ori: E_ori, e_slice_loc: E_slice_loc) -> (r: u32)
    requires
        c_ori.0 < 2187,
        e_ori.0 < 2048,
        e_slice_loc.0 < 495,
    ensures
        r == c_ori.0 * 1013760 + e_ori.0 * 495 + e_slice_loc.0,
        r < 2217093120,
{
    let e_ori_size: u32 = 2048;
    let slice_loc_size: u32 = 495;

    (c_ori.0 as u32) * (e_ori_size * slice_loc_size) + (e_ori.0 as u32) * slice_loc_size + (
    e_slice_loc.0 as u32)
}

/// Whether the coset is the subgroup itself.
pub fn in_subset(c_ori: C_ori, e_ori: E_ori, e_slice_loc: E_slice_loc) -> (r: bool)
    ensures
        r == (c_ori.0 == 0 && e_ori.0 == 0 && e_slice_loc.0 == 494),
{
    c_ori.0 == 0 && e_ori.0 == 0 && e_slice_loc.0 == 494
}

} // verus!
