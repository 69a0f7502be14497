//! Physical page-frame allocator for a small x86-64 kernel.
//!
//! The allocator keeps one metadata record per 4 KiB physical page in a page
//! array and threads two intrusive free lists through it: one of single 4 KiB
//! pages and one of 2 MiB superpages (512 consecutive 4 KiB pages).
//! Links are page indices into the array.
use vstd::prelude::*;

pub mod page;
pub mod allocator;
pub mod model;
pub mod boot;
pub mod selftest;
pub mod shape;
pub mod laws;
pub mod boot_shape;
pub mod trace;

verus! {

} // verus!
