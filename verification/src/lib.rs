use vstd::prelude::*;

pub mod capture;
pub mod clipboard;
pub mod commands;
pub mod crash;
pub mod dsa;
pub mod platform;
pub mod search;
pub mod storage;
pub mod synapt;
pub mod text;
pub mod tray;

verus! {

} // verus!
