//! Verified core of a system-tray controller for Tailscale and Docker.
//!
//! The library decides and computes; the application runs the commands,
//! parses the JSON report and draws the menu.
pub mod command;
pub mod docker;
pub mod icon;
pub mod menu;
pub mod tailscale;
pub mod text;

use vstd::prelude::*;

verus! {

/// A machine of the network as the tray lists it: its address, its name,
/// and whether it is online.
#[derive(Clone, Debug)]
pub struct MachineData {
    pub ip: String,
    pub hostname: String,
    pub online: bool,
}

} // verus!
