//! The device-information record that the persistence layer serves and the
//! gateway caches. Fetching records over HTTP is the shell's concern; the
//! record itself is plain data.

use vstd::prelude::*;

verus! {

/// One device's registration: where it lives (account, object, device,
/// channel) and how it is described.
#[derive(Debug, Clone)]
pub struct DeviceInfo {
    pub account: u32,
    pub object: u32,
    pub device: String,
    pub channel: String,
    pub dev_name: String,
    pub dev_descr: Option<String>,
    pub dev_scale: Option<String>,
    pub dev_unit_id: Option<u32>,
    pub dev_grp: Option<String>,
}

} // verus!
