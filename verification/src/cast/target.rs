//! Which device is meant, and how it is controlled.

use vstd::prelude::*;

use crate::pipeline::types::Device;
use crate::pipeline::types::DeviceText;
use crate::text::eq_ignore_case;
use crate::text::lowered;
use crate::text::same_but_case;
use crate::text::same_text;

verus! {

/// `needle` means the device: it is its id, its address, or its name in any case.
pub open spec fn is_meant(d: DeviceText, needle: Seq<char>) -> bool {
    d.id == needle || d.address.text() == needle || same_but_case(d.name, needle)
}

/// Match a device by its id, exact name (case-insensitive), or IP address string.
pub fn find_device<'a>(devices: &'a Vec<Device>, needle: &str) -> (r: Option<&'a Device>)
    ensures
        match r {
            Some(d) => exists|i: int|
                0 <= i < devices@.len() && *d == #[trigger] devices@[i] && is_meant(d@, needle@)
                    && forall|k: int| 0 <= k < i ==> !is_meant((#[trigger] devices@[k])@, needle@),
            None => forall|k: int|
                0 <= k < devices@.len() ==> !is_meant((#[trigger] devices@[k])@, needle@),
        },
{
    let mut i: usize = 0;
    while i < devices.len()
        invariant
            i <= devices@.len(),
            forall|k: int| 0 <= k < i ==> !is_meant((#[trigger] devices@[k])@, needle@),
        decreases devices@.len() - i,
    {
        let d: &Device = &devices[i];
        if same_text(d.id.as_str(), needle) || same_text(d.address.to_text().as_str(), needle)
            || eq_ignore_case(d.name.as_str(), needle) {
            assert(*d == devices@[i as int]);
            return Some(d);
        }
        i += 1;
    }
    None
}

/// Look up a device by its id.
pub fn find_by_id<'a>(devices: &'a Vec<Device>, id: &str) -> (r: Option<&'a Device>)
    ensures
        match r {
            Some(d) => exists|i: int|
                0 <= i < devices@.len() && *d == #[trigger] devices@[i] && d@.id == id@ && forall|
                    k: int,
                |
                    0 <= k < i ==> (#[trigger] devices@[k])@.id != id@,
            None => forall|k: int| 0 <= k < devices@.len() ==> (#[trigger] devices@[k])@.id != id@,
        },
{
    let mut i: usize = 0;
    while i < devices.len()
        invariant
            i <= devices@.len(),
            forall|k: int| 0 <= k < i ==> (#[trigger] devices@[k])@.id != id@,
        decreases devices@.len() - i,
    {
        let d: &Device = &devices[i];
        if same_text(d.id.as_str(), id) {
            assert(*d == devices@[i as int]);
            return Some(d);
        }
        i += 1;
    }
    None
}

/// The device at a place in the list. A negative index means that none is selected.
pub fn selected_device(devices: &Vec<Device>, index: i32) -> (r: Option<&Device>)
    ensures
        match r {
            Some(d) => 0 <= index < devices@.len() && *d == devices@[index as int],
            None => index < 0 || index >= devices@.len(),
        },
{
    if index < 0 || index as usize >= devices.len() {
        None
    } else {
        Some(&devices[index as usize])
    }
}

/// How to get at a device's AVTransport control URL.
#[derive(Debug, PartialEq, Eq)]
pub enum ControlEndpoint {
    /// It is known.
    Known(String),
    /// It is in the description document at this URL.
    Describe(String),
    /// There is no DLNA endpoint.
    Missing,
}

/// How to get at a device's AVTransport control URL: discovery may have resolved it, and
/// else it can be recovered from the description document.
pub fn control_endpoint(device: &Device) -> (r: ControlEndpoint)
    ensures
        match r {
            ControlEndpoint::Known(url) => device@.dlna_control_url == Some(url@),
            ControlEndpoint::Describe(location) => device@.dlna_control_url is None
                && device@.dlna_location == Some(location@),
            ControlEndpoint::Missing => device@.dlna_control_url is None && device@.dlna_location
                is None,
        },
{
    match &device.dlna_control_url {
        Some(url) => ControlEndpoint::Known(url.clone()),
        None => match &device.dlna_location {
            Some(location) => ControlEndpoint::Describe(location.clone()),
            None => ControlEndpoint::Missing,
        },
    }
}

/// A device is meant by its id and by its address, letter for letter, and by its name in any
/// case; nothing else means it.
pub proof fn law_who_is_meant(d: DeviceText, needle: Seq<char>)
    ensures
        is_meant(d, d.id),
        is_meant(d, d.address.text()),
        is_meant(d, d.name),
        lowered(needle) == lowered(d.name) ==> is_meant(d, needle),
        is_meant(d, needle) ==> needle == d.id || needle == d.address.text() || lowered(needle)
            == lowered(d.name),
{
}

} // verus!
