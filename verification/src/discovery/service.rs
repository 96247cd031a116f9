//! Continuous discovery: one persistent registry, expired after each scan pass, with the
//! device list published whenever it changes.

use vstd::prelude::*;

use crate::discovery::devices::is_device_list;
use crate::discovery::registry::fresh_entries;
use crate::discovery::registry::DeviceRegistry;
use crate::pipeline::time::Duration;
use crate::pipeline::types::copy_devices;
use crate::pipeline::types::device_list;
use crate::pipeline::types::same_devices;
use crate::pipeline::types::Device;
use crate::pipeline::types::DeviceText;

verus! {

/// How long a device may go unseen before it is considered gone, in seconds.
pub const DEFAULT_TTL_SECS: u64 = 15;

/// How long each scan pass runs before the list is expired and (if changed) republished,
/// in seconds.
pub const SCAN_INTERVAL_SECS: u64 = 3;

/// How long a device may go unseen before it is considered gone.
pub fn default_ttl() -> (d: Duration)
    ensures
        d.nanoseconds() == 15_000_000_000,
{
    Duration::from_secs(DEFAULT_TTL_SECS)
}

/// How long each scan pass runs.
pub fn scan_interval() -> (d: Duration)
    ensures
        d.nanoseconds() == 3_000_000_000,
{
    Duration::from_secs(SCAN_INTERVAL_SECS)
}

/// The list that was last published.
pub struct Publisher {
    last: Vec<Device>,
}

impl Publisher {
    /// The devices that were last published.
    pub closed spec fn published(&self) -> Seq<DeviceText> {
        device_list(self.last@)
    }

    /// Nothing was published yet: subscribers see an empty list.
    pub fn new() -> (p: Publisher)
        ensures
            p.published() == Seq::<DeviceText>::empty(),
    {
        let p = Publisher { last: Vec::new() };
        assert(p.published() =~= Seq::<DeviceText>::empty());
        p
    }

    /// End a scan pass at `now`: drop what went unseen for too long, and give the device
    /// list if it is not the one that was last published.
    pub fn end_pass(&mut self, registry: &mut DeviceRegistry, now: Duration) -> (r: Option<
        Vec<Device>,
    >)
        ensures
            final(registry)@.ttl == old(registry)@.ttl,
            final(registry)@.entries == fresh_entries(
                old(registry)@.entries,
                old(registry)@.ttl,
                now.nanoseconds(),
            ),
            is_device_list(final(registry)@.entries, final(self).published()),
            match r {
                Some(list) => device_list(list@) == final(self).published()
                    && final(self).published() != old(self).published(),
                None => final(self).published() == old(self).published(),
            },
    {
        registry.expire(now);
        let snapshot: Vec<Device> = registry.devices();
        if same_devices(&snapshot, &self.last) {
            None
        } else {
            self.last = copy_devices(&snapshot);
            Some(snapshot)
        }
    }
}

} // verus!
