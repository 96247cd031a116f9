//! mDNS / Bonjour discovery of AirPlay devices (`_airplay._tcp`).

use vstd::prelude::*;
use vstd::slice::slice_subrange;

use crate::discovery::registry::observed;
use crate::discovery::registry::DeviceRegistry;
use crate::discovery::registry::EntryText;
use crate::discovery::registry::Observation;
use crate::discovery::registry::ObservationText;
use crate::pipeline::address::IpAddr;
use crate::pipeline::time::Duration;
use crate::pipeline::types::Protocol;
use crate::text::chars_of;
use crate::text::ends_with;
use crate::text::ends_with_text;
use crate::text::string_of;

verus! {

/// The service type that AirPlay devices announce.
pub const AIRPLAY_SERVICE: &'static str = "_airplay._tcp.local.";

/// `s` without the dots at its end.
pub open spec fn without_final_dots(s: Seq<char>) -> Seq<char>
    decreases s.len(),
{
    if s.len() > 0 && s.last() == '.' {
        without_final_dots(s.drop_last())
    } else {
        s
    }
}

/// The instance label in an mDNS full name.
pub open spec fn label_of(fullname: Seq<char>, service: Seq<char>) -> Seq<char> {
    without_final_dots(
        if ends_with(fullname, service) {
            fullname.take(fullname.len() - service.len())
        } else {
            fullname
        },
    )
}

/// Strip the service suffix from an mDNS fullname to get the friendly instance label,
/// e.g. `"Living Room._airplay._tcp.local."` -> `"Living Room"`.
#[must_use]
pub fn instance_label(fullname: &str, service: &str) -> (r: String)
    ensures
        r@ == label_of(fullname@, service@),
{
    let chars: Vec<char> = chars_of(fullname);
    let suffix: usize = chars_of(service).len();
    let mut end: usize = if ends_with_text(&chars, service) {
        chars.len() - suffix
    } else {
        chars.len()
    };
    assert(fullname@.take(fullname@.len() as int) =~= fullname@);
    while end > 0 && chars[end - 1] == '.'
        invariant
            end <= chars@.len(),
            chars@ == fullname@,
            label_of(fullname@, service@) == without_final_dots(fullname@.take(end as int)),
        decreases end,
    {
        assert(fullname@.take(end as int).drop_last() =~= fullname@.take(end - 1));
        end -= 1;
    }
    let label: &[char] = slice_subrange(&chars, 0, end);
    assert(label@ =~= fullname@.take(end as int));
    string_of(label)
}

/// The sighting that a resolved AirPlay service is at one of its addresses. Its full name
/// is its stable identity.
pub open spec fn airplay_sighting(
    fullname: Seq<char>,
    port: u16,
    address: IpAddr,
) -> ObservationText {
    ObservationText {
        address,
        port,
        name: Some(label_of(fullname, AIRPLAY_SERVICE@)),
        stable_id: Some(fullname),
        protocol: Protocol::AirPlayMirror,
        dlna_control_url: None,
        dlna_location: None,
    }
}

/// The entries after a resolved service was seen at each of its addresses.
pub open spec fn after_service(
    entries: Map<IpAddr, EntryText>,
    fullname: Seq<char>,
    port: u16,
    addresses: Seq<IpAddr>,
    now: nat,
) -> Map<IpAddr, EntryText>
    decreases addresses.len(),
{
    if addresses.len() == 0 {
        entries
    } else {
        observed(
            after_service(entries, fullname, port, addresses.drop_last(), now),
            airplay_sighting(fullname, port, addresses.last()),
            now,
        )
    }
}

/// Record a resolved AirPlay service at each of its addresses.
pub fn observe_service(
    registry: &mut DeviceRegistry,
    fullname: &str,
    port: u16,
    addresses: &Vec<IpAddr>,
    now: Duration,
)
    ensures
        final(registry)@.ttl == old(registry)@.ttl,
        final(registry)@.entries == after_service(
            old(registry)@.entries,
            fullname@,
            port,
            addresses@,
            now.nanoseconds(),
        ),
{
    let mut i: usize = 0;
    assert(addresses@.take(0) =~= Seq::<IpAddr>::empty());
    while i < addresses.len()
        invariant
            i <= addresses@.len(),
            registry@.ttl == old(registry)@.ttl,
            registry@.entries == after_service(
                old(registry)@.entries,
                fullname@,
                port,
                addresses@.take(i as int),
                now.nanoseconds(),
            ),
        decreases addresses@.len() - i,
    {
        assert(addresses@.take(i + 1).drop_last() =~= addresses@.take(i as int));
        let obs = Observation {
            address: addresses[i],
            port,
            name: Some(instance_label(fullname, AIRPLAY_SERVICE)),
            stable_id: Some(fullname.to_owned()),
            protocol: Protocol::AirPlayMirror,
            dlna_control_url: None,
            dlna_location: None,
        };
        registry.observe(obs, now);
        i += 1;
    }
    assert(addresses@.take(addresses@.len() as int) =~= addresses@);
}

/// The label of an announced instance is its name, whatever dots stand in it: the service type
/// and the dots before it are cut off. A name of another service is left alone, but for dots
/// at its end.
pub proof fn law_label_is_the_name(name: Seq<char>, dots: Seq<char>, service: Seq<char>)
    requires
        name.len() > 0 ==> name.last() != '.',
        forall|i: int| 0 <= i < dots.len() ==> #[trigger] dots[i] == '.',
    ensures
        label_of(name + dots + service, service) == name,
        !ends_with(name + dots, service) ==> label_of(name + dots, service) == name,
{
    let whole = name + dots + service;
    assert(whole.subrange(whole.len() - service.len(), whole.len() as int) =~= service);
    assert(whole.take(whole.len() - service.len()) =~= name + dots);
    lemma_dots_go(name, dots);
}

proof fn lemma_dots_go(name: Seq<char>, dots: Seq<char>)
    requires
        name.len() > 0 ==> name.last() != '.',
        forall|i: int| 0 <= i < dots.len() ==> #[trigger] dots[i] == '.',
    ensures
        without_final_dots(name + dots) == name,
    decreases dots.len(),
{
    if dots.len() > 0 {
        assert(dots[dots.len() - 1] == '.');
        assert((name + dots).last() == '.');
        assert((name + dots).drop_last() =~= name + dots.drop_last());
        lemma_dots_go(name, dots.drop_last());
    } else {
        assert(name + dots =~= name);
    }
}

/// A resolved service is seen at every one of its addresses and at no other: each of them has
/// its full name as an identity, its protocol and, where none was known before, its label as
/// name and its port.
pub proof fn law_service_is_seen_everywhere(
    entries: Map<IpAddr, EntryText>,
    fullname: Seq<char>,
    port: u16,
    addresses: Seq<IpAddr>,
    now: nat,
    a: IpAddr,
)
    ensures
        ({
            let after = after_service(entries, fullname, port, addresses, now);
            let label = label_of(fullname, "_airplay._tcp.local."@);
            &&& !addresses.contains(a) ==> (after.contains_key(a) <==> entries.contains_key(a))
            &&& !addresses.contains(a) && entries.contains_key(a) ==> after[a] == entries[a]
            &&& addresses.contains(a) ==> {
                &&& after.contains_key(a)
                &&& after[a].last_seen == now
                &&& after[a].protocols.contains(Protocol::AirPlayMirror)
                &&& fullname.len() > 0 ==> after[a].identities.contains(fullname)
                &&& !entries.contains_key(a) ==> {
                    &&& after[a].port == port
                    &&& label.len() > 0 ==> after[a].name == Some(label)
                    &&& after[a].dlna_control_url is None && after[a].dlna_location is None
                    &&& forall|id: Seq<char>| #[trigger]
                        after[a].identities.contains(id) ==> id == fullname
                    &&& forall|p: Protocol| #[trigger]
                        after[a].protocols.contains(p) ==> p is AirPlayMirror
                }
            }
        }),
    decreases addresses.len(),
{
    let after = after_service(entries, fullname, port, addresses, now);
    if addresses.len() > 0 {
        let rest = addresses.drop_last();
        law_service_is_seen_everywhere(entries, fullname, port, rest, now, a);
        assert(addresses =~= rest.push(addresses.last()));
        if addresses.contains(a) && a != addresses.last() {
            let k = choose|k: int| 0 <= k < addresses.len() && addresses[k] == a;
            assert(rest[k] == a);
        }
        if rest.contains(a) {
            let k = choose|k: int| 0 <= k < rest.len() && rest[k] == a;
            assert(addresses[k] == a);
        }
        assert(addresses[addresses.len() - 1] == addresses.last());
    }
}

} // verus!
