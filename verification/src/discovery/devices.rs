//! What the device list is: which addresses belong to one device, how their entries are
//! merged, and in what order the devices stand.

use vstd::prelude::*;

use crate::discovery::registry::after_sighting;
use crate::discovery::registry::fresh_entries;
use crate::discovery::registry::is_given;
use crate::discovery::registry::observed;
use crate::discovery::registry::EntryText;
use crate::discovery::registry::ObservationText;
use crate::pipeline::address::law_order_is_strict;
use crate::pipeline::address::IpAddr;
use crate::pipeline::types::DeviceText;
use crate::pipeline::types::Protocol;
use crate::text::lemma_text_irreflexive;
use crate::text::lemma_text_total;
use crate::text::lemma_text_transitive;
use crate::text::text_less;

verus! {

// --- Which addresses belong together -------------------------------------------------

/// Two addresses share a stable identity.
pub open spec fn linked(entries: Map<IpAddr, EntryText>, a: IpAddr, b: IpAddr) -> bool {
    &&& entries.contains_key(a)
    &&& entries.contains_key(b)
    &&& exists|id: Seq<char>|
        entries[a].identities.contains(id) && #[trigger] entries[b].identities.contains(id)
}

/// Each address of the path shares an identity with the next.
pub open spec fn is_path(entries: Map<IpAddr, EntryText>, path: Seq<IpAddr>) -> bool {
    &&& path.len() > 0
    &&& entries.contains_key(path[0])
    &&& forall|i: int|
        0 <= i < path.len() - 1 ==> linked(entries, #[trigger] path[i], path[i + 1])
}

/// There is a path of shared identities from `a` to `b`: they belong to one device.
pub open spec fn connected(entries: Map<IpAddr, EntryText>, a: IpAddr, b: IpAddr) -> bool {
    exists|path: Seq<IpAddr>|
        #[trigger] is_path(entries, path) && path[0] == a && path.last() == b
}

/// The addresses of the device that `a` belongs to.
pub open spec fn group(entries: Map<IpAddr, EntryText>, a: IpAddr) -> Set<IpAddr> {
    Set::new(|b: IpAddr| connected(entries, a, b))
}

// --- Preferences ---------------------------------------------------------------------

/// The place of a transport in the order of preference, the lowest first.
pub open spec fn rank_of(p: Protocol) -> u8 {
    match p {
        Protocol::AirPlayMirror => 0,
        Protocol::AirPlayVideo => 1,
        Protocol::Cast => 2,
        Protocol::Miracast => 3,
        Protocol::Dlna => 4,
    }
}

/// The place of an address in the order of preference: routable IPv4, then global IPv6,
/// then IPv6 link-local (fe80::/10), then loopback (127.0.0.0/8 and ::1).
pub open spec fn address_class(ip: IpAddr) -> u8 {
    match ip {
        IpAddr::V4(v4) => if v4.octet(0) == 127 {
            3
        } else {
            0
        },
        IpAddr::V6(v6) => if v6.bits == 1 {
            3
        } else if v6.segments()[0] / 64 == 0x3FA {
            2
        } else {
            1
        },
    }
}

/// `a` is preferred to `b` as a device's primary address.
pub open spec fn preferred(a: IpAddr, b: IpAddr) -> bool {
    ||| address_class(a) < address_class(b)
    ||| address_class(a) == address_class(b) && a.order() < b.order()
}

// --- Merging -------------------------------------------------------------------------

/// `p` is preferred to every other address of the group.
pub open spec fn is_primary(addresses: Set<IpAddr>, p: IpAddr) -> bool {
    &&& addresses.contains(p)
    &&& forall|b: IpAddr| #[trigger] addresses.contains(b) ==> b == p || preferred(p, b)
}

/// The address that stands for a group.
pub open spec fn primary(addresses: Set<IpAddr>) -> IpAddr {
    choose|p: IpAddr| is_primary(addresses, p)
}

/// `a` is the lowest address of the group for which `f` holds.
pub open spec fn is_lowest(addresses: Set<IpAddr>, f: spec_fn(IpAddr) -> bool, a: IpAddr) -> bool {
    &&& addresses.contains(a)
    &&& f(a)
    &&& forall|b: IpAddr| #[trigger] addresses.contains(b) && f(b) ==> a.order() <= b.order()
}

/// The lowest address of the group for which `f` holds.
pub open spec fn lowest(addresses: Set<IpAddr>, f: spec_fn(IpAddr) -> bool) -> Option<IpAddr> {
    if exists|a: IpAddr| is_lowest(addresses, f, a) {
        Some(choose|a: IpAddr| is_lowest(addresses, f, a))
    } else {
        None
    }
}

/// Some address of the group speaks `p`.
pub open spec fn speaks(
    entries: Map<IpAddr, EntryText>,
    addresses: Set<IpAddr>,
    p: Protocol,
) -> bool {
    exists|a: IpAddr| #[trigger] addresses.contains(a) && entries[a].protocols.contains(p)
}

/// `p`, if some address of the group speaks it.
pub open spec fn if_spoken(
    entries: Map<IpAddr, EntryText>,
    addresses: Set<IpAddr>,
    p: Protocol,
) -> Seq<Protocol> {
    if speaks(entries, addresses, p) {
        seq![p]
    } else {
        Seq::empty()
    }
}

/// The transports of a group, the preferred first.
pub open spec fn spoken(entries: Map<IpAddr, EntryText>, addresses: Set<IpAddr>) -> Seq<Protocol> {
    if_spoken(entries, addresses, Protocol::AirPlayMirror) + if_spoken(
        entries,
        addresses,
        Protocol::AirPlayVideo,
    ) + if_spoken(entries, addresses, Protocol::Cast) + if_spoken(
        entries,
        addresses,
        Protocol::Miracast,
    ) + if_spoken(entries, addresses, Protocol::Dlna)
}

/// Some address of the group has the identity `id`.
pub open spec fn has_identity(
    entries: Map<IpAddr, EntryText>,
    addresses: Set<IpAddr>,
    id: Seq<char>,
) -> bool {
    exists|a: IpAddr| #[trigger] addresses.contains(a) && entries[a].identities.contains(id)
}

/// `id` is the first of the group's identities in the order of text.
pub open spec fn is_least_identity(
    entries: Map<IpAddr, EntryText>,
    addresses: Set<IpAddr>,
    id: Seq<char>,
) -> bool {
    &&& has_identity(entries, addresses, id)
    &&& forall|other: Seq<char>|
        #[trigger] has_identity(entries, addresses, other) ==> other == id || text_less(id, other)
}

/// The first of the group's identities in the order of text.
pub open spec fn least_identity(
    entries: Map<IpAddr, EntryText>,
    addresses: Set<IpAddr>,
) -> Option<Seq<char>> {
    if exists|id: Seq<char>| is_least_identity(entries, addresses, id) {
        Some(choose|id: Seq<char>| is_least_identity(entries, addresses, id))
    } else {
        None
    }
}

/// The device that a group of addresses is: the port of its primary address; the name and
/// the URLs of its lowest address that has them; its least identity.
pub open spec fn merged(entries: Map<IpAddr, EntryText>, addresses: Set<IpAddr>) -> DeviceText {
    let p = primary(addresses);
    DeviceText {
        id: match least_identity(entries, addresses) {
            Some(id) => id,
            None => p.text(),
        },
        name: match lowest(addresses, |a: IpAddr| is_given(entries[a].name)) {
            Some(a) => entries[a].name->0,
            None => "Unknown device ("@ + p.text() + ")"@,
        },
        address: p,
        port: entries[p].port,
        protocols: spoken(entries, addresses),
        dlna_control_url: match lowest(
            addresses,
            |a: IpAddr| entries[a].dlna_control_url is Some,
        ) {
            Some(a) => entries[a].dlna_control_url,
            None => None,
        },
        dlna_location: match lowest(addresses, |a: IpAddr| entries[a].dlna_location is Some) {
            Some(a) => entries[a].dlna_location,
            None => None,
        },
    }
}

// --- The list ------------------------------------------------------------------------

/// The rank of a device's best transport; devices without one come last.
pub open spec fn device_rank(d: DeviceText) -> int {
    if d.protocols.len() > 0 {
        rank_of(d.protocols[0]) as int
    } else {
        255
    }
}

/// `a` comes before `b` in the device list: by best transport, then name, then address.
pub open spec fn device_before(a: DeviceText, b: DeviceText) -> bool {
    ||| device_rank(a) < device_rank(b)
    ||| {
        &&& device_rank(a) == device_rank(b)
        &&& text_less(a.name, b.name) || (a.name == b.name && a.address.order() < b.address.order())
    }
}

/// `d` is the device of one of the groups.
pub open spec fn is_device_in(entries: Map<IpAddr, EntryText>, d: DeviceText) -> bool {
    exists|a: IpAddr| #[trigger]
        entries.contains_key(a) && d == merged(entries, group(entries, a))
}

/// `list` is the device list of `entries`: every device once, in order.
pub open spec fn is_device_list(
    entries: Map<IpAddr, EntryText>,
    list: Seq<DeviceText>,
) -> bool {
    &&& forall|i: int, j: int|
        0 <= i < j < list.len() ==> device_before(#[trigger] list[i], #[trigger] list[j])
    &&& forall|i: int| 0 <= i < list.len() ==> is_device_in(entries, #[trigger] list[i])
    &&& forall|a: IpAddr| #[trigger]
        entries.contains_key(a) ==> list.contains(merged(entries, group(entries, a)))
}

// --- Lemmas and laws -----------------------------------------------------------------

pub proof fn lemma_primary_is(addresses: Set<IpAddr>, p: IpAddr)
    requires
        is_primary(addresses, p),
    ensures
        primary(addresses) == p,
{
    let q = primary(addresses);
    assert(is_primary(addresses, q));
    if p != q {
        assert(addresses.contains(q));
        assert(addresses.contains(p));
        assert(preferred(p, q));
        assert(preferred(q, p));
    }
}

pub proof fn lemma_lowest_is(addresses: Set<IpAddr>, f: spec_fn(IpAddr) -> bool, a: IpAddr)
    requires
        is_lowest(addresses, f, a),
    ensures
        lowest(addresses, f) == Some(a),
{
    let b = choose|b: IpAddr| is_lowest(addresses, f, b);
    assert(is_lowest(addresses, f, b));
    assert(addresses.contains(b));
    law_order_is_strict(a, b);
}

pub proof fn lemma_least_identity_is(
    entries: Map<IpAddr, EntryText>,
    addresses: Set<IpAddr>,
    id: Seq<char>,
)
    requires
        is_least_identity(entries, addresses, id),
    ensures
        least_identity(entries, addresses) == Some(id),
{
    let other = choose|other: Seq<char>| is_least_identity(entries, addresses, other);
    assert(is_least_identity(entries, addresses, other));
    if other != id {
        lemma_text_transitive(id, other, id);
        lemma_text_irreflexive(id);
    }
}

/// The order of the device list is transitive.
pub proof fn lemma_device_before_transitive(a: DeviceText, b: DeviceText, c: DeviceText)
    requires
        device_before(a, b),
        device_before(b, c),
    ensures
        device_before(a, c),
{
    if text_less(a.name, b.name) && text_less(b.name, c.name) {
        lemma_text_transitive(a.name, b.name, c.name);
    }
}

/// No device comes before itself.
pub proof fn lemma_device_before_irreflexive(a: DeviceText)
    ensures
        !device_before(a, a),
{
    lemma_text_irreflexive(a.name);
}

/// Of two devices with different addresses one comes before the other.
pub proof fn lemma_device_before_total(a: DeviceText, b: DeviceText)
    requires
        a.address != b.address,
    ensures
        device_before(a, b) || device_before(b, a),
{
    lemma_text_total(a.name, b.name);
    law_order_is_strict(a.address, b.address);
}

/// Belonging to one device is an equivalence: every address belongs with itself, in both
/// directions, and along chains. So the groups do not overlap, and every address is in
/// exactly one.
pub proof fn law_groups_partition(entries: Map<IpAddr, EntryText>, a: IpAddr, b: IpAddr, c: IpAddr)
    ensures
        entries.contains_key(a) ==> connected(entries, a, a),
        connected(entries, a, b) ==> connected(entries, b, a),
        connected(entries, a, b) && connected(entries, b, c) ==> connected(entries, a, c),
        connected(entries, a, b) ==> group(entries, a) == group(entries, b),
        !connected(entries, a, b) ==> group(entries, a).disjoint(group(entries, b)),
{
    if entries.contains_key(a) {
        lemma_connected_self(entries, a);
    }
    if connected(entries, a, b) {
        lemma_connected_symmetric(entries, a, b);
        if connected(entries, b, c) {
            lemma_connected_transitive(entries, a, b, c);
        }
        assert forall|x: IpAddr| group(entries, a).contains(x) == group(entries, b).contains(x) by {
            if connected(entries, a, x) {
                lemma_connected_transitive(entries, b, a, x);
            }
            if connected(entries, b, x) {
                lemma_connected_transitive(entries, a, b, x);
            }
        }
        assert(group(entries, a) =~= group(entries, b));
    } else {
        assert forall|x: IpAddr| group(entries, a).contains(x) implies !group(
            entries,
            b,
        ).contains(x) by {
            if connected(entries, a, x) && connected(entries, b, x) {
                lemma_connected_symmetric(entries, b, x);
                lemma_connected_transitive(entries, a, x, b);
            }
        }
    }
}

pub proof fn lemma_connected_self(entries: Map<IpAddr, EntryText>, a: IpAddr)
    requires
        entries.contains_key(a),
    ensures
        connected(entries, a, a),
{
    assert(is_path(entries, seq![a]));
    assert(seq![a].last() == a);
}

pub proof fn lemma_connected_link(entries: Map<IpAddr, EntryText>, a: IpAddr, b: IpAddr)
    requires
        linked(entries, a, b),
    ensures
        connected(entries, a, b),
{
    let path = seq![a, b];
    assert(is_path(entries, path)) by {
        assert forall|i: int| 0 <= i < path.len() - 1 implies linked(
            entries,
            #[trigger] path[i],
            path[i + 1],
        ) by {
            assert(i == 0);
        }
    }
    assert(path.last() == b);
}

pub proof fn lemma_linked_symmetric(entries: Map<IpAddr, EntryText>, a: IpAddr, b: IpAddr)
    requires
        linked(entries, a, b),
    ensures
        linked(entries, b, a),
{
    let id = choose|id: Seq<char>|
        entries[a].identities.contains(id) && #[trigger] entries[b].identities.contains(id);
    assert(entries[a].identities.contains(id));
}

pub proof fn lemma_connected_symmetric(entries: Map<IpAddr, EntryText>, a: IpAddr, b: IpAddr)
    requires
        connected(entries, a, b),
    ensures
        connected(entries, b, a),
{
    let path = choose|path: Seq<IpAddr>|
        #[trigger] is_path(entries, path) && path[0] == a && path.last() == b;
    let n = path.len();
    let back = Seq::new(n, |i: int| path[n - 1 - i]);
    assert(is_path(entries, back)) by {
        assert forall|i: int| 0 <= i < back.len() - 1 implies linked(
            entries,
            #[trigger] back[i],
            back[i + 1],
        ) by {
            let k = n - 2 - i;
            assert(linked(entries, path[k], path[k + 1]));
            lemma_linked_symmetric(entries, path[k], path[k + 1]);
        }
        if n > 1 {
            assert(linked(entries, path[n - 2], path[n - 2 + 1]));
        }
    }
    assert(back[0] == b);
    assert(back.last() == a);
}

pub proof fn lemma_connected_transitive(
    entries: Map<IpAddr, EntryText>,
    a: IpAddr,
    b: IpAddr,
    c: IpAddr,
)
    requires
        connected(entries, a, b),
        connected(entries, b, c),
    ensures
        connected(entries, a, c),
{
    let p = choose|path: Seq<IpAddr>|
        #[trigger] is_path(entries, path) && path[0] == a && path.last() == b;
    let q = choose|path: Seq<IpAddr>|
        #[trigger] is_path(entries, path) && path[0] == b && path.last() == c;
    let n = p.len();
    let path = p + q.skip(1);
    assert(is_path(entries, path)) by {
        assert forall|i: int| 0 <= i < path.len() - 1 implies linked(
            entries,
            #[trigger] path[i],
            path[i + 1],
        ) by {
            if i < n - 1 {
                assert(path[i] == p[i]);
                assert(path[i + 1] == p[i + 1]);
                assert(linked(entries, p[i], p[i + 1]));
            } else {
                let k = i - n + 1;
                assert(path[i] == q[k]);
                assert(path[i + 1] == q[k + 1]);
                assert(linked(entries, q[k], q[k + 1]));
            }
        }
    }
    assert(path[0] == a);
    assert(path.last() == c);
}

/// The device list is determined by the entries: there is only one.
pub proof fn law_device_list_is_unique(
    entries: Map<IpAddr, EntryText>,
    a: Seq<DeviceText>,
    b: Seq<DeviceText>,
)
    requires
        is_device_list(entries, a),
        is_device_list(entries, b),
    ensures
        a == b,
{
    lemma_same_members(entries, a, b);
    lemma_same_members(entries, b, a);
    lemma_sorted_unique(a, b);
}

proof fn lemma_same_members(
    entries: Map<IpAddr, EntryText>,
    a: Seq<DeviceText>,
    b: Seq<DeviceText>,
)
    requires
        is_device_list(entries, a),
        is_device_list(entries, b),
    ensures
        forall|i: int| 0 <= i < a.len() ==> b.contains(#[trigger] a[i]),
{
    assert forall|i: int| 0 <= i < a.len() implies b.contains(#[trigger] a[i]) by {
        assert(is_device_in(entries, a[i]));
        let x = choose|x: IpAddr| #[trigger]
            entries.contains_key(x) && a[i] == merged(entries, group(entries, x));
        assert(entries.contains_key(x));
    }
}

/// Two lists with the same members, both in order, are the same.
proof fn lemma_sorted_unique(a: Seq<DeviceText>, b: Seq<DeviceText>)
    requires
        forall|i: int, j: int|
            0 <= i < j < a.len() ==> device_before(#[trigger] a[i], #[trigger] a[j]),
        forall|i: int, j: int|
            0 <= i < j < b.len() ==> device_before(#[trigger] b[i], #[trigger] b[j]),
        forall|i: int| 0 <= i < a.len() ==> b.contains(#[trigger] a[i]),
        forall|i: int| 0 <= i < b.len() ==> a.contains(#[trigger] b[i]),
    ensures
        a == b,
    decreases a.len(),
{
    if a.len() == 0 {
        if b.len() > 0 {
            assert(a.contains(b[0]));
        }
        assert(a =~= b);
    } else {
        assert(b.contains(a[0]));
        let (m, n) = (a.len() - 1, b.len() - 1);
        let k = choose|k: int| 0 <= k < b.len() && b[k] == a[m];
        let l = choose|l: int| 0 <= l < a.len() && a[l] == b[n];
        assert(b.contains(a[m]));
        assert(a.contains(b[n]));
        if a[m] != b[n] {
            assert(device_before(b[k], b[n]));
            assert(device_before(a[l], a[m]));
            lemma_device_before_transitive(a[m], b[n], a[m]);
            lemma_device_before_irreflexive(a[m]);
        }
        let (x, y) = (a.drop_last(), b.drop_last());
        assert forall|i: int| 0 <= i < x.len() implies y.contains(#[trigger] x[i]) by {
            assert(b.contains(a[i]));
            let j = choose|j: int| 0 <= j < b.len() && b[j] == a[i];
            assert(device_before(a[i], a[m]));
            lemma_device_before_irreflexive(a[m]);
            assert(y[j] == x[i]);
        }
        assert forall|i: int| 0 <= i < y.len() implies x.contains(#[trigger] y[i]) by {
            assert(a.contains(b[i]));
            let j = choose|j: int| 0 <= j < a.len() && a[j] == b[i];
            assert(device_before(b[i], b[n]));
            lemma_device_before_irreflexive(b[n]);
            assert(x[j] == y[i]);
        }
        assert forall|i: int, j: int| 0 <= i < j < x.len() implies device_before(
            #[trigger] x[i],
            #[trigger] x[j],
        ) by {
            assert(device_before(a[i], a[j]));
        }
        assert forall|i: int, j: int| 0 <= i < j < y.len() implies device_before(
            #[trigger] y[i],
            #[trigger] y[j],
        ) by {
            assert(device_before(b[i], b[j]));
        }
        lemma_sorted_unique(x, y);
        assert(a =~= x.push(a[m]));
        assert(b =~= y.push(b[n]));
    }
}

/// A group with a routable IPv4 address has one as its primary address.
pub proof fn law_routable_ipv4_is_primary(addresses: Set<IpAddr>, p: IpAddr, a: IpAddr)
    requires
        is_primary(addresses, p),
        addresses.contains(a),
        address_class(a) == 0,
    ensures
        p is V4 && address_class(p) == 0,
{
}

/// Which addresses belong together is decided by the identities alone: names, ports,
/// protocols, URLs and times make no difference.
pub proof fn law_grouping_by_identity(
    x: Map<IpAddr, EntryText>,
    y: Map<IpAddr, EntryText>,
    a: IpAddr,
    b: IpAddr,
)
    requires
        x.dom() == y.dom(),
        forall|k: IpAddr| #[trigger] x.contains_key(k) ==> x[k].identities == y[k].identities,
    ensures
        connected(x, a, b) <==> connected(y, a, b),
{
    if connected(x, a, b) {
        lemma_same_identities(x, y, a, b);
    }
    if connected(y, a, b) {
        assert forall|k: IpAddr| #[trigger] y.contains_key(k) implies y[k].identities
            == x[k].identities by {
            assert(x.contains_key(k));
        }
        lemma_same_identities(y, x, a, b);
    }
}

proof fn lemma_same_identities(
    x: Map<IpAddr, EntryText>,
    y: Map<IpAddr, EntryText>,
    a: IpAddr,
    b: IpAddr,
)
    requires
        x.dom() == y.dom(),
        forall|k: IpAddr| #[trigger] x.contains_key(k) ==> x[k].identities == y[k].identities,
        connected(x, a, b),
    ensures
        connected(y, a, b),
{
    let path = choose|path: Seq<IpAddr>|
        #[trigger] is_path(x, path) && path[0] == a && path.last() == b;
    assert(x.contains_key(path[0]));
    assert(y.contains_key(path[0]));
    assert(is_path(y, path)) by {
        assert forall|i: int| 0 <= i < path.len() - 1 implies linked(
            y,
            #[trigger] path[i],
            path[i + 1],
        ) by {
            let (p, q) = (path[i], path[i + 1]);
            assert(linked(x, p, q));
            let id = choose|id: Seq<char>|
                x[p].identities.contains(id) && #[trigger] x[q].identities.contains(id);
            assert(x.contains_key(p));
            assert(x.contains_key(q));
            assert(y.contains_key(p));
            assert(y.contains_key(q));
            assert(y[p].identities.contains(id));
            assert(y[q].identities.contains(id));
        }
    }
}

/// The transports of a device stand once each, the preferred first.
pub proof fn law_transports_best_first(entries: Map<IpAddr, EntryText>, addresses: Set<IpAddr>)
    ensures
        forall|i: int, j: int|
            0 <= i < j < spoken(entries, addresses).len() ==> rank_of(
                #[trigger] spoken(entries, addresses)[i],
            ) < rank_of(#[trigger] spoken(entries, addresses)[j]),
        forall|p: Protocol| #[trigger]
            spoken(entries, addresses).contains(p) <==> speaks(entries, addresses, p),
{
    let list = spoken(entries, addresses);
    let s1 = if_spoken(entries, addresses, Protocol::AirPlayMirror);
    let s2 = if_spoken(entries, addresses, Protocol::AirPlayVideo);
    let s3 = if_spoken(entries, addresses, Protocol::Cast);
    let s4 = if_spoken(entries, addresses, Protocol::Miracast);
    let s5 = if_spoken(entries, addresses, Protocol::Dlna);
    assert(list == s1 + s2 + s3 + s4 + s5);
    assert forall|p: Protocol| #[trigger] list.contains(p) <==> speaks(entries, addresses, p) by {
        let at = match p {
            Protocol::AirPlayMirror => 0int,
            Protocol::AirPlayVideo => s1.len() as int,
            Protocol::Cast => (s1 + s2).len() as int,
            Protocol::Miracast => (s1 + s2 + s3).len() as int,
            Protocol::Dlna => (s1 + s2 + s3 + s4).len() as int,
        };
        if speaks(entries, addresses, p) {
            assert(list[at] == p);
        }
        if list.contains(p) {
            let k = choose|k: int| 0 <= k < list.len() && list[k] == p;
        }
    }
}

/// An address that shares no identity with another is a device of its own.
pub proof fn law_strangers_stay_apart(entries: Map<IpAddr, EntryText>, a: IpAddr)
    requires
        entries.contains_key(a),
        forall|b: IpAddr| linked(entries, a, b) ==> b == a,
    ensures
        group(entries, a) == set![a],
{
    lemma_connected_self(entries, a);
    assert forall|b: IpAddr| connected(entries, a, b) implies b == a by {
        let path = choose|path: Seq<IpAddr>|
            #[trigger] is_path(entries, path) && path[0] == a && path.last() == b;
        lemma_path_stays(entries, a, path, path.len() - 1);
    }
    assert(group(entries, a) =~= set![a]);
}

proof fn lemma_path_stays(
    entries: Map<IpAddr, EntryText>,
    a: IpAddr,
    path: Seq<IpAddr>,
    k: int,
)
    requires
        is_path(entries, path),
        path[0] == a,
        0 <= k < path.len(),
        forall|b: IpAddr| linked(entries, a, b) ==> b == a,
    ensures
        path[k] == a,
    decreases k,
{
    if k > 0 {
        lemma_path_stays(entries, a, path, k - 1);
        assert(linked(entries, path[k - 1], path[k - 1 + 1]));
    }
}

/// Two sightings may come in either order: the same addresses belong together after them,
/// and each speaks the same protocols.
pub proof fn law_sightings_commute(
    entries: Map<IpAddr, EntryText>,
    first: ObservationText,
    second: ObservationText,
    t1: nat,
    t2: nat,
    a: IpAddr,
    b: IpAddr,
)
    ensures
        ({
            let x = observed(observed(entries, first, t1), second, t2);
            let y = observed(observed(entries, second, t2), first, t1);
            &&& connected(x, a, b) <==> connected(y, a, b)
            &&& x.contains_key(a) ==> x[a].protocols == y[a].protocols
        }),
{
    let x = observed(observed(entries, first, t1), second, t2);
    let y = observed(observed(entries, second, t2), first, t1);
    assert(x.dom() =~= y.dom());
    assert forall|k: IpAddr| #[trigger] x.contains_key(k) implies x[k].identities
        == y[k].identities && x[k].protocols == y[k].protocols by {
        assert(x[k].identities =~= y[k].identities);
        assert(x[k].protocols =~= y[k].protocols);
    }
    law_grouping_by_identity(x, y, a, b);
}

/// A sighting never takes back what an earlier one gave: a name, a port, a URL, an identity
/// or a protocol.
pub proof fn law_sightings_add(e: EntryText, obs: ObservationText, now: nat)
    ensures
        is_given(e.name) ==> after_sighting(e, obs, now).name == e.name,
        e.port != 0 ==> after_sighting(e, obs, now).port == e.port,
        e.dlna_control_url is Some ==> after_sighting(e, obs, now).dlna_control_url
            == e.dlna_control_url,
        e.dlna_location is Some ==> after_sighting(e, obs, now).dlna_location == e.dlna_location,
        e.identities.subset_of(after_sighting(e, obs, now).identities),
        e.protocols.subset_of(after_sighting(e, obs, now).protocols),
{
}

/// An address that was sighted at `now` survives every expiry up to the end of its time to
/// live, and none after it.
pub proof fn law_sighting_keeps_alive(
    entries: Map<IpAddr, EntryText>,
    obs: ObservationText,
    now: nat,
    ttl: nat,
    later: nat,
)
    ensures
        fresh_entries(observed(entries, obs, now), ttl, later).contains_key(obs.address) <==> later
            <= now + ttl,
{
}

/// A sighting brings what was not known yet: a first name, port or URL is taken from it. Its
/// identity and its protocol are added and no others, and the address was last seen then.
pub proof fn law_sighting_brings(e: EntryText, obs: ObservationText, now: nat)
    ensures
        ({
            let after = after_sighting(e, obs, now);
            &&& !is_given(e.name) && is_given(obs.name) ==> after.name == obs.name
            &&& !is_given(obs.name) ==> after.name == e.name
            &&& e.port == 0 ==> after.port == obs.port
            &&& e.dlna_control_url is None && is_given(obs.dlna_control_url)
                ==> after.dlna_control_url == obs.dlna_control_url
            &&& !is_given(obs.dlna_control_url) ==> after.dlna_control_url == e.dlna_control_url
            &&& e.dlna_location is None && is_given(obs.dlna_location) ==> after.dlna_location
                == obs.dlna_location
            &&& !is_given(obs.dlna_location) ==> after.dlna_location == e.dlna_location
            &&& forall|id: Seq<char>|
                #![trigger after.identities.contains(id)]
                after.identities.contains(id) <==> e.identities.contains(id) || (obs.stable_id
                    == Some(id) && id.len() > 0)
            &&& forall|p: Protocol|
                #![trigger after.protocols.contains(p)]
                after.protocols.contains(p) <==> e.protocols.contains(p) || p == obs.protocol
            &&& after.last_seen == now
        }),
{
}

/// A text is given exactly where there is one with at least one character.
pub proof fn law_given(c: char, s: Seq<char>)
    ensures
        is_given(Some(seq![c] + s)),
        !is_given(Some(Seq::empty())),
        !is_given(None),
{
}

/// What is known of an address after a sighting rests on what was known of it before, and on
/// nothing where it was not known; other addresses are not touched.
pub proof fn law_sighting_is_recorded(
    entries: Map<IpAddr, EntryText>,
    obs: ObservationText,
    now: nat,
    a: IpAddr,
)
    ensures
        ({
            let after = observed(entries, obs, now);
            &&& after.contains_key(obs.address)
            &&& a != obs.address ==> (after.contains_key(a) <==> entries.contains_key(a))
            &&& a != obs.address && entries.contains_key(a) ==> after[a] == entries[a]
            &&& entries.contains_key(obs.address) ==> after[obs.address] == after_sighting(
                entries[obs.address],
                obs,
                now,
            )
            &&& !entries.contains_key(obs.address) ==> {
                let e = after[obs.address];
                &&& e.port == obs.port
                &&& e.name == (if is_given(obs.name) {
                    obs.name
                } else {
                    None
                })
                &&& e.dlna_control_url == (if is_given(obs.dlna_control_url) {
                    obs.dlna_control_url
                } else {
                    None
                })
                &&& e.dlna_location == (if is_given(obs.dlna_location) {
                    obs.dlna_location
                } else {
                    None
                })
                &&& forall|id: Seq<char>| #[trigger]
                    e.identities.contains(id) <==> obs.stable_id == Some(id) && id.len() > 0
                &&& forall|p: Protocol| #[trigger] e.protocols.contains(p) <==> p == obs.protocol
                &&& e.last_seen == now
            }
        }),
{
}

/// Expiry drops exactly the addresses that were last seen longer ago than the time to live,
/// and changes nothing of the others.
pub proof fn law_expiry(entries: Map<IpAddr, EntryText>, ttl: nat, now: nat, a: IpAddr)
    ensures
        ({
            let after = fresh_entries(entries, ttl, now);
            &&& after.contains_key(a) <==> entries.contains_key(a) && now <= entries[a].last_seen
                + ttl
            &&& after.contains_key(a) ==> after[a] == entries[a]
        }),
{
}

/// The order of preference among transports: mirroring over AirPlay, then its video, Cast,
/// Miracast and DLNA.
pub proof fn law_preference_of_transports()
    ensures
        rank_of(Protocol::AirPlayMirror) < rank_of(Protocol::AirPlayVideo),
        rank_of(Protocol::AirPlayVideo) < rank_of(Protocol::Cast),
        rank_of(Protocol::Cast) < rank_of(Protocol::Miracast),
        rank_of(Protocol::Miracast) < rank_of(Protocol::Dlna),
{
}

/// The order of preference among addresses: IPv4 ones, then IPv6 ones, then IPv6 ones that
/// are local to the link (fe80::/10), and loopback ones (127.0.0.0/8 and ::1) last; among
/// those of a kind the lower one.
pub proof fn law_preference_of_addresses(a: IpAddr, b: IpAddr)
    ensures
        ({
            let looped = |ip: IpAddr|
                match ip {
                    IpAddr::V4(v4) => v4.bits as int / 0x100_0000 == 127,
                    IpAddr::V6(v6) => v6.bits == 1,
                };
            let linked = |ip: IpAddr|
                match ip {
                    IpAddr::V4(v4) => false,
                    IpAddr::V6(v6) => v6.bits as int / 0x40_0000_0000_0000_0000_0000_0000_0000
                        == 0x3FA,
                };
            &&& !looped(a) && looped(b) ==> preferred(a, b)
            &&& !looped(a) && !looped(b) && !linked(a) && linked(b) ==> preferred(a, b)
            &&& !looped(a) && !looped(b) && !linked(a) && !linked(b) && a is V4 && b is V6
                ==> preferred(a, b)
            &&& looped(a) == looped(b) && linked(a) == linked(b) && (a is V4) == (b is V4) ==> (
            preferred(a, b) <==> a.order() < b.order())
        }),
{
    lemma_first_segment(a);
    lemma_first_segment(b);
}

proof fn lemma_first_segment(ip: IpAddr)
    ensures
        ip matches IpAddr::V6(v6) ==> v6.segments()[0] as int / 64 == v6.bits as int
            / 0x40_0000_0000_0000_0000_0000_0000_0000,
{
    if let IpAddr::V6(v6) = ip {
        let bits = v6.bits;
        assert(((bits / 0x1_0000_0000_0000_0000_0000_0000_0000) as u16) / 64 == bits
            / 0x40_0000_0000_0000_0000_0000_0000_0000) by (bit_vector);
    }
}

/// Addresses that share an identity belong to one device.
pub proof fn law_shared_identity_joins(
    entries: Map<IpAddr, EntryText>,
    a: IpAddr,
    b: IpAddr,
    id: Seq<char>,
)
    requires
        entries.contains_key(a),
        entries.contains_key(b),
        entries[a].identities.contains(id),
        entries[b].identities.contains(id),
    ensures
        group(entries, a).contains(b),
        group(entries, a) == group(entries, b),
{
    assert(linked(entries, a, b));
    lemma_connected_link(entries, a, b);
    lemma_connected_symmetric(entries, a, b);
    assert forall|c: IpAddr| group(entries, a).contains(c) == group(entries, b).contains(c) by {
        if connected(entries, a, c) {
            lemma_connected_transitive(entries, b, a, c);
        }
        if connected(entries, b, c) {
            lemma_connected_transitive(entries, a, b, c);
        }
    }
    assert(group(entries, a) =~= group(entries, b));
}

/// Addresses belong to one device only by identities that they share, from one to the next:
/// where no address of a set shares an identity with one outside of it, no device reaches
/// over its bounds.
pub proof fn law_groups_keep_bounds(
    entries: Map<IpAddr, EntryText>,
    bounds: Set<IpAddr>,
    a: IpAddr,
    b: IpAddr,
)
    requires
        bounds.contains(a),
        forall|x: IpAddr, y: IpAddr, id: Seq<char>|
            bounds.contains(x) && entries.contains_key(x) && entries.contains_key(y) && (
            #[trigger] entries[x].identities.contains(id)) && (
            #[trigger] entries[y].identities.contains(id)) ==> bounds.contains(y),
        group(entries, a).contains(b),
    ensures
        bounds.contains(b),
        entries.contains_key(b),
{
    let path = choose|path: Seq<IpAddr>|
        #[trigger] is_path(entries, path) && path[0] == a && path.last() == b;
    lemma_path_keeps_bounds(entries, bounds, path, path.len() - 1);
}

proof fn lemma_path_keeps_bounds(
    entries: Map<IpAddr, EntryText>,
    bounds: Set<IpAddr>,
    path: Seq<IpAddr>,
    k: int,
)
    requires
        is_path(entries, path),
        bounds.contains(path[0]),
        0 <= k < path.len(),
        forall|x: IpAddr, y: IpAddr, id: Seq<char>|
            bounds.contains(x) && entries.contains_key(x) && entries.contains_key(y) && (
            #[trigger] entries[x].identities.contains(id)) && (
            #[trigger] entries[y].identities.contains(id)) ==> bounds.contains(y),
    ensures
        bounds.contains(path[k]),
        entries.contains_key(path[k]),
    decreases k,
{
    if k > 0 {
        lemma_path_keeps_bounds(entries, bounds, path, k - 1);
        let (x, y) = (path[k - 1], path[k - 1 + 1]);
        assert(linked(entries, x, y));
        let id = choose|id: Seq<char>|
            entries[x].identities.contains(id) && #[trigger] entries[y].identities.contains(id);
        assert(entries[x].identities.contains(id));
    }
}

/// The device list is ordered by the best transport of each device, then by name, then by
/// address; devices without a transport come last.
pub proof fn law_order_of_devices(a: DeviceText, b: DeviceText)
    ensures
        a.protocols.len() > 0 && b.protocols.len() == 0 ==> device_before(a, b),
        a.protocols.len() > 0 && b.protocols.len() > 0 ==> {
            let (p, q) = (a.protocols[0], b.protocols[0]);
            &&& rank_of(p) < rank_of(q) ==> device_before(a, b)
            &&& rank_of(p) > rank_of(q) ==> !device_before(a, b)
            &&& p == q && text_less(a.name, b.name) ==> device_before(a, b)
            &&& p == q && text_less(b.name, a.name) ==> !device_before(a, b)
            &&& p == q && a.name == b.name ==> (device_before(a, b) <==> a.address.order()
                < b.address.order())
        },
{
    if text_less(b.name, a.name) {
        if text_less(a.name, b.name) {
            lemma_text_transitive(a.name, b.name, a.name);
        }
        lemma_text_irreflexive(a.name);
    }
    lemma_text_irreflexive(a.name);
}

} // verus!
