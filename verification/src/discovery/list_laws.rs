//! Laws of the device list: that merging is well defined, that the list has one device for
//! each group of addresses, and that the order of the sightings makes no difference to it.

use vstd::prelude::*;
use vstd::relations::injective_on;
use vstd::set_lib::lemma_len_subset;
use vstd::set_lib::lemma_map_size;

use crate::discovery::devices::connected;
use crate::discovery::devices::device_before;
use crate::discovery::devices::group;
use crate::discovery::devices::has_identity;
use crate::discovery::devices::is_device_in;
use crate::discovery::devices::is_device_list;
use crate::discovery::devices::is_least_identity;
use crate::discovery::devices::is_lowest;
use crate::discovery::devices::is_path;
use crate::discovery::devices::is_primary;
use crate::discovery::devices::law_grouping_by_identity;
use crate::discovery::devices::law_groups_partition;
use crate::discovery::devices::law_transports_best_first;
use crate::discovery::devices::lemma_connected_self;
use crate::discovery::devices::lemma_device_before_irreflexive;
use crate::discovery::devices::lemma_least_identity_is;
use crate::discovery::devices::lemma_lowest_is;
use crate::discovery::devices::lemma_primary_is;
use crate::discovery::devices::least_identity;
use crate::discovery::devices::linked;
use crate::discovery::devices::lowest;
use crate::discovery::devices::merged;
use crate::discovery::devices::preferred;
use crate::discovery::devices::primary;
use crate::discovery::devices::rank_of;
use crate::discovery::devices::speaks;
use crate::discovery::devices::spoken;
use crate::discovery::registry::are_sighted;
use crate::discovery::registry::fresh_entries;
use crate::discovery::registry::is_given;
use crate::discovery::registry::is_sighted;
use crate::discovery::registry::observed;
use crate::discovery::registry::EntryText;
use crate::discovery::registry::ObservationText;
use crate::pipeline::address::law_order_is_strict;
use crate::pipeline::address::IpAddr;
use crate::pipeline::types::DeviceText;
use crate::pipeline::types::Protocol;
use crate::text::lemma_text_total;
use crate::text::lemma_text_transitive;
use crate::text::text_less;

verus! {

// --- Which entries there are ---------------------------------------------------------

/// An empty registry has only entries that were sighted, and sightings and expiry keep it
/// so.
pub proof fn law_entries_are_sighted(
    entries: Map<IpAddr, EntryText>,
    obs: ObservationText,
    now: nat,
    ttl: nat,
)
    ensures
        are_sighted(Map::<IpAddr, EntryText>::empty()),
        are_sighted(entries) ==> are_sighted(observed(entries, obs, now)),
        are_sighted(entries) ==> are_sighted(fresh_entries(entries, ttl, now)),
{
    assert(Map::<IpAddr, EntryText>::empty().dom() =~= Set::empty());
    if are_sighted(entries) {
        let after = observed(entries, obs, now);
        assert(after.dom() =~= entries.dom().insert(obs.address));
        assert forall|a: IpAddr| #[trigger] after.contains_key(a) implies is_sighted(after[a]) by {
            if a == obs.address {
                assert(after[a].protocols.contains(obs.protocol));
                if entries.contains_key(a) {
                    assert(is_sighted(entries[a]));
                }
            } else {
                assert(entries.contains_key(a));
            }
        }
        let fresh = fresh_entries(entries, ttl, now);
        assert(fresh.dom().subset_of(entries.dom()));
        lemma_len_subset(fresh.dom(), entries.dom());
        assert forall|a: IpAddr| #[trigger] fresh.contains_key(a) implies is_sighted(fresh[a]) by {
            assert(entries.contains_key(a));
        }
    }
}

// --- Merging -------------------------------------------------------------------------

/// A finite group has a primary address.
proof fn lemma_primary_exists(addresses: Set<IpAddr>)
    requires
        addresses.finite(),
        addresses.len() > 0,
    ensures
        is_primary(addresses, primary(addresses)),
    decreases addresses.len(),
{
    let a = addresses.choose();
    let rest = addresses.remove(a);
    if rest.len() == 0 {
        assert forall|b: IpAddr| #[trigger] addresses.contains(b) implies b == a || preferred(
            a,
            b,
        ) by {
            if b != a {
                assert(rest.contains(b));
            }
        }
        lemma_primary_is(addresses, a);
    } else {
        lemma_primary_exists(rest);
        let p = primary(rest);
        law_order_is_strict(a, p);
        let q = if preferred(a, p) {
            a
        } else {
            p
        };
        assert forall|b: IpAddr| #[trigger] addresses.contains(b) implies b == q || preferred(
            q,
            b,
        ) by {
            if b != a {
                assert(rest.contains(b));
            }
        }
        lemma_primary_is(addresses, q);
    }
}

/// A finite group of which some address satisfies `f` has a lowest one that does.
proof fn lemma_lowest_exists(addresses: Set<IpAddr>, f: spec_fn(IpAddr) -> bool, a: IpAddr)
    requires
        addresses.finite(),
        addresses.contains(a),
        f(a),
    ensures
        lowest(addresses, f) is Some,
        is_lowest(addresses, f, lowest(addresses, f)->0),
    decreases addresses.len(),
{
    let rest = addresses.remove(a);
    if exists|b: IpAddr| #[trigger] rest.contains(b) && f(b) {
        let b = choose|b: IpAddr| #[trigger] rest.contains(b) && f(b);
        lemma_lowest_exists(rest, f, b);
        let l = lowest(rest, f)->0;
        let m = if a.order() < l.order() {
            a
        } else {
            l
        };
        assert forall|c: IpAddr| #[trigger] addresses.contains(c) && f(c) implies m.order()
            <= c.order() by {
            if c != a {
                assert(rest.contains(c));
            }
        }
        lemma_lowest_is(addresses, f, m);
    } else {
        assert forall|c: IpAddr| #[trigger] addresses.contains(c) && f(c) implies a.order()
            <= c.order() by {
            if c != a {
                assert(rest.contains(c));
            }
        }
        lemma_lowest_is(addresses, f, a);
    }
}

/// No lowest address is found where none satisfies `f`.
proof fn lemma_lowest_missing(addresses: Set<IpAddr>, f: spec_fn(IpAddr) -> bool)
    requires
        forall|a: IpAddr| #[trigger] addresses.contains(a) ==> !f(a),
    ensures
        lowest(addresses, f) is None,
{
    if exists|a: IpAddr| is_lowest(addresses, f, a) {
        let a = choose|a: IpAddr| is_lowest(addresses, f, a);
        assert(addresses.contains(a));
    }
}

/// The identities of a group.
spec fn identities_of(entries: Map<IpAddr, EntryText>, addresses: Set<IpAddr>) -> Set<Seq<char>> {
    Set::new(|id: Seq<char>| has_identity(entries, addresses, id))
}

proof fn lemma_identities_finite(entries: Map<IpAddr, EntryText>, addresses: Set<IpAddr>)
    requires
        addresses.finite(),
        forall|a: IpAddr| #[trigger] addresses.contains(a) ==> entries[a].identities.finite(),
    ensures
        identities_of(entries, addresses).finite(),
    decreases addresses.len(),
{
    let all = identities_of(entries, addresses);
    if addresses.len() == 0 {
        assert(all =~= Set::empty()) by {
            assert forall|id: Seq<char>| !all.contains(id) by {
                if has_identity(entries, addresses, id) {
                    let a = choose|a: IpAddr| #[trigger]
                        addresses.contains(a) && entries[a].identities.contains(id);
                    assert(addresses.contains(a));
                }
            }
        }
    } else {
        let a = addresses.choose();
        let rest = addresses.remove(a);
        lemma_identities_finite(entries, rest);
        assert(all =~= identities_of(entries, rest).union(entries[a].identities)) by {
            assert forall|id: Seq<char>| all.contains(id) == identities_of(entries, rest).union(
                entries[a].identities,
            ).contains(id) by {
                if has_identity(entries, addresses, id) {
                    let b = choose|b: IpAddr| #[trigger]
                        addresses.contains(b) && entries[b].identities.contains(id);
                    if b != a {
                        assert(rest.contains(b));
                    }
                }
                if has_identity(entries, rest, id) {
                    let b = choose|b: IpAddr| #[trigger]
                        rest.contains(b) && entries[b].identities.contains(id);
                    assert(addresses.contains(b));
                }
                assert(addresses.contains(a));
            }
        }
    }
}

/// Of finitely many texts one comes first.
proof fn lemma_least_text(texts: Set<Seq<char>>) -> (least: Seq<char>)
    requires
        texts.finite(),
        texts.len() > 0,
    ensures
        texts.contains(least),
        forall|t: Seq<char>| #[trigger] texts.contains(t) ==> t == least || text_less(least, t),
    decreases texts.len(),
{
    let x = texts.choose();
    let rest = texts.remove(x);
    if rest.len() == 0 {
        assert forall|t: Seq<char>| #[trigger] texts.contains(t) implies t == x || text_less(
            x,
            t,
        ) by {
            if t != x {
                assert(rest.contains(t));
            }
        }
        x
    } else {
        let y = lemma_least_text(rest);
        lemma_text_total(x, y);
        let least = if text_less(x, y) {
            x
        } else {
            y
        };
        assert forall|t: Seq<char>| #[trigger] texts.contains(t) implies t == least || text_less(
            least,
            t,
        ) by {
            if t != x {
                assert(rest.contains(t));
                if least == x && t != y {
                    lemma_text_transitive(x, y, t);
                }
            }
        }
        least
    }
}

/// A group with an identity has a least one.
proof fn lemma_least_identity_exists(
    entries: Map<IpAddr, EntryText>,
    addresses: Set<IpAddr>,
    id: Seq<char>,
)
    requires
        addresses.finite(),
        forall|a: IpAddr| #[trigger] addresses.contains(a) ==> entries[a].identities.finite(),
        has_identity(entries, addresses, id),
    ensures
        least_identity(entries, addresses) is Some,
        is_least_identity(entries, addresses, least_identity(entries, addresses)->0),
{
    let all = identities_of(entries, addresses);
    lemma_identities_finite(entries, addresses);
    assert(all.contains(id));
    let least = lemma_least_text(all);
    assert forall|other: Seq<char>| #[trigger]
        has_identity(entries, addresses, other) implies other == least || text_less(
        least,
        other,
    ) by {
        assert(all.contains(other));
    }
    lemma_least_identity_is(entries, addresses, least);
}

/// `a` is the lowest address of the group that has a name.
pub open spec fn is_first_named(
    entries: Map<IpAddr, EntryText>,
    addresses: Set<IpAddr>,
    a: IpAddr,
) -> bool {
    &&& addresses.contains(a)
    &&& is_given(entries[a].name)
    &&& forall|b: IpAddr| #[trigger]
        addresses.contains(b) && is_given(entries[b].name) ==> a.order() <= b.order()
}

/// `a` is the lowest address of the group that has a control URL.
pub open spec fn is_first_controlled(
    entries: Map<IpAddr, EntryText>,
    addresses: Set<IpAddr>,
    a: IpAddr,
) -> bool {
    &&& addresses.contains(a)
    &&& entries[a].dlna_control_url is Some
    &&& forall|b: IpAddr| #[trigger]
        addresses.contains(b) && entries[b].dlna_control_url is Some ==> a.order() <= b.order()
}

/// `a` is the lowest address of the group that has a description URL.
pub open spec fn is_first_located(
    entries: Map<IpAddr, EntryText>,
    addresses: Set<IpAddr>,
    a: IpAddr,
) -> bool {
    &&& addresses.contains(a)
    &&& entries[a].dlna_location is Some
    &&& forall|b: IpAddr| #[trigger]
        addresses.contains(b) && entries[b].dlna_location is Some ==> a.order() <= b.order()
}

/// Some tracked addresses, at least one.
pub open spec fn is_tracked_group(
    entries: Map<IpAddr, EntryText>,
    addresses: Set<IpAddr>,
) -> bool {
    addresses.subset_of(entries.dom()) && exists|a: IpAddr| addresses.contains(a)
}

proof fn lemma_tracked_group(entries: Map<IpAddr, EntryText>, addresses: Set<IpAddr>)
    requires
        are_sighted(entries),
        is_tracked_group(entries, addresses),
    ensures
        addresses.finite(),
        addresses.len() > 0,
        forall|a: IpAddr| #[trigger] addresses.contains(a) ==> is_sighted(entries[a]),
{
    lemma_len_subset(addresses, entries.dom());
    let a = choose|a: IpAddr| addresses.contains(a);
    assert(addresses.contains(a));
    assert forall|b: IpAddr| #[trigger] addresses.contains(b) implies is_sighted(entries[b]) by {
        assert(entries.contains_key(b));
    }
}

/// Every group of tracked addresses merges into one device. Its address is the member that
/// is preferred to all others, and its port that member's; its transports are those of all
/// members, at least one, the preferred first and each once. It depends on the set of the
/// members alone, in whatever order they are taken.
pub proof fn law_merged_address(entries: Map<IpAddr, EntryText>, addresses: Set<IpAddr>)
    requires
        are_sighted(entries),
        is_tracked_group(entries, addresses),
    ensures
        is_primary(addresses, merged(entries, addresses).address),
        merged(entries, addresses).port == entries[merged(entries, addresses).address].port,
        merged(entries, addresses).protocols.len() > 0,
        forall|p: Protocol| #[trigger]
            merged(entries, addresses).protocols.contains(p) <==> speaks(entries, addresses, p),
        forall|i: int, j: int|
            0 <= i < j < merged(entries, addresses).protocols.len() ==> rank_of(
                #[trigger] merged(entries, addresses).protocols[i],
            ) < rank_of(#[trigger] merged(entries, addresses).protocols[j]),
{
    lemma_tracked_group(entries, addresses);
    lemma_primary_exists(addresses);
    law_transports_best_first(entries, addresses);
    let a = choose|a: IpAddr| addresses.contains(a);
    assert(addresses.contains(a));
    assert(is_sighted(entries[a]));
    let p = choose|p: Protocol| entries[a].protocols.contains(p);
    assert(speaks(entries, addresses, p));
    assert(spoken(entries, addresses).contains(p));
}

/// The name of a merged device is that of its lowest member that has one, and names its
/// address where none has.
pub proof fn law_merged_name(entries: Map<IpAddr, EntryText>, addresses: Set<IpAddr>)
    requires
        are_sighted(entries),
        is_tracked_group(entries, addresses),
    ensures
        forall|a: IpAddr| #[trigger]
            is_first_named(entries, addresses, a) ==> merged(entries, addresses).name
                == entries[a].name->0,
        (exists|a: IpAddr| is_first_named(entries, addresses, a)) || (merged(entries, addresses).name
            == "Unknown device ("@ + merged(entries, addresses).address.text() + ")"@
            && forall|a: IpAddr| #[trigger] addresses.contains(a) ==> !is_given(entries[a].name)),
{
    lemma_tracked_group(entries, addresses);
    let f = |a: IpAddr| is_given(entries[a].name);
    if exists|a: IpAddr| #[trigger] addresses.contains(a) && is_given(entries[a].name) {
        let w = choose|a: IpAddr| #[trigger] addresses.contains(a) && is_given(entries[a].name);
        lemma_lowest_exists(addresses, f, w);
        let l = lowest(addresses, f)->0;
        assert(is_first_named(entries, addresses, l));
        assert forall|a: IpAddr| #[trigger] is_first_named(entries, addresses, a) implies merged(
            entries,
            addresses,
        ).name == entries[a].name->0 by {
            assert(addresses.contains(l));
            law_order_is_strict(a, l);
        }
    } else {
        lemma_lowest_missing(addresses, f);
    }
}

/// The identity of a merged device is the least of its members' identities, and the text of
/// its address where they have none.
pub proof fn law_merged_identity(entries: Map<IpAddr, EntryText>, addresses: Set<IpAddr>)
    requires
        are_sighted(entries),
        is_tracked_group(entries, addresses),
    ensures
        is_least_identity(entries, addresses, merged(entries, addresses).id) || (merged(
            entries,
            addresses,
        ).id == merged(entries, addresses).address.text() && forall|id: Seq<char>|
            !#[trigger] has_identity(entries, addresses, id)),
{
    lemma_tracked_group(entries, addresses);
    if exists|id: Seq<char>| has_identity(entries, addresses, id) {
        let id = choose|id: Seq<char>| has_identity(entries, addresses, id);
        lemma_least_identity_exists(entries, addresses, id);
    } else {
        if exists|id: Seq<char>| is_least_identity(entries, addresses, id) {
            let id = choose|id: Seq<char>| is_least_identity(entries, addresses, id);
            assert(has_identity(entries, addresses, id));
        }
    }
}

/// The URLs of a merged device are those of its lowest members that have them.
pub proof fn law_merged_urls(entries: Map<IpAddr, EntryText>, addresses: Set<IpAddr>)
    requires
        are_sighted(entries),
        is_tracked_group(entries, addresses),
    ensures
        forall|a: IpAddr| #[trigger]
            is_first_controlled(entries, addresses, a) ==> merged(
                entries,
                addresses,
            ).dlna_control_url == entries[a].dlna_control_url,
        merged(entries, addresses).dlna_control_url is None <==> forall|a: IpAddr| #[trigger]
            addresses.contains(a) ==> entries[a].dlna_control_url is None,
        forall|a: IpAddr| #[trigger]
            is_first_located(entries, addresses, a) ==> merged(entries, addresses).dlna_location
                == entries[a].dlna_location,
        merged(entries, addresses).dlna_location is None <==> forall|a: IpAddr| #[trigger]
            addresses.contains(a) ==> entries[a].dlna_location is None,
{
    lemma_tracked_group(entries, addresses);
    let f = |a: IpAddr| entries[a].dlna_control_url is Some;
    if exists|a: IpAddr| #[trigger] addresses.contains(a) && entries[a].dlna_control_url is Some {
        let w = choose|a: IpAddr| #[trigger]
            addresses.contains(a) && entries[a].dlna_control_url is Some;
        lemma_lowest_exists(addresses, f, w);
        let l = lowest(addresses, f)->0;
        assert(addresses.contains(l) && f(l));
        assert forall|a: IpAddr| #[trigger]
            is_first_controlled(entries, addresses, a) implies merged(
            entries,
            addresses,
        ).dlna_control_url == entries[a].dlna_control_url by {
            law_order_is_strict(a, l);
        }
    } else {
        lemma_lowest_missing(addresses, f);
    }
    let g = |a: IpAddr| entries[a].dlna_location is Some;
    if exists|a: IpAddr| #[trigger] addresses.contains(a) && entries[a].dlna_location is Some {
        let w = choose|a: IpAddr| #[trigger]
            addresses.contains(a) && entries[a].dlna_location is Some;
        lemma_lowest_exists(addresses, g, w);
        let l = lowest(addresses, g)->0;
        assert(addresses.contains(l) && g(l));
        assert forall|a: IpAddr| #[trigger]
            is_first_located(entries, addresses, a) implies merged(entries, addresses).dlna_location
            == entries[a].dlna_location by {
            law_order_is_strict(a, l);
        }
    } else {
        lemma_lowest_missing(addresses, g);
    }
}

/// `d` is what a group of addresses merges into: its address is the member that is preferred
/// to all others, and its port that member's; its transports are those of all members, best
/// first and each once; its name and its URLs are those of its lowest members that have them;
/// its identity is the least of theirs. Without a name it is called by its address, and
/// without an identity it is known by its address.
pub open spec fn is_merge(
    entries: Map<IpAddr, EntryText>,
    addresses: Set<IpAddr>,
    d: DeviceText,
) -> bool {
    &&& is_primary(addresses, d.address)
    &&& d.port == entries[d.address].port
    &&& best_first(d.protocols)
    &&& forall|p: Protocol| #[trigger] d.protocols.contains(p) <==> speaks(entries, addresses, p)
    &&& (exists|a: IpAddr| #[trigger]
        is_first_named(entries, addresses, a) && d.name == entries[a].name->0) || (d.name
        == "Unknown device ("@ + d.address.text() + ")"@ && forall|a: IpAddr| #[trigger]
        addresses.contains(a) ==> !is_given(entries[a].name))
    &&& is_least_identity(entries, addresses, d.id) || (d.id == d.address.text() && forall|
        id: Seq<char>,
    | !#[trigger] has_identity(entries, addresses, id))
    &&& (exists|a: IpAddr| #[trigger]
        is_first_controlled(entries, addresses, a) && d.dlna_control_url
            == entries[a].dlna_control_url) || (d.dlna_control_url is None && forall|a: IpAddr|
     #[trigger]
        addresses.contains(a) ==> entries[a].dlna_control_url is None)
    &&& (exists|a: IpAddr| #[trigger]
        is_first_located(entries, addresses, a) && d.dlna_location == entries[a].dlna_location) || (
    d.dlna_location is None && forall|a: IpAddr| #[trigger]
        addresses.contains(a) ==> entries[a].dlna_location is None)
}

/// Every group of tracked addresses merges into a device as [`is_merge`] says.
pub proof fn law_merged(entries: Map<IpAddr, EntryText>, addresses: Set<IpAddr>)
    requires
        are_sighted(entries),
        is_tracked_group(entries, addresses),
    ensures
        is_merge(entries, addresses, merged(entries, addresses)),
{
    let d = merged(entries, addresses);
    law_merged_address(entries, addresses);
    law_merged_name(entries, addresses);
    law_merged_identity(entries, addresses);
    law_merged_urls(entries, addresses);
    lemma_tracked_group(entries, addresses);
    if d.dlna_control_url is Some {
        let f = |a: IpAddr| entries[a].dlna_control_url is Some;
        let w = choose|a: IpAddr| #[trigger]
            addresses.contains(a) && entries[a].dlna_control_url is Some;
        lemma_lowest_exists(addresses, f, w);
        assert(is_first_controlled(entries, addresses, lowest(addresses, f)->0));
    }
    if d.dlna_location is Some {
        let g = |a: IpAddr| entries[a].dlna_location is Some;
        let w = choose|a: IpAddr| #[trigger]
            addresses.contains(a) && entries[a].dlna_location is Some;
        lemma_lowest_exists(addresses, g, w);
        assert(is_first_located(entries, addresses, lowest(addresses, g)->0));
    }
}

/// A group of addresses merges into one device only: nothing else fits what [`is_merge`]
/// says, in whatever order the members are taken.
pub proof fn law_merge_is_unique(
    entries: Map<IpAddr, EntryText>,
    addresses: Set<IpAddr>,
    c: DeviceText,
    d: DeviceText,
)
    requires
        is_merge(entries, addresses, c),
        is_merge(entries, addresses, d),
    ensures
        c == d,
{
    lemma_primary_is(addresses, c.address);
    lemma_primary_is(addresses, d.address);
    assert forall|p: Protocol| c.protocols.contains(p) == d.protocols.contains(p) by {}
    lemma_best_first_unique(c.protocols, d.protocols);
    assert(c.name == d.name) by {
        if exists|a: IpAddr| #[trigger] is_first_named(entries, addresses, a) {
            let a = choose|a: IpAddr| #[trigger]
                is_first_named(entries, addresses, a) && c.name == entries[a].name->0;
            let b = choose|b: IpAddr| #[trigger]
                is_first_named(entries, addresses, b) && d.name == entries[b].name->0;
            let x = choose|a: IpAddr| #[trigger] is_first_named(entries, addresses, a);
            assert(addresses.contains(x));
            assert(addresses.contains(a) && addresses.contains(b));
            law_order_is_strict(a, b);
        }
    }
    assert(c.id == d.id) by {
        if is_least_identity(entries, addresses, c.id) {
            assert(has_identity(entries, addresses, c.id));
            lemma_least_identity_is(entries, addresses, c.id);
            lemma_least_identity_is(entries, addresses, d.id);
        } else {
            if is_least_identity(entries, addresses, d.id) {
                assert(has_identity(entries, addresses, d.id));
            }
        }
    }
    assert(c.dlna_control_url == d.dlna_control_url) by {
        if exists|a: IpAddr| #[trigger] is_first_controlled(entries, addresses, a) {
            let a = choose|a: IpAddr| #[trigger]
                is_first_controlled(entries, addresses, a) && c.dlna_control_url
                    == entries[a].dlna_control_url;
            let b = choose|b: IpAddr| #[trigger]
                is_first_controlled(entries, addresses, b) && d.dlna_control_url
                    == entries[b].dlna_control_url;
            let x = choose|a: IpAddr| #[trigger] is_first_controlled(entries, addresses, a);
            assert(addresses.contains(x));
            assert(addresses.contains(a) && addresses.contains(b));
            law_order_is_strict(a, b);
        }
    }
    assert(c.dlna_location == d.dlna_location) by {
        if exists|a: IpAddr| #[trigger] is_first_located(entries, addresses, a) {
            let a = choose|a: IpAddr| #[trigger]
                is_first_located(entries, addresses, a) && c.dlna_location
                    == entries[a].dlna_location;
            let b = choose|b: IpAddr| #[trigger]
                is_first_located(entries, addresses, b) && d.dlna_location
                    == entries[b].dlna_location;
            let x = choose|a: IpAddr| #[trigger] is_first_located(entries, addresses, a);
            assert(addresses.contains(x));
            assert(addresses.contains(a) && addresses.contains(b));
            law_order_is_strict(a, b);
        }
    }
}

/// Transports of the same kinds, best first, are the same list.
proof fn lemma_best_first_unique(a: Seq<Protocol>, b: Seq<Protocol>)
    requires
        best_first(a),
        best_first(b),
        forall|p: Protocol| #[trigger] a.contains(p) <==> b.contains(p),
    ensures
        a == b,
    decreases a.len(),
{
    if a.len() == 0 {
        if b.len() > 0 {
            assert(b.contains(b[0]));
            assert(!a.contains(b[0]));
        }
        assert(a =~= b);
    } else {
        let (m, n) = (a.len() - 1, b.len() - 1);
        assert(a.contains(a[m]));
        assert(b.contains(a[m]));
        let k = choose|k: int| 0 <= k < b.len() && b[k] == a[m];
        assert(b.contains(b[n]));
        assert(a.contains(b[n]));
        let l = choose|l: int| 0 <= l < a.len() && a[l] == b[n];
        assert(a[m] == b[n]) by {
            if k < n && l < m {
                assert(rank_of(b[k]) < rank_of(b[n]));
                assert(rank_of(a[l]) < rank_of(a[m]));
            }
        }
        let (x, y) = (a.drop_last(), b.drop_last());
        assert forall|p: Protocol| #[trigger] x.contains(p) <==> y.contains(p) by {
            if x.contains(p) {
                let i = choose|i: int| 0 <= i < x.len() && x[i] == p;
                assert(rank_of(a[i]) < rank_of(a[m]));
                assert(a.contains(a[i]));
                let j = choose|j: int| 0 <= j < b.len() && b[j] == p;
                assert(y[j] == p);
            }
            if y.contains(p) {
                let i = choose|i: int| 0 <= i < y.len() && y[i] == p;
                assert(rank_of(b[i]) < rank_of(b[n]));
                assert(b.contains(b[i]));
                assert(a.contains(p));
                let j = choose|j: int| 0 <= j < a.len() && a[j] == p;
                assert(x[j] == p);
            }
        }
        assert(best_first(x)) by {
            assert forall|i: int, j: int| 0 <= i < j < x.len() implies rank_of(#[trigger] x[i])
                < rank_of(#[trigger] x[j]) by {
                assert(rank_of(a[i]) < rank_of(a[j]));
            }
        }
        assert(best_first(y)) by {
            assert forall|i: int, j: int| 0 <= i < j < y.len() implies rank_of(#[trigger] y[i])
                < rank_of(#[trigger] y[j]) by {
                assert(rank_of(b[i]) < rank_of(b[j]));
            }
        }
        lemma_best_first_unique(x, y);
        assert(a =~= x.push(a[m]));
        assert(b =~= y.push(b[n]));
    }
}

// --- The list ------------------------------------------------------------------------

/// The group of a tracked address is one of tracked addresses, and holds it.
proof fn lemma_group_is_tracked(entries: Map<IpAddr, EntryText>, a: IpAddr)
    requires
        entries.contains_key(a),
    ensures
        group(entries, a).contains(a),
        is_tracked_group(entries, group(entries, a)),
{
    lemma_connected_self(entries, a);
    assert(group(entries, a).contains(a));
    assert forall|b: IpAddr| group(entries, a).contains(b) implies entries.dom().contains(b) by {
        let path = choose|path: Seq<IpAddr>|
            #[trigger] is_path(entries, path) && path[0] == a && path.last() == b;
        let n = path.len() - 1;
        if n > 0 {
            assert(linked(entries, path[n - 1], path[n - 1 + 1]));
        }
    }
}

/// Two tracked addresses fall into the same device exactly where a chain of tracked
/// addresses joins them in which neighbours share an identity.
pub proof fn law_same_device(entries: Map<IpAddr, EntryText>, a: IpAddr, b: IpAddr)
    requires
        are_sighted(entries),
        entries.contains_key(a),
        entries.contains_key(b),
    ensures
        merged(entries, group(entries, a)) == merged(entries, group(entries, b)) <==> connected(
            entries,
            a,
            b,
        ),
{
    lemma_group_is_tracked(entries, a);
    lemma_group_is_tracked(entries, b);
    law_groups_partition(entries, a, b, b);
    law_merged_address(entries, group(entries, a));
    law_merged_address(entries, group(entries, b));
    if !connected(entries, a, b) {
        let x = merged(entries, group(entries, a)).address;
        assert(group(entries, a).contains(x));
        assert(!group(entries, b).contains(x));
    }
}

/// The addresses in the device list differ from each other and are tracked; every device has
/// a transport, and its transports stand best first, each once; and the list is ordered by
/// best transport, then name, then address.
pub proof fn law_devices_are_distinct(entries: Map<IpAddr, EntryText>, list: Seq<DeviceText>)
    requires
        are_sighted(entries),
        is_device_list(entries, list),
    ensures
        forall|i: int|
            0 <= i < list.len() ==> entries.contains_key((#[trigger] list[i]).address)
                && list[i].protocols.len() > 0 && best_first(list[i].protocols),
        forall|i: int, j: int|
            0 <= i < j < list.len() ==> (#[trigger] list[i]).address != (
            #[trigger] list[j]).address && listed_before(list[i], list[j]),
{
    assert forall|i: int| 0 <= i < list.len() implies entries.contains_key(
        (#[trigger] list[i]).address,
    ) && list[i].protocols.len() > 0 && best_first(list[i].protocols) by {
        assert(is_device_in(entries, list[i]));
        let a = choose|a: IpAddr| #[trigger]
            entries.contains_key(a) && list[i] == merged(entries, group(entries, a));
        lemma_group_is_tracked(entries, a);
        law_merged_address(entries, group(entries, a));
        assert(group(entries, a).contains(list[i].address));
        assert(best_first(list[i].protocols));
    }
    assert forall|i: int, j: int| 0 <= i < j < list.len() implies (#[trigger] list[i]).address != (
    #[trigger] list[j]).address && listed_before(list[i], list[j]) by {
        assert(device_before(list[i], list[j]));
        assert(list[i].protocols.len() > 0 && list[j].protocols.len() > 0);
        if list[i].address == list[j].address {
            lemma_same_address(entries, list, i, j);
            lemma_device_before_irreflexive(list[i]);
        }
    }
}

/// The transports stand best first, each once.
pub open spec fn best_first(protocols: Seq<Protocol>) -> bool {
    forall|i: int, j: int|
        0 <= i < j < protocols.len() ==> rank_of(#[trigger] protocols[i]) < rank_of(
            #[trigger] protocols[j],
        )
}

/// `a` comes before `b`: by best transport, then name, then address.
pub open spec fn listed_before(a: DeviceText, b: DeviceText) -> bool {
    ||| rank_of(a.protocols[0]) < rank_of(b.protocols[0])
    ||| {
        &&& rank_of(a.protocols[0]) == rank_of(b.protocols[0])
        &&& text_less(a.name, b.name) || (a.name == b.name && a.address.order() < b.address.order())
    }
}

/// Devices of the list with one address are one device.
proof fn lemma_same_address(
    entries: Map<IpAddr, EntryText>,
    list: Seq<DeviceText>,
    i: int,
    j: int,
)
    requires
        are_sighted(entries),
        is_device_list(entries, list),
        0 <= i < list.len(),
        0 <= j < list.len(),
        list[i].address == list[j].address,
    ensures
        list[i] == list[j],
{
    assert(is_device_in(entries, list[i]));
    let a = choose|a: IpAddr| #[trigger]
        entries.contains_key(a) && list[i] == merged(entries, group(entries, a));
    assert(is_device_in(entries, list[j]));
    let b = choose|b: IpAddr| #[trigger]
        entries.contains_key(b) && list[j] == merged(entries, group(entries, b));
    lemma_group_is_tracked(entries, a);
    lemma_group_is_tracked(entries, b);
    law_merged_address(entries, group(entries, a));
    law_merged_address(entries, group(entries, b));
    assert(group(entries, a).contains(list[i].address));
    assert(group(entries, b).contains(list[i].address));
    law_groups_partition(entries, a, b, b);
}

/// The groups that the tracked addresses fall into.
pub open spec fn groups(entries: Map<IpAddr, EntryText>) -> Set<Set<IpAddr>> {
    entries.dom().map(|a: IpAddr| group(entries, a))
}

/// There is one device for each group of addresses, so that the list is empty exactly where
/// nothing is tracked.
pub proof fn law_one_device_per_group(entries: Map<IpAddr, EntryText>, list: Seq<DeviceText>)
    requires
        are_sighted(entries),
        is_device_list(entries, list),
    ensures
        groups(entries).finite(),
        list.len() == groups(entries).len(),
        list.len() == 0 <==> entries.dom() == Set::<IpAddr>::empty(),
{
    let f = |a: IpAddr| group(entries, a);
    let g = |s: Set<IpAddr>| merged(entries, s);
    let all = groups(entries);
    entries.dom().lemma_map_finite(f);
    assert(list.no_duplicates()) by {
        assert forall|i: int, j: int| 0 <= i < j < list.len() implies list[i] != list[j] by {
            assert(device_before(list[i], list[j]));
            lemma_device_before_irreflexive(list[i]);
        }
    }
    list.unique_seq_to_set();
    assert(injective_on(g, all)) by {
        assert forall|x: Set<IpAddr>, y: Set<IpAddr>|
            all.contains(x) && all.contains(y) && #[trigger] g(x) == #[trigger] g(y) implies x
            == y by {
            let a = choose|a: IpAddr| entries.dom().contains(a) && f(a) == x;
            let b = choose|b: IpAddr| entries.dom().contains(b) && f(b) == y;
            law_same_device(entries, a, b);
            law_groups_partition(entries, a, b, b);
        }
    }
    assert(all.map(g) =~= list.to_set()) by {
        assert forall|d: DeviceText| all.map(g).contains(d) implies list.to_set().contains(d) by {
            let x = choose|x: Set<IpAddr>| all.contains(x) && g(x) == d;
            let a = choose|a: IpAddr| entries.dom().contains(a) && f(a) == x;
            assert(entries.contains_key(a));
            assert(list.contains(merged(entries, group(entries, a))));
        }
        assert forall|d: DeviceText| list.to_set().contains(d) implies all.map(g).contains(d) by {
            let i = choose|i: int| 0 <= i < list.len() && list[i] == d;
            assert(is_device_in(entries, list[i]));
            let a = choose|a: IpAddr| #[trigger]
                entries.contains_key(a) && list[i] == merged(entries, group(entries, a));
            assert(entries.dom().contains(a));
            assert(all.contains(f(a)));
            assert(g(f(a)) == d);
        }
    }
    lemma_map_size(all, list.to_set(), g);
    if list.len() == 0 {
        assert forall|a: IpAddr| !entries.dom().contains(a) by {
            if entries.contains_key(a) {
                assert(list.contains(merged(entries, group(entries, a))));
            }
        }
        assert(entries.dom() =~= Set::<IpAddr>::empty());
    } else {
        assert(is_device_in(entries, list[0]));
        let a = choose|a: IpAddr| #[trigger]
            entries.contains_key(a) && list[0] == merged(entries, group(entries, a));
        assert(entries.dom().contains(a));
    }
}

// --- The order of the sightings ------------------------------------------------------

/// The entries after a run of sightings, each at its time.
pub open spec fn observed_all(
    entries: Map<IpAddr, EntryText>,
    sightings: Seq<(ObservationText, nat)>,
) -> Map<IpAddr, EntryText>
    decreases sightings.len(),
{
    if sightings.len() == 0 {
        entries
    } else {
        observed(
            observed_all(entries, sightings.drop_last()),
            sightings.last().0,
            sightings.last().1,
        )
    }
}

/// The address is among the sightings.
spec fn sights(s: Seq<(ObservationText, nat)>, a: IpAddr) -> bool {
    exists|o: (ObservationText, nat)| #[trigger] s.contains(o) && o.0.address == a
}

/// The identity is given to the address by the sightings.
spec fn gives_identity(s: Seq<(ObservationText, nat)>, a: IpAddr, id: Seq<char>) -> bool {
    exists|o: (ObservationText, nat)| #[trigger]
        s.contains(o) && o.0.address == a && is_given(o.0.stable_id) && o.0.stable_id->0 == id
}

/// The protocol is given to the address by the sightings.
spec fn gives_protocol(s: Seq<(ObservationText, nat)>, a: IpAddr, p: Protocol) -> bool {
    exists|o: (ObservationText, nat)| #[trigger]
        s.contains(o) && o.0.address == a && o.0.protocol == p
}

proof fn lemma_contains_last(s: Seq<(ObservationText, nat)>, o: (ObservationText, nat))
    requires
        s.len() > 0,
    ensures
        s.contains(o) <==> s.drop_last().contains(o) || o == s.last(),
{
    if s.contains(o) {
        let i = choose|i: int| 0 <= i < s.len() && s[i] == o;
        if i < s.len() - 1 {
            assert(s.drop_last()[i] == o);
        }
    }
    if s.drop_last().contains(o) {
        let i = choose|i: int| 0 <= i < s.len() - 1 && s.drop_last()[i] == o;
        assert(s[i] == o);
    }
    assert(s[s.len() - 1] == s.last());
}

/// What sightings add to the addresses, the identities and the protocols.
proof fn lemma_observed_all(
    entries: Map<IpAddr, EntryText>,
    s: Seq<(ObservationText, nat)>,
    a: IpAddr,
    id: Seq<char>,
    p: Protocol,
)
    ensures
        observed_all(entries, s).contains_key(a) <==> entries.contains_key(a) || sights(s, a),
        observed_all(entries, s).contains_key(a) ==> (observed_all(
            entries,
            s,
        )[a].identities.contains(id) <==> (entries.contains_key(a)
            && entries[a].identities.contains(id)) || gives_identity(s, a, id)),
        observed_all(entries, s).contains_key(a) ==> (observed_all(entries, s)[a].protocols.contains(
            p,
        ) <==> (entries.contains_key(a) && entries[a].protocols.contains(p)) || gives_protocol(
            s,
            a,
            p,
        )),
    decreases s.len(),
{
    if s.len() > 0 {
        let rest = s.drop_last();
        lemma_observed_all(entries, rest, a, id, p);
        assert forall|o: (ObservationText, nat)| #[trigger]
            s.contains(o) <==> rest.contains(o) || o == s.last() by {
            lemma_contains_last(s, o);
        }
        assert(s.contains(s.last()));
        lemma_gives_last(s, a, id, p);
    }
}

proof fn lemma_gives_last(s: Seq<(ObservationText, nat)>, a: IpAddr, id: Seq<char>, p: Protocol)
    requires
        s.len() > 0,
    ensures
        sights(s, a) <==> sights(s.drop_last(), a) || s.last().0.address == a,
        gives_identity(s, a, id) <==> gives_identity(s.drop_last(), a, id) || (s.last().0.address
            == a && is_given(s.last().0.stable_id) && s.last().0.stable_id->0 == id),
        gives_protocol(s, a, p) <==> gives_protocol(s.drop_last(), a, p) || (s.last().0.address == a
            && s.last().0.protocol == p),
        gives_identity(s, a, id) ==> sights(s, a),
        gives_protocol(s, a, p) ==> sights(s, a),
{
    let rest = s.drop_last();
    lemma_contains_last(s, s.last());
    if sights(s, a) {
        let o = choose|o: (ObservationText, nat)| #[trigger] s.contains(o) && o.0.address == a;
        lemma_contains_last(s, o);
    }
    if sights(rest, a) {
        let o = choose|o: (ObservationText, nat)| #[trigger] rest.contains(o) && o.0.address == a;
        lemma_contains_last(s, o);
    }
    if gives_identity(s, a, id) {
        let o = choose|o: (ObservationText, nat)| #[trigger]
            s.contains(o) && o.0.address == a && is_given(o.0.stable_id) && o.0.stable_id->0 == id;
        lemma_contains_last(s, o);
    }
    if gives_identity(rest, a, id) {
        let o = choose|o: (ObservationText, nat)| #[trigger]
            rest.contains(o) && o.0.address == a && is_given(o.0.stable_id) && o.0.stable_id->0
                == id;
        lemma_contains_last(s, o);
    }
    if gives_protocol(s, a, p) {
        let o = choose|o: (ObservationText, nat)| #[trigger]
            s.contains(o) && o.0.address == a && o.0.protocol == p;
        lemma_contains_last(s, o);
    }
    if gives_protocol(rest, a, p) {
        let o = choose|o: (ObservationText, nat)| #[trigger]
            rest.contains(o) && o.0.address == a && o.0.protocol == p;
        lemma_contains_last(s, o);
    }
}

/// Sightings may come in any order, and more than once: the same addresses are tracked and
/// belong together after them, and each has the same identities and protocols.
pub proof fn law_order_of_sightings(
    entries: Map<IpAddr, EntryText>,
    s: Seq<(ObservationText, nat)>,
    t: Seq<(ObservationText, nat)>,
    a: IpAddr,
    b: IpAddr,
)
    requires
        s.to_set() == t.to_set(),
    ensures
        observed_all(entries, s).dom() == observed_all(entries, t).dom(),
        observed_all(entries, s).contains_key(a) ==> {
            &&& observed_all(entries, s)[a].identities == observed_all(entries, t)[a].identities
            &&& observed_all(entries, s)[a].protocols == observed_all(entries, t)[a].protocols
        },
        connected(observed_all(entries, s), a, b) <==> connected(observed_all(entries, t), a, b),
{
    let (x, y) = (observed_all(entries, s), observed_all(entries, t));
    assert forall|o: (ObservationText, nat)| #[trigger] s.contains(o) <==> t.contains(o) by {
        assert(s.to_set().contains(o) == s.contains(o));
        assert(t.to_set().contains(o) == t.contains(o));
    }
    assert forall|k: IpAddr| x.dom().contains(k) == y.dom().contains(k) by {
        lemma_same_sightings(entries, s, t, k);
    }
    assert(x.dom() =~= y.dom());
    assert forall|k: IpAddr| #[trigger] x.contains_key(k) implies x[k].identities
        == y[k].identities && x[k].protocols == y[k].protocols by {
        lemma_same_sightings(entries, s, t, k);
    }
    law_grouping_by_identity(x, y, a, b);
}

proof fn lemma_same_sightings(
    entries: Map<IpAddr, EntryText>,
    s: Seq<(ObservationText, nat)>,
    t: Seq<(ObservationText, nat)>,
    k: IpAddr,
)
    requires
        forall|o: (ObservationText, nat)| #[trigger] s.contains(o) <==> t.contains(o),
    ensures
        observed_all(entries, s).contains_key(k) == observed_all(entries, t).contains_key(k),
        observed_all(entries, s).contains_key(k) ==> observed_all(entries, s)[k].identities
            == observed_all(entries, t)[k].identities && observed_all(entries, s)[k].protocols
            == observed_all(entries, t)[k].protocols,
{
    let (x, y) = (observed_all(entries, s), observed_all(entries, t));
    lemma_observed_all(entries, s, k, Seq::empty(), Protocol::Dlna);
    lemma_observed_all(entries, t, k, Seq::empty(), Protocol::Dlna);
    assert(sights(s, k) == sights(t, k)) by {
        if sights(t, k) {
            let o = choose|o: (ObservationText, nat)| #[trigger]
                t.contains(o) && o.0.address == k;
            assert(s.contains(o));
        }
    }
    if x.contains_key(k) {
        assert forall|id: Seq<char>| x[k].identities.contains(id) == y[k].identities.contains(
            id,
        ) by {
            lemma_observed_all(entries, s, k, id, Protocol::Dlna);
            lemma_observed_all(entries, t, k, id, Protocol::Dlna);
            if gives_identity(t, k, id) {
                let o = choose|o: (ObservationText, nat)| #[trigger]
                    t.contains(o) && o.0.address == k && is_given(o.0.stable_id)
                        && o.0.stable_id->0 == id;
                assert(s.contains(o));
            }
        }
        assert(x[k].identities =~= y[k].identities);
        assert forall|p: Protocol| x[k].protocols.contains(p) == y[k].protocols.contains(p) by {
            lemma_observed_all(entries, s, k, Seq::empty(), p);
            lemma_observed_all(entries, t, k, Seq::empty(), p);
            if gives_protocol(t, k, p) {
                let o = choose|o: (ObservationText, nat)| #[trigger]
                    t.contains(o) && o.0.address == k && o.0.protocol == p;
                assert(s.contains(o));
            }
        }
        assert(x[k].protocols =~= y[k].protocols);
    }
}

} // verus!
