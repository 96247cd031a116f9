//! In-memory registry that merges device observations from multiple discovery
//! backends (mDNS, SSDP) into a unified, de-duplicated, preference-ordered list.
//!
//! Observations are tracked per network address, but a single physical device often
//! appears under several addresses (IPv4 + IPv6 link-local) and across protocols
//! (AirPlay via mDNS, DLNA via SSDP). The device list therefore *coalesces* addresses
//! that share any stable identity (an mDNS instance name or an SSDP USN) into one
//! device, preferring the routable IPv4 address as primary.
//!
//! All time is passed in explicitly as a monotonic `Duration` (elapsed since the scan
//! began) so the merge/expiry logic is fully deterministic.

use vstd::prelude::*;

use crate::discovery::devices::address_class;
use crate::discovery::devices::connected;
use crate::discovery::devices::device_before;
use crate::discovery::devices::device_rank;
use crate::discovery::devices::group;
use crate::discovery::devices::has_identity;
use crate::discovery::devices::is_device_in;
use crate::discovery::devices::is_device_list;
use crate::discovery::devices::is_least_identity;
use crate::discovery::devices::is_lowest;
use crate::discovery::devices::is_path;
use crate::discovery::devices::law_groups_partition;
use crate::discovery::devices::lemma_connected_link;
use crate::discovery::devices::lemma_connected_self;
use crate::discovery::devices::lemma_connected_symmetric;
use crate::discovery::devices::lemma_connected_transitive;
use crate::discovery::devices::lemma_device_before_total;
use crate::discovery::devices::lemma_device_before_transitive;
use crate::discovery::devices::lemma_least_identity_is;
use crate::discovery::devices::lemma_lowest_is;
use crate::discovery::devices::lemma_primary_is;
use crate::discovery::devices::linked;
use crate::discovery::devices::lowest;
use crate::discovery::devices::merged;
use crate::discovery::devices::preferred;
use crate::discovery::devices::primary;
use crate::discovery::devices::rank_of;
use crate::discovery::devices::speaks;
use crate::discovery::devices::spoken;
use crate::discovery::forest::find_root;
use crate::discovery::forest::is_forest;
use crate::discovery::forest::joined_heights;
use crate::discovery::forest::joined_roots;
use crate::discovery::forest::lemma_join;
use crate::discovery::list_laws::is_merge;
use crate::discovery::list_laws::law_merged;
use crate::pipeline::address::law_order_is_strict;
use crate::pipeline::address::IpAddr;
use crate::pipeline::time::Duration;
use crate::pipeline::types::copy_optional;
use crate::pipeline::types::device_list;
use crate::pipeline::types::optional_text;
use crate::pipeline::types::Device;
use crate::pipeline::types::DeviceText;
use crate::pipeline::types::Protocol;
use crate::text::lemma_text_total;
use crate::text::lemma_text_transitive;
use crate::text::same_text;
use crate::text::text_less;
use crate::text::text_precedes;

verus! {

/// A single sighting of a device from one discovery backend.
#[derive(Debug, Clone, PartialEq, Eq)]
pub struct Observation {
    /// Network address the device was seen at.
    pub address: IpAddr,
    /// Control/description port (0 if unknown from this sighting).
    pub port: u16,
    /// Friendly name, if the backend provided one.
    pub name: Option<String>,
    /// Stable identifier from the backend (mDNS instance / SSDP USN), if any. Used to
    /// recognise the same physical device across addresses and protocols.
    pub stable_id: Option<String>,
    /// The transport this sighting implies.
    pub protocol: Protocol,
    /// Absolute AVTransport control URL, if this sighting resolved one (DLNA).
    pub dlna_control_url: Option<String>,
    /// DLNA device-description URL (SSDP `LOCATION`), if known.
    pub dlna_location: Option<String>,
}

/// What a sighting says.
#[verifier::ext_equal]
pub struct ObservationText {
    pub address: IpAddr,
    pub port: u16,
    pub name: Option<Seq<char>>,
    pub stable_id: Option<Seq<char>>,
    pub protocol: Protocol,
    pub dlna_control_url: Option<Seq<char>>,
    pub dlna_location: Option<Seq<char>>,
}

impl View for Observation {
    type V = ObservationText;

    open spec fn view(&self) -> ObservationText {
        ObservationText {
            address: self.address,
            port: self.port,
            name: optional_text(self.name),
            stable_id: optional_text(self.stable_id),
            protocol: self.protocol,
            dlna_control_url: optional_text(self.dlna_control_url),
            dlna_location: optional_text(self.dlna_location),
        }
    }
}

#[derive(Debug)]
struct Entry {
    name: Option<String>,
    /// All stable identities seen at this address (mDNS names + SSDP USNs).
    identities: Vec<String>,
    port: u16,
    protocols: Vec<Protocol>,
    dlna_control_url: Option<String>,
    dlna_location: Option<String>,
    last_seen: Duration,
}

/// What is known of one address.
#[verifier::ext_equal]
pub struct EntryText {
    pub name: Option<Seq<char>>,
    pub identities: Set<Seq<char>>,
    pub port: u16,
    pub protocols: Set<Protocol>,
    pub dlna_control_url: Option<Seq<char>>,
    pub dlna_location: Option<Seq<char>>,
    /// In nanoseconds.
    pub last_seen: nat,
}

/// The texts in a list of strings.
pub open spec fn text_set(v: Seq<String>) -> Set<Seq<char>> {
    v.map_values(|s: String| s@).to_set()
}

impl Entry {
    spec fn text(&self) -> EntryText {
        EntryText {
            name: optional_text(self.name),
            identities: text_set(self.identities@),
            port: self.port,
            protocols: self.protocols@.to_set(),
            dlna_control_url: optional_text(self.dlna_control_url),
            dlna_location: optional_text(self.dlna_location),
            last_seen: self.last_seen.nanoseconds(),
        }
    }
}

/// There is a text and it is not empty.
pub open spec fn is_given(s: Option<Seq<char>>) -> bool {
    s matches Some(t) && t.len() > 0
}

/// What is known of an address before its first sighting.
pub open spec fn unseen() -> EntryText {
    EntryText {
        name: None,
        identities: Set::empty(),
        port: 0,
        protocols: Set::empty(),
        dlna_control_url: None,
        dlna_location: None,
        last_seen: 0,
    }
}

/// What is known of an address after a sighting at `now`. The first port that is not 0,
/// the first name and the first URLs that are not empty are kept; identities and protocols
/// are collected.
pub open spec fn after_sighting(e: EntryText, obs: ObservationText, now: nat) -> EntryText {
    EntryText {
        name: if is_given(obs.name) && !is_given(e.name) {
            obs.name
        } else {
            e.name
        },
        identities: if is_given(obs.stable_id) {
            e.identities.insert(obs.stable_id->0)
        } else {
            e.identities
        },
        port: if e.port == 0 {
            obs.port
        } else {
            e.port
        },
        protocols: e.protocols.insert(obs.protocol),
        dlna_control_url: if is_given(obs.dlna_control_url) && e.dlna_control_url is None {
            obs.dlna_control_url
        } else {
            e.dlna_control_url
        },
        dlna_location: if is_given(obs.dlna_location) && e.dlna_location is None {
            obs.dlna_location
        } else {
            e.dlna_location
        },
        last_seen: now,
    }
}

/// The entries after a sighting at `now`.
pub open spec fn observed(
    entries: Map<IpAddr, EntryText>,
    obs: ObservationText,
    now: nat,
) -> Map<IpAddr, EntryText> {
    let e = if entries.contains_key(obs.address) {
        entries[obs.address]
    } else {
        unseen()
    };
    entries.insert(obs.address, after_sighting(e, obs, now))
}

/// What is known of an address that was sighted: at least one protocol, and finitely many
/// identities.
pub open spec fn is_sighted(e: EntryText) -> bool {
    &&& e.identities.finite()
    &&& exists|p: Protocol| e.protocols.contains(p)
}

/// Finitely many addresses, each of which was sighted. This holds of every registry.
pub open spec fn are_sighted(entries: Map<IpAddr, EntryText>) -> bool {
    &&& entries.dom().finite()
    &&& forall|a: IpAddr| #[trigger] entries.contains_key(a) ==> is_sighted(entries[a])
}

fn given(s: &Option<String>) -> (r: bool)
    ensures
        r == is_given(optional_text(*s)),
{
    match s {
        Some(t) => !t.as_str().is_empty(),
        None => false,
    }
}

impl Entry {
    /// The entry after a sighting at `now`.
    fn seen(self, obs: Observation, now: Duration) -> (r: Entry)
        ensures
            r.text() == after_sighting(self.text(), obs@, now.nanoseconds()),
    {
        let mut e = self;
        e.last_seen = now;
        if e.port == 0 {
            e.port = obs.port;
        }
        // Keep the first non-empty name; never clobber a good name with an empty one.
        if given(&obs.name) && !given(&e.name) {
            e.name = obs.name;
        }
        if e.dlna_control_url.is_none() && given(&obs.dlna_control_url) {
            e.dlna_control_url = obs.dlna_control_url;
        }
        if e.dlna_location.is_none() && given(&obs.dlna_location) {
            e.dlna_location = obs.dlna_location;
        }
        if let Some(id) = obs.stable_id {
            if !id.as_str().is_empty() {
                insert_text(&mut e.identities, id);
            }
        }
        insert_protocol(&mut e.protocols, obs.protocol);
        e
    }
}

fn insert_text(v: &mut Vec<String>, s: String)
    ensures
        text_set(final(v)@) == text_set(old(v)@).insert(s@),
{
    let ghost texts = v@.map_values(|s: String| s@);
    let mut i: usize = 0;
    while i < v.len()
        invariant
            i <= v@.len(),
            v@ == old(v)@,
            texts == v@.map_values(|s: String| s@),
        decreases v@.len() - i,
    {
        if same_text(v[i].as_str(), s.as_str()) {
            assert(texts[i as int] == s@);
            assert(text_set(v@) =~= text_set(old(v)@).insert(s@));
            return ;
        }
        i += 1;
    }
    let ghost added = s@;
    v.push(s);
    proof {
        let after = v@.map_values(|s: String| s@);
        assert(after =~= texts.push(added));
        assert forall|t: Seq<char>| after.to_set().contains(t) == texts.to_set().insert(
            added,
        ).contains(t) by {
            if texts.contains(t) {
                let k = choose|k: int| 0 <= k < texts.len() && texts[k] == t;
                assert(after[k] == t);
            }
            assert(after[texts.len() as int] == added);
            if after.contains(t) {
                let k = choose|k: int| 0 <= k < after.len() && after[k] == t;
                if k < texts.len() {
                    assert(texts[k] == t);
                }
            }
        }
        assert(text_set(v@) =~= text_set(old(v)@).insert(added));
    }
}

fn has_protocol(v: &Vec<Protocol>, p: Protocol) -> (r: bool)
    ensures
        r == v@.to_set().contains(p),
{
    let mut i: usize = 0;
    while i < v.len()
        invariant
            i <= v@.len(),
            forall|k: int| 0 <= k < i ==> v@[k] != p,
        decreases v@.len() - i,
    {
        if v[i] == p {
            assert(v@.contains(p));
            return true;
        }
        i += 1;
    }
    false
}

fn insert_protocol(v: &mut Vec<Protocol>, p: Protocol)
    ensures
        final(v)@.to_set() == old(v)@.to_set().insert(p),
{
    if has_protocol(v, p) {
        assert(v@.to_set() =~= old(v)@.to_set().insert(p));
    } else {
        v.push(p);
        proof {
            let (a, b) = (old(v)@, v@);
            assert forall|q: Protocol| b.to_set().contains(q) == a.to_set().insert(p).contains(
                q,
            ) by {
                assert(b[a.len() as int] == p);
                if a.contains(q) {
                    let k = choose|k: int| 0 <= k < a.len() && a[k] == q;
                    assert(b[k] == q);
                }
                if b.contains(q) {
                    let k = choose|k: int| 0 <= k < b.len() && b[k] == q;
                    if k < a.len() {
                        assert(a[k] == q);
                    }
                }
            }
            assert(b.to_set() =~= a.to_set().insert(p));
        }
    }
}

/// Merges observations keyed by IP address and expires stale entries.
#[derive(Debug)]
pub struct DeviceRegistry {
    ttl: Duration,
    /// In the order of the addresses.
    entries: Vec<(IpAddr, Entry)>,
}

/// What a registry holds.
#[verifier::ext_equal]
pub struct RegistryText {
    /// How long an entry stays without a fresh sighting, in nanoseconds.
    pub ttl: nat,
    pub entries: Map<IpAddr, EntryText>,
}

/// Each address stands once, and they are in order.
spec fn ordered(v: Seq<(IpAddr, Entry)>) -> bool {
    forall|i: int, j: int|
        0 <= i < j < v.len() ==> (#[trigger] v[i]).0.order() < (#[trigger] v[j]).0.order()
}

/// Every entry was sighted.
spec fn all_sighted(v: Seq<(IpAddr, Entry)>) -> bool {
    forall|i: int| 0 <= i < v.len() ==> is_sighted((#[trigger] v[i]).1.text())
}

spec fn is_at(v: Seq<(IpAddr, Entry)>, a: IpAddr, i: int) -> bool {
    0 <= i < v.len() && v[i].0 == a
}

spec fn has_address(v: Seq<(IpAddr, Entry)>, a: IpAddr) -> bool {
    exists|i: int| is_at(v, a, i)
}

spec fn entry_map(v: Seq<(IpAddr, Entry)>) -> Map<IpAddr, EntryText> {
    Map::new(
        |a: IpAddr| has_address(v, a),
        |a: IpAddr| v[choose|i: int| is_at(v, a, i)].1.text(),
    )
}

proof fn lemma_entry_at(v: Seq<(IpAddr, Entry)>, i: int)
    requires
        ordered(v),
        0 <= i < v.len(),
    ensures
        entry_map(v).contains_key(v[i].0),
        entry_map(v)[v[i].0] == v[i].1.text(),
{
    let a = v[i].0;
    assert(is_at(v, a, i));
    let k = choose|k: int| is_at(v, a, k);
    assert(is_at(v, a, k));
    assert(k == i) by {
        if k < i {
            assert(v[k].0.order() < v[i].0.order());
        }
        if i < k {
            assert(v[i].0.order() < v[k].0.order());
        }
    }
}

/// A map that agrees with the entries is theirs.
proof fn lemma_entry_map_is(v: Seq<(IpAddr, Entry)>, m: Map<IpAddr, EntryText>)
    requires
        ordered(v),
        forall|i: int|
            0 <= i < v.len() ==> m.contains_key((#[trigger] v[i]).0) && m[v[i].0] == v[i].1.text(),
        forall|a: IpAddr| m.contains_key(a) ==> has_address(v, a),
    ensures
        entry_map(v) == m,
{
    assert forall|a: IpAddr| m.contains_key(a) implies entry_map(v).contains_key(a) && entry_map(
        v,
    )[a] == m[a] by {
        assert(has_address(v, a));
        let i = choose|i: int| is_at(v, a, i);
        assert(is_at(v, a, i));
        lemma_entry_at(v, i);
    }
    assert forall|a: IpAddr| entry_map(v).contains_key(a) implies m.contains_key(a) by {
        assert(has_address(v, a));
        let i = choose|i: int| is_at(v, a, i);
        assert(is_at(v, a, i));
        assert(v[i].0 == a);
    }
    assert(entry_map(v) =~= m);
}

proof fn lemma_updated(v: Seq<(IpAddr, Entry)>, at: int, e: Entry)
    requires
        ordered(v),
        0 <= at < v.len(),
    ensures
        ordered(v.update(at, (v[at].0, e))),
        entry_map(v.update(at, (v[at].0, e))) == entry_map(v).insert(v[at].0, e.text()),
{
    let w = v.update(at, (v[at].0, e));
    let m = entry_map(v).insert(v[at].0, e.text());
    assert forall|i: int, j: int| 0 <= i < j < w.len() implies (#[trigger] w[i]).0.order() < (
    #[trigger] w[j]).0.order() by {
        assert(v[i].0.order() < v[j].0.order());
    }
    assert forall|i: int| 0 <= i < w.len() implies m.contains_key((#[trigger] w[i]).0)
        && m[w[i].0] == w[i].1.text() by {
        lemma_entry_at(v, i);
        if i < at {
            assert(v[i].0.order() < v[at].0.order());
        }
        if at < i {
            assert(v[at].0.order() < v[i].0.order());
        }
    }
    assert forall|a: IpAddr| m.contains_key(a) implies has_address(w, a) by {
        if a == v[at].0 {
            assert(is_at(w, a, at));
        } else {
            assert(has_address(v, a));
            let i = choose|i: int| is_at(v, a, i);
            assert(is_at(w, a, i));
        }
    }
    lemma_entry_map_is(w, m);
}

proof fn lemma_inserted(v: Seq<(IpAddr, Entry)>, at: int, a: IpAddr, e: Entry)
    requires
        ordered(v),
        0 <= at <= v.len(),
        forall|i: int| 0 <= i < at ==> (#[trigger] v[i]).0.order() < a.order(),
        at < v.len() ==> a.order() < v[at].0.order(),
    ensures
        !entry_map(v).contains_key(a),
        ordered(v.insert(at, (a, e))),
        entry_map(v.insert(at, (a, e))) == entry_map(v).insert(a, e.text()),
{
    let w = v.insert(at, (a, e));
    let m = entry_map(v).insert(a, e.text());
    assert forall|i: int| at <= i < v.len() implies a.order() < (#[trigger] v[i]).0.order() by {
        if at < i {
            assert(v[at].0.order() < v[i].0.order());
        }
    }
    if entry_map(v).contains_key(a) {
        assert(has_address(v, a));
        let i = choose|i: int| is_at(v, a, i);
        assert(is_at(v, a, i));
        assert(v[i].0 == a);
    }
    assert forall|i: int, j: int| 0 <= i < j < w.len() implies (#[trigger] w[i]).0.order() < (
    #[trigger] w[j]).0.order() by {
        let (p, q) = (if i < at { i } else { i - 1 }, if j < at { j } else { j - 1 });
        if i != at && j != at {
            assert(v[p].0.order() < v[q].0.order());
        } else if i == at {
            assert(a.order() < v[q].0.order());
        } else {
            assert(v[p].0.order() < a.order());
        }
    }
    assert forall|i: int| 0 <= i < w.len() implies m.contains_key((#[trigger] w[i]).0)
        && m[w[i].0] == w[i].1.text() by {
        if i < at {
            lemma_entry_at(v, i);
        } else if i > at {
            lemma_entry_at(v, i - 1);
        }
    }
    assert forall|b: IpAddr| m.contains_key(b) implies has_address(w, b) by {
        if b == a {
            assert(is_at(w, a, at));
        } else {
            assert(has_address(v, b));
            let i = choose|i: int| is_at(v, b, i);
            assert(is_at(v, b, i));
            assert(is_at(w, b, if i < at { i } else { i + 1 }));
        }
    }
    lemma_entry_map_is(w, m);
}

/// An address that is sighted has a protocol.
proof fn lemma_sighted(e: EntryText, obs: ObservationText, now: nat)
    requires
        e.identities.finite(),
    ensures
        is_sighted(after_sighting(e, obs, now)),
{
    assert(after_sighting(e, obs, now).protocols.contains(obs.protocol));
}

proof fn lemma_all_sighted(v: Seq<(IpAddr, Entry)>)
    requires
        ordered(v),
        all_sighted(v),
    ensures
        are_sighted(entry_map(v)),
{
    lemma_entry_count(v);
    assert forall|a: IpAddr| #[trigger] entry_map(v).contains_key(a) implies is_sighted(
        entry_map(v)[a],
    ) by {
        assert(has_address(v, a));
        let i = choose|i: int| is_at(v, a, i);
        assert(is_at(v, a, i));
        lemma_entry_at(v, i);
    }
}

impl View for DeviceRegistry {
    type V = RegistryText;

    closed spec fn view(&self) -> RegistryText {
        RegistryText { ttl: self.ttl.nanoseconds(), entries: entry_map(self.entries@) }
    }
}

impl DeviceRegistry {
    #[verifier::type_invariant]
    spec fn wf(&self) -> bool {
        ordered(self.entries@) && all_sighted(self.entries@)
    }

    /// Create a registry whose entries expire after `ttl` without a fresh sighting.
    #[must_use]
    pub fn new(ttl: Duration) -> (r: Self)
        ensures
            r@ == (RegistryText { ttl: ttl.nanoseconds(), entries: Map::empty() }),
    {
        let r = DeviceRegistry { ttl, entries: Vec::new() };
        assert(r@.entries =~= Map::<IpAddr, EntryText>::empty());
        r
    }

    /// Record an observation, merging it into any existing entry for the same address.
    /// `now` is monotonic elapsed time supplied by the caller.
    pub fn observe(&mut self, obs: Observation, now: Duration)
        ensures
            final(self)@.ttl == old(self)@.ttl,
            final(self)@.entries == observed(old(self)@.entries, obs@, now.nanoseconds()),
    {
        proof {
            use_type_invariant(&*self);
        }
        let ghost before = self.entries@;
        let ghost seen = obs@;
        let address: IpAddr = obs.address;
        let mut at: usize = 0;
        while at < self.entries.len() && self.entries[at].0.precedes(&address)
            invariant
                at <= self.entries@.len(),
                self.entries@ == before,
                ordered(before),
                self.ttl == old(self).ttl,
                forall|i: int| 0 <= i < at ==> (#[trigger] before[i]).0.order() < address.order(),
            decreases self.entries@.len() - at,
        {
            at += 1;
        }
        let mut entries: Vec<(IpAddr, Entry)> = Vec::new();
        core::mem::swap(&mut entries, &mut self.entries);
        let ghost known = entry_map(before);
        if at < entries.len() && entries[at].0 == address {
            let (_, entry) = entries.remove(at);
            let updated: Entry = entry.seen(obs, now);
            entries.insert(at, (address, updated));
            proof {
                lemma_entry_at(before, at as int);
                assert(entries@ =~= before.update(at as int, (address, updated)));
                lemma_updated(before, at as int, updated);
                assert(is_sighted(before[at as int].1.text()));
                lemma_sighted(before[at as int].1.text(), seen, now.nanoseconds());
            }
        } else {
            let fresh = Entry {
                name: None,
                identities: Vec::new(),
                port: 0,
                protocols: Vec::new(),
                dlna_control_url: None,
                dlna_location: None,
                last_seen: Duration::from_secs(0),
            };
            assert(fresh.text().identities =~= Set::<Seq<char>>::empty());
            assert(fresh.text().protocols =~= Set::<Protocol>::empty());
            assert(fresh.text() == unseen());
            let added: Entry = fresh.seen(obs, now);
            entries.insert(at, (address, added));
            proof {
                assert(entries@ =~= before.insert(at as int, (address, added)));
                lemma_inserted(before, at as int, address, added);
                lemma_sighted(unseen(), seen, now.nanoseconds());
                assert forall|i: int| 0 <= i < entries@.len() implies is_sighted(
                    (#[trigger] entries@[i]).1.text(),
                ) by {
                    if i < at {
                        assert(entries@[i] == before[i]);
                    } else if i > at {
                        assert(entries@[i] == before[i - 1]);
                    }
                }
            }
        }
        self.entries = entries;
    }
}

// --- Expiry --------------------------------------------------------------------------

/// The entry was seen within the last `ttl` nanoseconds.
pub open spec fn is_fresh(e: EntryText, ttl: nat, now: nat) -> bool {
    now <= e.last_seen + ttl
}

/// The entries that were seen within the last `ttl` nanoseconds.
pub open spec fn fresh_entries(
    entries: Map<IpAddr, EntryText>,
    ttl: nat,
    now: nat,
) -> Map<IpAddr, EntryText> {
    Map::new(
        |a: IpAddr| entries.contains_key(a) && is_fresh(entries[a], ttl, now),
        |a: IpAddr| entries[a],
    )
}

spec fn fresh_part(v: Seq<(IpAddr, Entry)>, ttl: nat, now: nat) -> Seq<(IpAddr, Entry)>
    decreases v.len(),
{
    if v.len() == 0 {
        v
    } else if is_fresh(v.last().1.text(), ttl, now) {
        fresh_part(v.drop_last(), ttl, now).push(v.last())
    } else {
        fresh_part(v.drop_last(), ttl, now)
    }
}

/// The fresh part holds the fresh entries and no others, in their order.
proof fn lemma_fresh_part(v: Seq<(IpAddr, Entry)>, ttl: nat, now: nat)
    requires
        ordered(v),
    ensures
        ordered(fresh_part(v, ttl, now)),
        fresh_part(v, ttl, now).len() <= v.len(),
        forall|i: int|
            0 <= i < fresh_part(v, ttl, now).len() ==> is_fresh(
                (#[trigger] fresh_part(v, ttl, now)[i]).1.text(),
                ttl,
                now,
            ) && v.contains(fresh_part(v, ttl, now)[i]),
        forall|i: int|
            0 <= i < v.len() && is_fresh((#[trigger] v[i]).1.text(), ttl, now) ==> fresh_part(
                v,
                ttl,
                now,
            ).contains(v[i]),
    decreases v.len(),
{
    if v.len() > 0 {
        let rest = v.drop_last();
        let part = fresh_part(rest, ttl, now);
        let whole = fresh_part(v, ttl, now);
        assert(ordered(rest)) by {
            assert forall|i: int, j: int| 0 <= i < j < rest.len() implies (
            #[trigger] rest[i]).0.order() < (#[trigger] rest[j]).0.order() by {
                assert(v[i].0.order() < v[j].0.order());
            }
        }
        lemma_fresh_part(rest, ttl, now);
        assert forall|i: int| 0 <= i < whole.len() implies is_fresh(
            (#[trigger] whole[i]).1.text(),
            ttl,
            now,
        ) && v.contains(whole[i]) by {
            if i < part.len() {
                assert(whole[i] == part[i]);
                let k = choose|k: int| 0 <= k < rest.len() && rest[k] == part[i];
                assert(v[k] == part[i]);
            } else {
                assert(whole[i] == v[v.len() - 1]);
            }
        }
        assert forall|i: int| 0 <= i < v.len() && is_fresh(
            (#[trigger] v[i]).1.text(),
            ttl,
            now,
        ) implies whole.contains(v[i]) by {
            if i < rest.len() {
                assert(rest[i] == v[i]);
                let k = choose|k: int| 0 <= k < part.len() && part[k] == v[i];
                assert(whole[k] == v[i]);
            } else {
                assert(whole[whole.len() - 1] == v[i]);
            }
        }
        assert forall|i: int, j: int| 0 <= i < j < whole.len() implies (
        #[trigger] whole[i]).0.order() < (#[trigger] whole[j]).0.order() by {
            assert(whole[i] == part[i]);
            if j < part.len() {
                assert(part[i].0.order() < part[j].0.order());
            } else {
                let k = choose|k: int| 0 <= k < rest.len() && rest[k] == part[i];
                assert(v[k].0.order() < v[v.len() - 1].0.order());
            }
        }
    }
}

proof fn lemma_fresh_map(v: Seq<(IpAddr, Entry)>, ttl: nat, now: nat)
    requires
        ordered(v),
    ensures
        ordered(fresh_part(v, ttl, now)),
        entry_map(fresh_part(v, ttl, now)) == fresh_entries(entry_map(v), ttl, now),
{
    let part = fresh_part(v, ttl, now);
    let m = fresh_entries(entry_map(v), ttl, now);
    lemma_fresh_part(v, ttl, now);
    assert forall|i: int| 0 <= i < part.len() implies m.contains_key((#[trigger] part[i]).0)
        && m[part[i].0] == part[i].1.text() by {
        let k = choose|k: int| 0 <= k < v.len() && v[k] == part[i];
        assert(v.contains(part[i]));
        lemma_entry_at(v, k);
    }
    assert forall|a: IpAddr| m.contains_key(a) implies has_address(part, a) by {
        assert(has_address(v, a));
        let i = choose|i: int| is_at(v, a, i);
        assert(is_at(v, a, i));
        lemma_entry_at(v, i);
        let k = choose|k: int| 0 <= k < part.len() && part[k] == v[i];
        assert(part.contains(v[i]));
        assert(is_at(part, a, k));
    }
    lemma_entry_map_is(part, m);
}

proof fn lemma_entry_count(v: Seq<(IpAddr, Entry)>)
    requires
        ordered(v),
    ensures
        entry_map(v).dom().finite(),
        entry_map(v).dom().len() == v.len(),
{
    let keys = v.map_values(|x: (IpAddr, Entry)| x.0);
    assert forall|i: int, j: int| 0 <= i < keys.len() && 0 <= j < keys.len() && i != j implies keys[i]
        != keys[j] by {
        if i < j {
            assert(v[i].0.order() < v[j].0.order());
        } else {
            assert(v[j].0.order() < v[i].0.order());
        }
    }
    keys.unique_seq_to_set();
    assert forall|a: IpAddr| entry_map(v).dom().contains(a) == keys.to_set().contains(a) by {
        if has_address(v, a) {
            let i = choose|i: int| is_at(v, a, i);
            assert(is_at(v, a, i));
            assert(keys[i] == a);
        }
        if keys.contains(a) {
            let i = choose|i: int| 0 <= i < keys.len() && keys[i] == a;
            assert(is_at(v, a, i));
        }
    }
    assert(entry_map(v).dom() =~= keys.to_set());
    vstd::seq_lib::seq_to_set_is_finite(keys);
}

impl DeviceRegistry {
    /// Remove entries not seen within the TTL window relative to `now`.
    pub fn expire(&mut self, now: Duration)
        ensures
            final(self)@.ttl == old(self)@.ttl,
            final(self)@.entries == fresh_entries(
                old(self)@.entries,
                old(self)@.ttl,
                now.nanoseconds(),
            ),
    {
        proof {
            use_type_invariant(&*self);
        }
        let ttl: u128 = self.ttl.as_nanos();
        let time: u128 = now.as_nanos();
        let ghost before = self.entries@;
        let mut entries: Vec<(IpAddr, Entry)> = Vec::new();
        core::mem::swap(&mut entries, &mut self.entries);
        let mut i: usize = 0;
        let ghost mut done: int = 0;
        assert(fresh_part(before.take(0), ttl as nat, time as nat) =~= Seq::empty());
        assert(entries@ =~= Seq::<(IpAddr, Entry)>::empty() + before.skip(0));
        while i < entries.len()
            invariant
                0 <= done <= before.len(),
                entries@ == fresh_part(before.take(done), ttl as nat, time as nat) + before.skip(
                    done,
                ),
                i == fresh_part(before.take(done), ttl as nat, time as nat).len(),
                ttl < 0x4000_0000_0000_0000_0000_0000,
                self.entries@ =~= Seq::empty(),
                self.ttl == old(self).ttl,
            decreases before.len() - done,
        {
            assert(before.take(done + 1).drop_last() =~= before.take(done));
            assert(before.take(done + 1).last() == entries@[i as int]);
            let seen: u128 = entries[i].1.last_seen.as_nanos();
            if time <= seen + ttl {
                i += 1;
            } else {
                let _ = entries.remove(i);
            }
            proof {
                done = done + 1;
                assert(entries@ =~= fresh_part(before.take(done), ttl as nat, time as nat)
                    + before.skip(done));
            }
        }
        proof {
            assert(before.take(done) =~= before) by {
                assert(before.skip(done).len() == 0);
            }
            assert(entries@ =~= fresh_part(before, ttl as nat, time as nat));
            lemma_fresh_map(before, ttl as nat, time as nat);
            lemma_fresh_part(before, ttl as nat, time as nat);
            assert forall|i: int| 0 <= i < entries@.len() implies is_sighted(
                (#[trigger] entries@[i]).1.text(),
            ) by {
                assert(before.contains(entries@[i]));
                let k = choose|k: int| 0 <= k < before.len() && before[k] == entries@[i];
                assert(is_sighted(before[k].1.text()));
            }
        }
        self.entries = entries;
    }

    /// Number of distinct network endpoints (addresses) currently tracked. Note this
    /// counts addresses, not coalesced devices (use [`devices`](Self::devices) for that).
    #[must_use]
    pub fn len(&self) -> (n: usize)
        ensures
            n == self@.entries.dom().len(),
            self@.entries.dom().finite(),
    {
        proof {
            use_type_invariant(self);
            lemma_entry_count(self.entries@);
        }
        self.entries.len()
    }

    /// Whether the registry has no entries.
    #[must_use]
    pub fn is_empty(&self) -> (r: bool)
        ensures
            r == (self@.entries =~= Map::empty()),
    {
        proof {
            use_type_invariant(self);
            if self.entries@.len() > 0 {
                lemma_entry_at(self.entries@, 0);
            } else {
                assert(self@.entries =~= Map::empty());
            }
        }
        self.entries.len() == 0
    }
}

// --- Preferences ---------------------------------------------------------------------

/// Lower rank = more preferred as the default transport (low-latency mirror first).
#[must_use]
pub fn preference_rank(p: Protocol) -> (r: u8)
    ensures
        r == rank_of(p),
{
    match p {
        Protocol::AirPlayMirror => 0,
        Protocol::AirPlayVideo => 1,
        Protocol::Cast => 2,
        Protocol::Miracast => 3,
        Protocol::Dlna => 4,
    }
}

/// Lower rank = preferred as a device's primary address. Routable IPv4 beats global
/// IPv6, which beats IPv6 link-local; loopback is last.
fn address_rank(ip: IpAddr) -> (r: u8)
    ensures
        r == address_class(ip),
{
    match ip {
        IpAddr::V4(v4) => if v4.bits / 0x100_0000 == 127 {
            3
        } else {
            0
        },
        IpAddr::V6(v6) => {
            let first: u16 = (v6.bits / 0x1_0000_0000_0000_0000_0000_0000_0000) as u16;
            if v6.bits == 1 {
                3
            } else if first / 64 == 0x3FA {
                2
            } else {
                1
            }
        },
    }
}

fn is_preferred(a: IpAddr, b: IpAddr) -> (r: bool)
    ensures
        r == preferred(a, b),
{
    let (x, y) = (address_rank(a), address_rank(b));
    x < y || (x == y && a.precedes(&b))
}

// --- Grouping ------------------------------------------------------------------------

spec fn has_id(v: Seq<(IpAddr, Entry)>, x: int, id: Seq<char>) -> bool {
    v[x].1.text().identities.contains(id)
}

fn entry_has_identity(entry: &Entry, id: &str) -> (r: bool)
    ensures
        r == entry.text().identities.contains(id@),
{
    let ghost texts = entry.identities@.map_values(|s: String| s@);
    let mut i: usize = 0;
    while i < entry.identities.len()
        invariant
            i <= entry.identities@.len(),
            texts == entry.identities@.map_values(|s: String| s@),
            forall|k: int| 0 <= k < i ==> texts[k] != id@,
        decreases entry.identities@.len() - i,
    {
        if same_text(entry.identities[i].as_str(), id) {
            assert(texts[i as int] == id@);
            assert(texts.contains(id@));
            return true;
        }
        assert(texts[i as int] != id@);
        i += 1;
    }
    false
}

/// The addresses at the given places.
spec fn addresses_at(v: Seq<(IpAddr, Entry)>, places: Seq<usize>) -> Set<IpAddr> {
    Set::new(|a: IpAddr| exists|k: int| 0 <= k < places.len() && v[#[trigger] places[k] as int].0 == a)
}

/// The places are in range and in order.
spec fn are_places(v: Seq<(IpAddr, Entry)>, places: Seq<usize>) -> bool {
    &&& forall|k: int| 0 <= k < places.len() ==> (#[trigger] places[k]) < v.len()
    &&& forall|k: int, l: int|
        0 <= k < l < places.len() ==> (#[trigger] places[k]) < (#[trigger] places[l])
}

proof fn lemma_lowest_place(
    v: Seq<(IpAddr, Entry)>,
    places: Seq<usize>,
    f: spec_fn(IpAddr) -> bool,
    k: int,
)
    requires
        ordered(v),
        are_places(v, places),
        0 <= k < places.len(),
        f(v[places[k] as int].0),
        forall|l: int| 0 <= l < k ==> !f(v[#[trigger] places[l] as int].0),
    ensures
        lowest(addresses_at(v, places), f) == Some(v[places[k] as int].0),
{
    let set = addresses_at(v, places);
    let a = v[places[k] as int].0;
    assert(set.contains(a));
    assert forall|b: IpAddr| #[trigger] set.contains(b) && f(b) implies a.order() <= b.order() by {
        let l = choose|l: int| 0 <= l < places.len() && v[#[trigger] places[l] as int].0 == b;
        if k < l {
            assert(places[k] < places[l]);
            assert(v[places[k] as int].0.order() < v[places[l] as int].0.order());
        }
    }
    lemma_lowest_is(set, f, a);
}

proof fn lemma_no_lowest(v: Seq<(IpAddr, Entry)>, places: Seq<usize>, f: spec_fn(IpAddr) -> bool)
    requires
        forall|l: int| 0 <= l < places.len() ==> !f(v[#[trigger] places[l] as int].0),
    ensures
        lowest(addresses_at(v, places), f) is None,
{
    let set = addresses_at(v, places);
    if exists|a: IpAddr| is_lowest(set, f, a) {
        let a = choose|a: IpAddr| is_lowest(set, f, a);
        let l = choose|l: int| 0 <= l < places.len() && v[#[trigger] places[l] as int].0 == a;
        assert(set.contains(a));
    }
}

fn has_member(group: &[IpAddr], a: IpAddr) -> (r: bool)
    ensures
        r == group@.contains(a),
{
    let mut i: usize = 0;
    while i < group.len()
        invariant
            i <= group@.len(),
            forall|k: int| 0 <= k < i ==> group@[k] != a,
        decreases group@.len() - i,
    {
        if group[i] == a {
            return true;
        }
        i += 1;
    }
    false
}

impl DeviceRegistry {
    /// Merge a group of addresses (one physical device) into a single [`Device`]. The order
    /// of the group makes no difference.
    pub fn merge_group(&self, group: &[IpAddr]) -> (d: Device)
        requires
            group@.len() > 0,
            forall|k: int|
                0 <= k < group@.len() ==> self@.entries.contains_key(#[trigger] group@[k]),
        ensures
            are_sighted(self@.entries),
            is_merge(self@.entries, group@.to_set(), d@),
            d@ == merged(self@.entries, group@.to_set()),
    {
        proof {
            use_type_invariant(self);
            lemma_all_sighted(self.entries@);
        }
        let places: Vec<usize> = self.places_of(group);
        let d: Device = self.merge_places(&places);
        proof {
            let addresses = group@.to_set();
            assert(addresses.contains(group@[0]));
            assert(addresses.subset_of(self@.entries.dom())) by {
                assert forall|a: IpAddr| addresses.contains(a) implies self@.entries.dom().contains(
                    a,
                ) by {
                    let k = choose|k: int| 0 <= k < group@.len() && group@[k] == a;
                    assert(self@.entries.contains_key(group@[k]));
                }
            }
            law_merged(self@.entries, addresses);
        }
        d
    }

    /// The places of the entries of a group.
    fn places_of(&self, group: &[IpAddr]) -> (places: Vec<usize>)
        requires
            ordered(self.entries@),
            group@.len() > 0,
            forall|k: int|
                0 <= k < group@.len() ==> self@.entries.contains_key(#[trigger] group@[k]),
        ensures
            places@.len() > 0,
            are_places(self.entries@, places@),
            addresses_at(self.entries@, places@) == group@.to_set(),
    {
        let ghost v = self.entries@;
        let mut places: Vec<usize> = Vec::new();
        let mut m: usize = 0;
        while m < self.entries.len()
            invariant
                m <= v.len(),
                v == self.entries@,
                are_places(v, places@),
                forall|l: int|
                    0 <= l < places@.len() ==> (#[trigger] places@[l]) < m && group@.contains(
                        v[places@[l] as int].0,
                    ),
                forall|x: int|
                    0 <= x < m && group@.contains((#[trigger] v[x]).0) ==> places@.contains(
                        x as usize,
                    ),
            decreases v.len() - m,
        {
            let ghost prev = places@;
            if has_member(group, self.entries[m].0) {
                places.push(m);
                assert forall|x: int|
                    0 <= x < m + 1 && group@.contains((#[trigger] v[x]).0) implies places@.contains(
                    x as usize,
                ) by {
                    if x < m {
                        let l = choose|l: int| 0 <= l < prev.len() && prev[l] == x as usize;
                        assert(places@[l] == x as usize);
                    } else {
                        assert(places@[prev.len() as int] == x as usize);
                    }
                }
            }
            m += 1;
        }
        proof {
            let set = addresses_at(v, places@);
            let n: usize = self.entries.len();
            assert forall|a: IpAddr| set.contains(a) == group@.to_set().contains(a) by {
                if group@.contains(a) {
                    let k = choose|k: int| 0 <= k < group@.len() && group@[k] == a;
                    assert(self@.entries.contains_key(group@[k]));
                    assert(has_address(v, a));
                    let x = choose|x: int| is_at(v, a, x);
                    assert(is_at(v, a, x));
                    assert(places@.contains(x as usize));
                    let l = choose|l: int| 0 <= l < places@.len() && places@[l] == x as usize;
                    assert(v[places@[l] as int].0 == a);
                }
            }
            assert(set =~= group@.to_set());
            assert(group@.to_set().contains(group@[0]));
            assert(set.contains(group@[0]));
        }
        places
    }

    /// Merge the entries at the given places.
    fn merge_places(&self, places: &Vec<usize>) -> (d: Device)
        requires
            places@.len() > 0,
            are_places(self.entries@, places@),
        ensures
            d@ == merged(self@.entries, addresses_at(self.entries@, places@)),
            addresses_at(self.entries@, places@).contains(d.address),
    {
        proof {
            use_type_invariant(self);
        }
        let first: usize = self.primary_place(places);
        let address: IpAddr = self.entries[first].0;
        proof {
            lemma_entry_at(self.entries@, first as int);
        }
        let d = Device {
            id: self.group_id(places, address),
            name: self.group_name(places, address),
            address,
            port: self.entries[first].1.port,
            protocols: self.group_protocols(places),
            dlna_control_url: self.group_control_url(places),
            dlna_location: self.group_location(places),
        };
        d
    }

    fn primary_place(&self, places: &Vec<usize>) -> (r: usize)
        requires
            ordered(self.entries@),
            places@.len() > 0,
            are_places(self.entries@, places@),
        ensures
            r < self.entries@.len(),
            primary(addresses_at(self.entries@, places@)) == self.entries@[r as int].0,
            addresses_at(self.entries@, places@).contains(self.entries@[r as int].0),
    {
        let ghost v = self.entries@;
        let mut best: usize = places[0];
        let mut i: usize = 1;
        while i < places.len()
            invariant
                1 <= i <= places@.len(),
                v == self.entries@,
                ordered(v),
                are_places(v, places@),
                exists|k: int| 0 <= k < i && places@[k] == best,
                forall|k: int|
                    0 <= k < i ==> v[#[trigger] places@[k] as int].0 == v[best as int].0 || preferred(
                        v[best as int].0,
                        v[places@[k] as int].0,
                    ),
            decreases places@.len() - i,
        {
            let p: usize = places[i];
            if is_preferred(self.entries[p].0, self.entries[best].0) {
                best = p;
            } else {
                proof {
                    law_order_is_strict(v[p as int].0, v[best as int].0);
                }
            }
            i += 1;
        }
        proof {
            let set = addresses_at(v, places@);
            let a = v[best as int].0;
            assert(set.contains(a));
            assert forall|b: IpAddr| #[trigger] set.contains(b) implies b == a || preferred(a, b) by {
                let l = choose|l: int|
                    0 <= l < places@.len() && v[#[trigger] places@[l] as int].0 == b;
            }
            lemma_primary_is(set, a);
        }
        best
    }

    fn group_protocols(&self, places: &Vec<usize>) -> (r: Vec<Protocol>)
        requires
            ordered(self.entries@),
            are_places(self.entries@, places@),
        ensures
            r@ == spoken(self@.entries, addresses_at(self.entries@, places@)),
    {
        let ghost set = addresses_at(self.entries@, places@);
        let ghost e = self@.entries;
        let mut out: Vec<Protocol> = Vec::new();
        if self.group_speaks(places, Protocol::AirPlayMirror) {
            out.push(Protocol::AirPlayMirror);
        }
        if self.group_speaks(places, Protocol::AirPlayVideo) {
            out.push(Protocol::AirPlayVideo);
        }
        if self.group_speaks(places, Protocol::Cast) {
            out.push(Protocol::Cast);
        }
        if self.group_speaks(places, Protocol::Miracast) {
            out.push(Protocol::Miracast);
        }
        if self.group_speaks(places, Protocol::Dlna) {
            out.push(Protocol::Dlna);
        }
        assert(out@ =~= spoken(e, set));
        out
    }

    fn group_speaks(&self, places: &Vec<usize>, p: Protocol) -> (r: bool)
        requires
            ordered(self.entries@),
            are_places(self.entries@, places@),
        ensures
            r == speaks(self@.entries, addresses_at(self.entries@, places@), p),
    {
        let ghost v = self.entries@;
        let ghost e = self@.entries;
        let ghost set = addresses_at(v, places@);
        let mut i: usize = 0;
        while i < places.len()
            invariant
                i <= places@.len(),
                v == self.entries@,
                e == self@.entries,
                set == addresses_at(v, places@),
                ordered(v),
                are_places(v, places@),
                forall|k: int|
                    0 <= k < i ==> !e[v[#[trigger] places@[k] as int].0].protocols.contains(p),
            decreases places@.len() - i,
        {
            let at: usize = places[i];
            proof {
                lemma_entry_at(v, at as int);
            }
            if has_protocol(&self.entries[at].1.protocols, p) {
                assert(set.contains(v[at as int].0));
                return true;
            }
            i += 1;
        }
        proof {
            if speaks(e, set, p) {
                let a = choose|a: IpAddr| #[trigger]
                    set.contains(a) && e[a].protocols.contains(p);
                let l = choose|l: int|
                    0 <= l < places@.len() && v[#[trigger] places@[l] as int].0 == a;
            }
        }
        false
    }

    fn group_name(&self, places: &Vec<usize>, address: IpAddr) -> (r: String)
        requires
            ordered(self.entries@),
            are_places(self.entries@, places@),
            address == primary(addresses_at(self.entries@, places@)),
        ensures
            r@ == merged(self@.entries, addresses_at(self.entries@, places@)).name,
    {
        let ghost v = self.entries@;
        let ghost e = self@.entries;
        let ghost f = |a: IpAddr| is_given(e[a].name);
        let mut i: usize = 0;
        while i < places.len()
            invariant
                i <= places@.len(),
                v == self.entries@,
                e == self@.entries,
                f == (|a: IpAddr| is_given(e[a].name)),
                ordered(v),
                are_places(v, places@),
                forall|k: int| 0 <= k < i ==> !f(v[#[trigger] places@[k] as int].0),
            decreases places@.len() - i,
        {
            let at: usize = places[i];
            proof {
                lemma_entry_at(v, at as int);
            }
            if let Some(name) = &self.entries[at].1.name {
                if !name.as_str().is_empty() {
                    proof {
                        lemma_lowest_place(v, places@, f, i as int);
                    }
                    return name.clone();
                }
            }
            i += 1;
        }
        proof {
            lemma_no_lowest(v, places@, f);
        }
        let mut out: String = String::from_str("Unknown device (");
        address.push_text(&mut out);
        out.append(")");
        out
    }

    fn group_control_url(&self, places: &Vec<usize>) -> (r: Option<String>)
        requires
            ordered(self.entries@),
            are_places(self.entries@, places@),
        ensures
            optional_text(r) == merged(
                self@.entries,
                addresses_at(self.entries@, places@),
            ).dlna_control_url,
    {
        let ghost v = self.entries@;
        let ghost e = self@.entries;
        let ghost f = |a: IpAddr| e[a].dlna_control_url is Some;
        let mut i: usize = 0;
        while i < places.len()
            invariant
                i <= places@.len(),
                v == self.entries@,
                e == self@.entries,
                f == (|a: IpAddr| e[a].dlna_control_url is Some),
                ordered(v),
                are_places(v, places@),
                forall|k: int| 0 <= k < i ==> !f(v[#[trigger] places@[k] as int].0),
            decreases places@.len() - i,
        {
            let at: usize = places[i];
            proof {
                lemma_entry_at(v, at as int);
            }
            if self.entries[at].1.dlna_control_url.is_some() {
                proof {
                    lemma_lowest_place(v, places@, f, i as int);
                }
                return copy_optional(&self.entries[at].1.dlna_control_url);
            }
            i += 1;
        }
        proof {
            lemma_no_lowest(v, places@, f);
        }
        None
    }

    fn group_location(&self, places: &Vec<usize>) -> (r: Option<String>)
        requires
            ordered(self.entries@),
            are_places(self.entries@, places@),
        ensures
            optional_text(r) == merged(
                self@.entries,
                addresses_at(self.entries@, places@),
            ).dlna_location,
    {
        let ghost v = self.entries@;
        let ghost e = self@.entries;
        let ghost f = |a: IpAddr| e[a].dlna_location is Some;
        let mut i: usize = 0;
        while i < places.len()
            invariant
                i <= places@.len(),
                v == self.entries@,
                e == self@.entries,
                f == (|a: IpAddr| e[a].dlna_location is Some),
                ordered(v),
                are_places(v, places@),
                forall|k: int| 0 <= k < i ==> !f(v[#[trigger] places@[k] as int].0),
            decreases places@.len() - i,
        {
            let at: usize = places[i];
            proof {
                lemma_entry_at(v, at as int);
            }
            if self.entries[at].1.dlna_location.is_some() {
                proof {
                    lemma_lowest_place(v, places@, f, i as int);
                }
                return copy_optional(&self.entries[at].1.dlna_location);
            }
            i += 1;
        }
        proof {
            lemma_no_lowest(v, places@, f);
        }
        None
    }

    fn group_id(&self, places: &Vec<usize>, address: IpAddr) -> (r: String)
        requires
            ordered(self.entries@),
            are_places(self.entries@, places@),
            address == primary(addresses_at(self.entries@, places@)),
        ensures
            r@ == merged(self@.entries, addresses_at(self.entries@, places@)).id,
    {
        let ghost v = self.entries@;
        let ghost e = self@.entries;
        let ghost set = addresses_at(v, places@);
        let mut best: Option<String> = None;
        let mut i: usize = 0;
        while i < places.len()
            invariant
                i <= places@.len(),
                v == self.entries@,
                e == self@.entries,
                set == addresses_at(v, places@),
                ordered(v),
                are_places(v, places@),
                best is None ==> forall|k: int, id: Seq<char>|
                    0 <= k < i ==> !#[trigger] has_id(v, places@[k] as int, id),
                best is Some ==> has_identity(e, set, best->0@) && forall|k: int, id: Seq<char>|
                    0 <= k < i && #[trigger] has_id(v, places@[k] as int, id) ==> id == best->0@
                        || text_less(best->0@, id),
            decreases places@.len() - i,
        {
            let at: usize = places[i];
            let entry: &Entry = &self.entries[at].1;
            let ghost texts = entry.identities@.map_values(|s: String| s@);
            proof {
                lemma_entry_at(v, at as int);
                assert(set.contains(v[places@[i as int] as int].0));
            }
            let mut j: usize = 0;
            while j < entry.identities.len()
                invariant
                    i < places@.len(),
                    j <= entry.identities@.len(),
                    v == self.entries@,
                    e == self@.entries,
                    set == addresses_at(v, places@),
                    ordered(v),
                    are_places(v, places@),
                    at == places@[i as int],
                    entry == v[at as int].1,
                    e[v[at as int].0] == entry.text(),
                    set.contains(v[at as int].0),
                    texts == entry.identities@.map_values(|s: String| s@),
                    best is None ==> j == 0 && forall|k: int, id: Seq<char>|
                        0 <= k < i ==> !#[trigger] has_id(v, places@[k] as int, id),
                    best is Some ==> has_identity(e, set, best->0@) && (forall|
                        k: int,
                        id: Seq<char>,
                    |
                        0 <= k < i && #[trigger] has_id(v, places@[k] as int, id) ==> id
                            == best->0@ || text_less(best->0@, id)) && forall|l: int|
                        0 <= l < j ==> (#[trigger] texts[l]) == best->0@ || text_less(
                            best->0@,
                            texts[l],
                        ),
                decreases entry.identities@.len() - j,
            {
                let id: &String = &entry.identities[j];
                assert(texts[j as int] == id@);
                assert(texts.contains(id@));
                assert(entry.text().identities.contains(id@));
                let smaller: bool = match &best {
                    None => true,
                    Some(b) => text_precedes(id.as_str(), b.as_str()),
                };
                if smaller {
                    proof {
                        if let Some(b) = best {
                            assert forall|k: int, other: Seq<char>|
                                0 <= k < i && #[trigger] has_id(v, places@[k] as int, other) implies other
                                == id@ || text_less(id@, other) by {
                                if other != b@ {
                                    lemma_text_transitive(id@, b@, other);
                                }
                            }
                            assert forall|l: int| 0 <= l < j implies (#[trigger] texts[l]) == id@
                                || text_less(id@, texts[l]) by {
                                if texts[l] != b@ {
                                    lemma_text_transitive(id@, b@, texts[l]);
                                }
                            }
                        }
                    }
                    best = Some(id.clone());
                } else {
                    proof {
                        lemma_text_total(id@, best->0@);
                    }
                }
                j += 1;
            }
            proof {
                assert forall|id: Seq<char>| #[trigger]
                    has_id(v, places@[i as int] as int, id) implies best is Some && (id
                    == best->0@ || text_less(best->0@, id)) by {
                    assert(texts.contains(id));
                    let l = choose|l: int| 0 <= l < texts.len() && texts[l] == id;
                }
            }
            i += 1;
        }
        proof {
            assert forall|id: Seq<char>| #[trigger] has_identity(e, set, id) implies exists|k: int|
                0 <= k < places@.len() && has_id(v, #[trigger] places@[k] as int, id) by {
                let a = choose|a: IpAddr| #[trigger]
                    set.contains(a) && e[a].identities.contains(id);
                let l = choose|l: int|
                    0 <= l < places@.len() && v[#[trigger] places@[l] as int].0 == a;
                lemma_entry_at(v, places@[l] as int);
                assert(has_id(v, places@[l] as int, id));
            }
        }
        match best {
            Some(id) => {
                proof {
                    assert(is_least_identity(e, set, id@));
                    lemma_least_identity_is(e, set, id@);
                }
                id
            },
            None => {
                proof {
                    if exists|id: Seq<char>| is_least_identity(e, set, id) {
                        let id = choose|id: Seq<char>| is_least_identity(e, set, id);
                        assert(has_identity(e, set, id));
                    }
                }
                address.to_text()
            },
        }
    }
}

/// Two places share an identity.
spec fn share(v: Seq<(IpAddr, Entry)>, x: int, y: int) -> bool {
    exists|id: Seq<char>| has_id(v, x, id) && #[trigger] has_id(v, y, id)
}

proof fn lemma_share_links(v: Seq<(IpAddr, Entry)>, x: int, y: int)
    requires
        ordered(v),
        0 <= x < v.len(),
        0 <= y < v.len(),
    ensures
        share(v, x, y) <==> linked(entry_map(v), v[x].0, v[y].0),
{
    let e = entry_map(v);
    lemma_entry_at(v, x);
    lemma_entry_at(v, y);
    if share(v, x, y) {
        let id = choose|id: Seq<char>| has_id(v, x, id) && #[trigger] has_id(v, y, id);
        assert(e[v[y].0].identities.contains(id));
    }
    if linked(e, v[x].0, v[y].0) {
        let id = choose|id: Seq<char>|
            e[v[x].0].identities.contains(id) && #[trigger] e[v[y].0].identities.contains(id);
        assert(has_id(v, y, id));
    }
}

/// The place of an address.
spec fn place_of(v: Seq<(IpAddr, Entry)>, a: IpAddr) -> int {
    choose|i: int| is_at(v, a, i)
}

proof fn lemma_place_of(v: Seq<(IpAddr, Entry)>, i: int)
    requires
        ordered(v),
        0 <= i < v.len(),
    ensures
        place_of(v, v[i].0) == i,
{
    assert(is_at(v, v[i].0, i));
    let k = place_of(v, v[i].0);
    assert(is_at(v, v[i].0, k));
    if k < i {
        assert(v[k].0.order() < v[i].0.order());
    }
    if i < k {
        assert(v[i].0.order() < v[k].0.order());
    }
}

/// Where places that share an identity have the same root, so have connected addresses.
proof fn lemma_path_root(v: Seq<(IpAddr, Entry)>, root: Seq<int>, path: Seq<IpAddr>)
    requires
        ordered(v),
        root.len() == v.len(),
        is_path(entry_map(v), path),
        forall|x: int, y: int|
            0 <= x < v.len() && 0 <= y < v.len() && #[trigger] share(v, x, y) ==> root[x]
                == root[y],
    ensures
        is_at(v, path[0], place_of(v, path[0])),
        is_at(v, path.last(), place_of(v, path.last())),
        root[place_of(v, path[0])] == root[place_of(v, path.last())],
    decreases path.len(),
{
    let e = entry_map(v);
    assert(e.contains_key(path[0]));
    assert(has_address(v, path[0]));
    assert(is_at(v, path[0], place_of(v, path[0])));
    if path.len() > 1 {
        let n = path.len();
        let front = path.drop_last();
        assert(is_path(e, front)) by {
            assert forall|i: int| 0 <= i < front.len() - 1 implies linked(
                e,
                #[trigger] front[i],
                front[i + 1],
            ) by {
                assert(linked(e, path[i], path[i + 1]));
            }
        }
        lemma_path_root(v, root, front);
        assert(linked(e, path[n - 2], path[n - 2 + 1]));
        let (a, b) = (path[n - 2], path[n - 1]);
        assert(has_address(v, b));
        let (x, y) = (place_of(v, a), place_of(v, b));
        assert(is_at(v, b, y));
        assert(is_at(v, a, x));
        lemma_share_links(v, x, y);
        assert(share(v, x, y));
    }
}

/// `root` says which addresses belong together.
spec fn roots_group(v: Seq<(IpAddr, Entry)>, root: Seq<int>) -> bool {
    &&& root.len() == v.len()
    &&& forall|x: int, y: int|
        #![trigger root[x], root[y]]
        0 <= x < v.len() && 0 <= y < v.len() ==> (root[x] == root[y] <==> connected(
            entry_map(v),
            v[x].0,
            v[y].0,
        ))
}

/// Places with one root are connected.
spec fn roots_sound(v: Seq<(IpAddr, Entry)>, root: Seq<int>) -> bool {
    forall|x: int, y: int|
        #![trigger root[x], root[y]]
        0 <= x < v.len() && 0 <= y < v.len() && root[x] == root[y] ==> connected(
            entry_map(v),
            v[x].0,
            v[y].0,
        )
}

/// Places below `n` that share an identity have one root.
spec fn roots_complete(v: Seq<(IpAddr, Entry)>, root: Seq<int>, n: int) -> bool {
    forall|x: int, y: int|
        0 <= x < n && 0 <= y < n && #[trigger] share(v, x, y) ==> root[x] == root[y]
}

proof fn lemma_roots_group(v: Seq<(IpAddr, Entry)>, root: Seq<int>)
    requires
        ordered(v),
        root.len() == v.len(),
        roots_sound(v, root),
        roots_complete(v, root, v.len() as int),
    ensures
        roots_group(v, root),
{
    let e = entry_map(v);
    assert forall|x: int, y: int|
        #![trigger root[x], root[y]]
        0 <= x < v.len() && 0 <= y < v.len() && connected(e, v[x].0, v[y].0) implies root[x]
        == root[y] by {
        let path = choose|path: Seq<IpAddr>|
            #[trigger] is_path(e, path) && path[0] == v[x].0 && path.last() == v[y].0;
        lemma_path_root(v, root, path);
        lemma_place_of(v, x);
        lemma_place_of(v, y);
    }
}

/// Joining the roots of two places that share an identity keeps what is known of the roots.
proof fn lemma_join_roots(v: Seq<(IpAddr, Entry)>, root: Seq<int>, i: int, j: int, n: int)
    requires
        ordered(v),
        root.len() == v.len(),
        0 <= i < v.len(),
        0 <= j < v.len(),
        0 <= n <= v.len(),
        share(v, i, j),
        roots_sound(v, root),
        roots_complete(v, root, n),
    ensures
        roots_sound(v, joined_roots(root, root[i], root[j])),
        roots_complete(v, joined_roots(root, root[i], root[j]), n),
        joined_roots(root, root[i], root[j])[i] == joined_roots(root, root[i], root[j])[j],
        forall|x: int, y: int|
            #![trigger root[x], root[y]]
            0 <= x < v.len() && 0 <= y < v.len() && root[x] == root[y] ==> joined_roots(
                root,
                root[i],
                root[j],
            )[x] == joined_roots(root, root[i], root[j])[y],
{
    let e = entry_map(v);
    let r = joined_roots(root, root[i], root[j]);
    lemma_share_links(v, i, j);
    lemma_connected_link(e, v[i].0, v[j].0);
    lemma_connected_symmetric(e, v[i].0, v[j].0);
    assert forall|x: int, y: int|
        #![trigger r[x], r[y]]
        0 <= x < v.len() && 0 <= y < v.len() && r[x] == r[y] implies connected(
        e,
        v[x].0,
        v[y].0,
    ) by {
        if root[x] != root[y] {
            if root[x] == root[i] {
                lemma_connected_transitive(e, v[x].0, v[i].0, v[j].0);
                lemma_connected_transitive(e, v[x].0, v[j].0, v[y].0);
            } else {
                assert(root[x] == root[j]);
                assert(root[y] == root[i]);
                lemma_connected_transitive(e, v[x].0, v[j].0, v[i].0);
                lemma_connected_transitive(e, v[x].0, v[i].0, v[y].0);
            }
        }
    }
    assert forall|x: int, y: int| 0 <= x < n && 0 <= y < n && #[trigger] share(v, x, y) implies r[x]
        == r[y] by {
        assert(root[x] == root[y]);
    }
}

fn best_rank(d: &Device) -> (r: u8)
    ensures
        r == device_rank(d@),
{
    if d.protocols.len() > 0 {
        preference_rank(d.protocols[0])
    } else {
        255
    }
}

fn comes_before(a: &Device, b: &Device) -> (r: bool)
    ensures
        r == device_before(a@, b@),
{
    let (x, y) = (best_rank(a), best_rank(b));
    x < y || (x == y && (text_precedes(a.name.as_str(), b.name.as_str()) || (same_text(
        a.name.as_str(),
        b.name.as_str(),
    ) && a.address.precedes(&b.address))))
}

/// The list is in order.
spec fn in_order(list: Seq<DeviceText>) -> bool {
    forall|i: int, j: int|
        0 <= i < j < list.len() ==> device_before(#[trigger] list[i], #[trigger] list[j])
}

/// A device inserted between those before it and those after it keeps the order.
proof fn lemma_insert_in_order(list: Seq<DeviceText>, at: int, d: DeviceText)
    requires
        in_order(list),
        0 <= at <= list.len(),
        forall|i: int| 0 <= i < at ==> device_before(#[trigger] list[i], d),
        at < list.len() ==> device_before(d, list[at]),
    ensures
        in_order(list.insert(at, d)),
{
    let after = list.insert(at, d);
    assert forall|i: int| at <= i < list.len() implies device_before(d, #[trigger] list[i]) by {
        if at < i {
            lemma_device_before_transitive(d, list[at], list[i]);
        }
    }
    assert forall|i: int, j: int| 0 <= i < j < after.len() implies device_before(
        #[trigger] after[i],
        #[trigger] after[j],
    ) by {
        let p = if i < at { i } else { i - 1 };
        let q = if j < at { j } else { j - 1 };
        if i == at {
            assert(after[j] == list[q]);
        } else if j == at {
            assert(after[i] == list[p]);
        } else {
            assert(after[i] == list[p]);
            assert(after[j] == list[q]);
        }
    }
}

/// Put `d` where it belongs in a list that is in order.
fn insert_device(list: &mut Vec<Device>, d: Device)
    requires
        in_order(device_list(old(list)@)),
        forall|i: int|
            0 <= i < old(list)@.len() ==> (#[trigger] device_list(old(list)@)[i]).address
                != d.address,
    ensures
        in_order(device_list(final(list)@)),
        exists|k: int|
            0 <= k <= old(list)@.len() && device_list(final(list)@) == #[trigger] device_list(
                old(list)@,
            ).insert(k, d@),
{
    let ghost before = device_list(list@);
    let ghost added = d@;
    let mut at: usize = 0;
    while at < list.len() && comes_before(&list[at], &d)
        invariant
            at <= list@.len(),
            before == device_list(list@),
            list@ == old(list)@,
            forall|i: int| 0 <= i < at ==> device_before(#[trigger] before[i], d@),
        decreases list@.len() - at,
    {
        at += 1;
    }
    proof {
        if at < before.len() {
            assert(before[at as int].address != d.address);
            lemma_device_before_total(added, before[at as int]);
        }
        lemma_insert_in_order(before, at as int, added);
    }
    list.insert(at, d);
    assert(device_list(list@) =~= before.insert(at as int, added));
}

impl DeviceRegistry {
    /// For every entry the place of the entry that stands for its group: two entries have
    /// the same one where their addresses share an identity, or are joined by a chain of
    /// addresses that do.
    fn group_roots(&self) -> (roots: Vec<usize>)
        requires
            ordered(self.entries@),
        ensures
            roots_group(self.entries@, roots@.map_values(|r: usize| r as int)),
    {
        let n: usize = self.entries.len();
        let ghost v = self.entries@;
        let ghost e = entry_map(v);
        let mut parent: Vec<usize> = Vec::new();
        let mut k: usize = 0;
        while k < n
            invariant
                k <= n,
                parent@.len() == k,
                forall|x: int| 0 <= x < k ==> parent@[x] == x,
            decreases n - k,
        {
            parent.push(k);
            k += 1;
        }
        let ghost mut root: Seq<int> = Seq::new(n as nat, |x: int| x);
        let ghost mut height: Seq<nat> = Seq::new(n as nat, |x: int| 0nat);
        let ghost mut bound: nat = 0;
        assert(roots_sound(v, root)) by {
            assert forall|x: int, y: int|
                #![trigger root[x], root[y]]
                0 <= x < v.len() && 0 <= y < v.len() && root[x] == root[y] implies connected(
                e,
                v[x].0,
                v[y].0,
            ) by {
                lemma_entry_at(v, x);
                lemma_connected_self(e, v[x].0);
            }
        }
        // Link every address to the first that has one of its identities.
        let mut i: usize = 0;
        while i < n
            invariant
                i <= n,
                n == v.len(),
                v == self.entries@,
                ordered(v),
                parent@.len() == n,
                is_forest(parent@, root, height, bound),
                roots_sound(v, root),
                roots_complete(v, root, i as int),
            decreases n - i,
        {
            let entry: &Entry = &self.entries[i].1;
            let ghost texts = entry.identities@.map_values(|s: String| s@);
            let mut m: usize = 0;
            while m < entry.identities.len()
                invariant
                    i < n,
                    n == v.len(),
                    v == self.entries@,
                    ordered(v),
                    entry == v[i as int].1,
                    texts == entry.identities@.map_values(|s: String| s@),
                    m <= entry.identities@.len(),
                    parent@.len() == n,
                    is_forest(parent@, root, height, bound),
                    roots_sound(v, root),
                    roots_complete(v, root, i as int),
                    forall|l: int, y: int|
                        0 <= l < m && 0 <= y < i && #[trigger] has_id(v, y, texts[l]) ==> root[y]
                            == root[i as int],
                decreases entry.identities@.len() - m,
            {
                let ghost id = texts[m as int];
                assert(texts.contains(id));
                assert(has_id(v, i as int, id));
                match self.first_owner(entry.identities[m].as_str(), i) {
                    Some(j) => {
                        assert(has_id(v, j as int, id));
                        assert(share(v, i as int, j as int));
                        let a: usize = find_root(
                            &mut parent,
                            i,
                            Ghost(root),
                            Ghost(height),
                            Ghost(bound),
                        );
                        let b: usize = find_root(
                            &mut parent,
                            j,
                            Ghost(root),
                            Ghost(height),
                            Ghost(bound),
                        );
                        let ghost old_root = root;
                        proof {
                            assert(parent@[i as int] < n);
                            assert(parent@[j as int] < n);
                            assert(parent@[a as int] == a);
                            assert(parent@[b as int] == b);
                        }
                        if a != b {
                            proof {
                                lemma_join(parent@, root, height, bound, a as int, b);
                                lemma_join_roots(v, root, i as int, j as int, i as int);
                                height = joined_heights(root, height, a as int, b as int);
                                root = joined_roots(root, a as int, b as int);
                                bound = 2 * bound + 1;
                            }
                            parent.set(a, b);
                        }
                        assert forall|l: int, y: int|
                            0 <= l < m + 1 && 0 <= y < i && #[trigger] has_id(
                                v,
                                y,
                                texts[l],
                            ) implies root[y] == root[i as int] by {
                            if l < m {
                                assert(old_root[y] == old_root[i as int]);
                            } else {
                                assert(share(v, y, j as int));
                                assert(root[y] == root[j as int]);
                            }
                        }
                    },
                    None => {},
                }
                m += 1;
            }
            assert(roots_complete(v, root, i + 1)) by {
                assert forall|x: int, y: int|
                    0 <= x < i + 1 && 0 <= y < i + 1 && #[trigger] share(v, x, y) implies root[x]
                    == root[y] by {
                    let id = choose|id: Seq<char>| has_id(v, x, id) && #[trigger] has_id(v, y, id);
                    if x == i || y == i {
                        assert(has_id(v, i as int, id));
                        assert(texts.contains(id));
                        let l = choose|l: int| 0 <= l < texts.len() && texts[l] == id;
                        assert(has_id(v, x, texts[l]));
                        assert(has_id(v, y, texts[l]));
                    }
                }
            }
            i += 1;
        }
        let mut roots: Vec<usize> = Vec::new();
        let mut x: usize = 0;
        while x < n
            invariant
                x <= n,
                n == v.len(),
                parent@.len() == n,
                is_forest(parent@, root, height, bound),
                roots@.len() == x,
                forall|y: int| 0 <= y < x ==> (#[trigger] roots@[y]) as int == root[y],
            decreases n - x,
        {
            let r: usize = find_root(&mut parent, x, Ghost(root), Ghost(height), Ghost(bound));
            roots.push(r);
            x += 1;
        }
        proof {
            assert(roots@.map_values(|r: usize| r as int) =~= root);
            lemma_roots_group(v, root);
        }
        roots
    }

    /// The first entry before place `n` that has the identity `id`.
    fn first_owner(&self, id: &str, n: usize) -> (r: Option<usize>)
        requires
            n <= self.entries@.len(),
        ensures
            match r {
                Some(j) => j < n && has_id(self.entries@, j as int, id@),
                None => forall|y: int| 0 <= y < n ==> !#[trigger] has_id(self.entries@, y, id@),
            },
    {
        let mut j: usize = 0;
        while j < n
            invariant
                j <= n,
                n <= self.entries@.len(),
                forall|y: int| 0 <= y < j ==> !#[trigger] has_id(self.entries@, y, id@),
            decreases n - j,
        {
            if entry_has_identity(&self.entries[j].1, id) {
                return Some(j);
            }
            j += 1;
        }
        None
    }

    /// The places of the entries with the same root as the entry at `i`.
    fn places_with(&self, roots: &Vec<usize>, i: usize) -> (places: Vec<usize>)
        requires
            roots@.len() == self.entries@.len(),
            i < roots@.len(),
        ensures
            are_places(self.entries@, places@),
            forall|l: int|
                0 <= l < places@.len() ==> roots@[#[trigger] places@[l] as int] == roots@[i as int],
            forall|x: int|
                0 <= x < roots@.len() && #[trigger] roots@[x] == roots@[i as int]
                    ==> places@.contains(x as usize),
    {
        let mut places: Vec<usize> = Vec::new();
        let mut m: usize = 0;
        while m < roots.len()
            invariant
                m <= roots@.len(),
                i < roots@.len(),
                roots@.len() == self.entries@.len(),
                are_places(self.entries@, places@),
                forall|l: int|
                    0 <= l < places@.len() ==> (#[trigger] places@[l]) < m
                        && roots@[places@[l] as int] == roots@[i as int],
                forall|x: int|
                    0 <= x < m && #[trigger] roots@[x] == roots@[i as int] ==> places@.contains(
                        x as usize,
                    ),
            decreases roots@.len() - m,
        {
            let ghost prev = places@;
            if roots[m] == roots[i] {
                places.push(m);
                assert forall|x: int|
                    0 <= x < m + 1 && #[trigger] roots@[x] == roots@[i as int] implies places@.contains(
                    x as usize,
                ) by {
                    if x < m {
                        let l = choose|l: int| 0 <= l < prev.len() && prev[l] == x as usize;
                        assert(places@[l] == x as usize);
                    } else {
                        assert(places@[prev.len() as int] == x as usize);
                    }
                }
            }
            m += 1;
        }
        places
    }

    /// The addresses at the given places.
    fn addresses_of(&self, places: &Vec<usize>) -> (group: Vec<IpAddr>)
        requires
            ordered(self.entries@),
            are_places(self.entries@, places@),
        ensures
            group@.len() == places@.len(),
            forall|k: int|
                0 <= k < group@.len() ==> self@.entries.contains_key(#[trigger] group@[k]),
            group@.to_set() == addresses_at(self.entries@, places@),
    {
        let ghost v = self.entries@;
        let mut group: Vec<IpAddr> = Vec::new();
        let mut k: usize = 0;
        while k < places.len()
            invariant
                k <= places@.len(),
                v == self.entries@,
                ordered(v),
                are_places(v, places@),
                group@.len() == k,
                forall|l: int| 0 <= l < k ==> #[trigger] group@[l] == v[places@[l] as int].0,
            decreases places@.len() - k,
        {
            group.push(self.entries[places[k]].0);
            k += 1;
        }
        proof {
            assert forall|l: int| 0 <= l < group@.len() implies self@.entries.contains_key(
                #[trigger] group@[l],
            ) by {
                lemma_entry_at(v, places@[l] as int);
            }
            assert forall|a: IpAddr| group@.to_set().contains(a) == addresses_at(
                v,
                places@,
            ).contains(a) by {
                if group@.contains(a) {
                    let l = choose|l: int| 0 <= l < group@.len() && group@[l] == a;
                    assert(v[places@[l] as int].0 == a);
                }
                if addresses_at(v, places@).contains(a) {
                    let l = choose|l: int|
                        0 <= l < places@.len() && v[#[trigger] places@[l] as int].0 == a;
                    assert(group@[l] == a);
                }
            }
            assert(group@.to_set() =~= addresses_at(v, places@));
        }
        group
    }

    /// The device of the group of the entry at `i`.
    fn group_device(&self, roots: &Vec<usize>, i: usize) -> (d: Device)
        requires
            ordered(self.entries@),
            roots@.len() == self.entries@.len(),
            roots_group(self.entries@, roots@.map_values(|r: usize| r as int)),
            i < roots@.len(),
        ensures
            is_device_of(self@.entries, self.entries@[i as int].0, d@),
    {
        let _total: usize = self.entries.len();
        let places: Vec<usize> = self.places_with(roots, i);
        proof {
            lemma_group_places(self.entries@, roots@, places@, i as int);
        }
        let members: Vec<IpAddr> = self.addresses_of(&places);
        let d: Device = self.merge_group(&members);
        proof {
            assert(members@.to_set().contains(d.address));
            reveal(is_device_of);
        }
        d
    }

    /// Current devices: addresses sharing an identity are coalesced into one device
    /// (protocols unioned, routable IPv4 chosen as primary), the list ordered by best
    /// protocol then name then address; stable and deterministic.
    #[must_use]
    pub fn devices(&self) -> (list: Vec<Device>)
        ensures
            are_sighted(self@.entries),
            is_device_list(self@.entries, device_list(list@)),
    {
        proof {
            use_type_invariant(self);
            lemma_all_sighted(self.entries@);
        }
        let ghost v = self.entries@;
        let roots: Vec<usize> = self.group_roots();
        let ghost root = roots@.map_values(|r: usize| r as int);
        let n: usize = self.entries.len();
        let mut list: Vec<Device> = Vec::new();
        let mut i: usize = 0;
        while i < n
            invariant
                i <= n,
                n == v.len(),
                v == self.entries@,
                ordered(v),
                roots@.len() == n,
                root == roots@.map_values(|r: usize| r as int),
                roots_group(v, root),
                is_partial_list(v, device_list(list@), i as int),
            decreases n - i,
        {
            let ghost before = device_list(list@);
            match first_equal(&roots, i) {
                Some(earlier) => {
                    assert(root[earlier as int] == root[i as int]);
                    proof {
                        lemma_list_has_group(v, root, before, earlier as int, i as int);
                    }
                },
                None => {
                    let d: Device = self.group_device(&roots, i);
                    proof {
                        assert forall|x: int| 0 <= x < i implies #[trigger] root[x]
                            != root[i as int] by {
                            assert(roots@[x] != roots@[i as int]);
                        }
                        lemma_new_address(v, root, before, i as int, d@);
                    }
                    let ghost added = d@;
                    insert_device(&mut list, d);
                    proof {
                        let at = choose|at: int|
                            0 <= at <= before.len() && device_list(list@)
                                == #[trigger] before.insert(at, added);
                        lemma_list_grows(v, before, i as int, at, added);
                    }
                },
            }
            i += 1;
        }
        proof {
            lemma_list_is_whole(v, device_list(list@));
        }
        list
    }
}

/// The first place before `i` with the same value.
fn first_equal(roots: &Vec<usize>, i: usize) -> (r: Option<usize>)
    requires
        i < roots@.len(),
    ensures
        match r {
            Some(k) => k < i && roots@[k as int] == roots@[i as int],
            None => forall|x: int| 0 <= x < i ==> #[trigger] roots@[x] != roots@[i as int],
        },
{
    let mut k: usize = 0;
    while k < i
        invariant
            k <= i < roots@.len(),
            forall|x: int| 0 <= x < k ==> #[trigger] roots@[x] != roots@[i as int],
        decreases i - k,
    {
        if roots[k] == roots[i] {
            return Some(k);
        }
        k += 1;
    }
    None
}

/// `d` is the device of the group of `a`, and its address is in that group.
#[verifier::opaque]
spec fn is_device_of(e: Map<IpAddr, EntryText>, a: IpAddr, d: DeviceText) -> bool {
    d == merged(e, group(e, a)) && connected(e, a, d.address)
}

/// `d` is the device of the group of one of the first `i` entries.
spec fn is_early_device(v: Seq<(IpAddr, Entry)>, d: DeviceText, i: int) -> bool {
    exists|x: int| 0 <= x < i && is_device_of(entry_map(v), (#[trigger] v[x]).0, d)
}

/// Every device in the list is that of the group of one of the first `i` entries.
spec fn lists_groups(v: Seq<(IpAddr, Entry)>, list: Seq<DeviceText>, i: int) -> bool {
    forall|k: int| 0 <= k < list.len() ==> is_early_device(v, #[trigger] list[k], i)
}

/// The device of the group of the entry at `x`.
#[verifier::opaque]
spec fn device_at(v: Seq<(IpAddr, Entry)>, x: int) -> DeviceText {
    merged(entry_map(v), group(entry_map(v), v[x].0))
}

/// The device of the group of each of the first `i` entries is in the list.
spec fn covers_groups(v: Seq<(IpAddr, Entry)>, list: Seq<DeviceText>, i: int) -> bool {
    forall|x: int| 0 <= x < i ==> list.contains(#[trigger] device_at(v, x))
}

/// The list holds, in order, the devices of the groups of the first `i` entries.
spec fn is_partial_list(v: Seq<(IpAddr, Entry)>, list: Seq<DeviceText>, i: int) -> bool {
    in_order(list) && lists_groups(v, list, i) && covers_groups(v, list, i)
}

/// An entry whose group has come up adds no device.
proof fn lemma_list_has_group(
    v: Seq<(IpAddr, Entry)>,
    root: Seq<int>,
    list: Seq<DeviceText>,
    earlier: int,
    i: int,
)
    requires
        roots_group(v, root),
        is_partial_list(v, list, i),
        0 <= earlier < i < v.len(),
        root[earlier] == root[i],
    ensures
        is_partial_list(v, list, i + 1),
{
    let e = entry_map(v);
    assert(connected(e, v[earlier].0, v[i].0)) by {
        assert(root[earlier] == root[i]);
    }
    assert(device_at(v, earlier) == device_at(v, i)) by {
        law_groups_partition(e, v[earlier].0, v[i].0, v[i].0);
        reveal(device_at);
    }
    lemma_lists_still(v, list, i);
    lemma_covers_still(v, list, earlier, i);
}

proof fn lemma_lists_still(v: Seq<(IpAddr, Entry)>, list: Seq<DeviceText>, i: int)
    requires
        lists_groups(v, list, i),
    ensures
        lists_groups(v, list, i + 1),
{
    let e = entry_map(v);
    assert forall|k: int| 0 <= k < list.len() implies is_early_device(
        v,
        #[trigger] list[k],
        i + 1,
    ) by {
        assert(is_early_device(v, list[k], i));
        let x = choose|x: int| 0 <= x < i && is_device_of(e, (#[trigger] v[x]).0, list[k]);
        assert(is_device_of(e, v[x].0, list[k]));
    }
}

proof fn lemma_covers_still(
    v: Seq<(IpAddr, Entry)>,
    list: Seq<DeviceText>,
    earlier: int,
    i: int,
)
    requires
        covers_groups(v, list, i),
        0 <= earlier < i < v.len(),
        device_at(v, earlier) == device_at(v, i),
    ensures
        covers_groups(v, list, i + 1),
{
    assert forall|x: int| 0 <= x < i + 1 implies list.contains(#[trigger] device_at(v, x)) by {
        if x == i {
            assert(list.contains(device_at(v, earlier)));
        }
    }
}

/// The device of a new group has an address that no device of the list has.
proof fn lemma_new_address(
    v: Seq<(IpAddr, Entry)>,
    root: Seq<int>,
    list: Seq<DeviceText>,
    i: int,
    d: DeviceText,
)
    requires
        roots_group(v, root),
        is_partial_list(v, list, i),
        0 <= i < v.len(),
        is_device_of(entry_map(v), v[i].0, d),
        forall|x: int| 0 <= x < i ==> #[trigger] root[x] != root[i],
    ensures
        forall|l: int| 0 <= l < list.len() ==> (#[trigger] list[l]).address != d.address,
{
    let e = entry_map(v);
    assert forall|l: int| 0 <= l < list.len() implies (#[trigger] list[l]).address
        != d.address by {
        assert(is_early_device(v, list[l], i));
        let x = choose|x: int| 0 <= x < i && is_device_of(e, (#[trigger] v[x]).0, list[l]);
        reveal(is_device_of);
        if list[l].address == d.address {
            lemma_connected_symmetric(e, v[i].0, d.address);
            lemma_connected_transitive(e, v[x].0, d.address, v[i].0);
            assert(root[x] == root[i]);
        }
    }
}

proof fn lemma_lists_one_more(
    v: Seq<(IpAddr, Entry)>,
    list: Seq<DeviceText>,
    i: int,
    at: int,
    d: DeviceText,
)
    requires
        lists_groups(v, list, i),
        0 <= i < v.len(),
        0 <= at <= list.len(),
        is_device_of(entry_map(v), v[i].0, d),
    ensures
        lists_groups(v, list.insert(at, d), i + 1),
{
    let e = entry_map(v);
    let after = list.insert(at, d);
    assert forall|k: int| 0 <= k < after.len() implies is_early_device(
        v,
        #[trigger] after[k],
        i + 1,
    ) by {
        if k == at {
            assert(is_device_of(e, v[i].0, after[k]));
        } else {
            let l = if k < at { k } else { k - 1 };
            assert(after[k] == list[l]);
            assert(is_early_device(v, list[l], i));
            let x = choose|x: int| 0 <= x < i && is_device_of(e, (#[trigger] v[x]).0, list[l]);
            assert(is_device_of(e, v[x].0, after[k]));
        }
    }
}

proof fn lemma_covers_one_more(
    v: Seq<(IpAddr, Entry)>,
    list: Seq<DeviceText>,
    i: int,
    at: int,
    d: DeviceText,
)
    requires
        covers_groups(v, list, i),
        0 <= i < v.len(),
        0 <= at <= list.len(),
        d == device_at(v, i),
    ensures
        covers_groups(v, list.insert(at, d), i + 1),
{
    let after = list.insert(at, d);
    assert(after[at] == d);
    assert forall|x: int| 0 <= x < i + 1 implies after.contains(#[trigger] device_at(v, x)) by {
        let m = device_at(v, x);
        if x < i {
            assert(list.contains(m));
            let l = choose|l: int| 0 <= l < list.len() && list[l] == m;
            let k = if l < at { l } else { l + 1 };
            assert(after[k] == list[l]);
        }
    }
}

/// The list with the device of the next entry's group is the list up to that entry.
proof fn lemma_list_grows(
    v: Seq<(IpAddr, Entry)>,
    list: Seq<DeviceText>,
    i: int,
    at: int,
    d: DeviceText,
)
    requires
        is_partial_list(v, list, i),
        0 <= i < v.len(),
        0 <= at <= list.len(),
        is_device_of(entry_map(v), v[i].0, d),
        in_order(list.insert(at, d)),
    ensures
        is_partial_list(v, list.insert(at, d), i + 1),
{
    assert(d == device_at(v, i)) by {
        reveal(is_device_of);
        reveal(device_at);
    }
    lemma_lists_one_more(v, list, i, at, d);
    lemma_covers_one_more(v, list, i, at, d);
}

/// The list of all groups is the device list.
proof fn lemma_list_is_whole(v: Seq<(IpAddr, Entry)>, list: Seq<DeviceText>)
    requires
        ordered(v),
        is_partial_list(v, list, v.len() as int),
    ensures
        is_device_list(entry_map(v), list),
{
    let e = entry_map(v);
    assert forall|i: int, j: int| 0 <= i < j < list.len() implies device_before(
        #[trigger] list[i],
        #[trigger] list[j],
    ) by {
        assert(in_order(list));
    }
    assert forall|k: int| 0 <= k < list.len() implies is_device_in(e, #[trigger] list[k]) by {
        assert(is_early_device(v, list[k], v.len() as int));
        let x = choose|x: int|
            0 <= x < v.len() && is_device_of(e, (#[trigger] v[x]).0, list[k]);
        reveal(is_device_of);
        lemma_entry_at(v, x);
        assert(e.contains_key(v[x].0));
    }
    assert forall|a: IpAddr| #[trigger] e.contains_key(a) implies list.contains(
        merged(e, group(e, a)),
    ) by {
        assert(has_address(v, a));
        let x = choose|x: int| is_at(v, a, x);
        assert(is_at(v, a, x));
        assert(v[x].0 == a);
        assert(list.contains(device_at(v, x)));
        reveal(device_at);
    }
}

/// The places with one root are those of the group.
proof fn lemma_group_places(v: Seq<(IpAddr, Entry)>, roots: Seq<usize>, places: Seq<usize>, i: int)
    requires
        ordered(v),
        roots_group(v, roots.map_values(|r: usize| r as int)),
        0 <= i < v.len(),
        v.len() <= usize::MAX,
        are_places(v, places),
        forall|l: int| 0 <= l < places.len() ==> roots[#[trigger] places[l] as int] == roots[i],
        forall|x: int|
            0 <= x < v.len() && #[trigger] roots[x] == roots[i] ==> places.contains(x as usize),
    ensures
        addresses_at(v, places) == group(entry_map(v), v[i].0),
        places.len() > 0,
{
    let e = entry_map(v);
    let root = roots.map_values(|r: usize| r as int);
    let set = addresses_at(v, places);
    assert forall|a: IpAddr| set.contains(a) == group(e, v[i].0).contains(a) by {
        if set.contains(a) {
            let l = choose|l: int| 0 <= l < places.len() && v[#[trigger] places[l] as int].0 == a;
            assert(root[places[l] as int] == root[i]);
            assert(connected(e, v[i].0, v[places[l] as int].0));
        }
        if connected(e, v[i].0, a) {
            lemma_connected_known(e, v[i].0, a);
            assert(has_address(v, a));
            let x = choose|x: int| is_at(v, a, x);
            assert(is_at(v, a, x));
            assert(root[i] == root[x]);
            assert(roots[x] == roots[i]);
            let l = choose|l: int| 0 <= l < places.len() && places[l] == x as usize;
            assert(v[places[l] as int].0 == a);
        }
    }
    assert(set =~= group(e, v[i].0));
    let own = roots[i];
    assert(root[i] == own as int);
    assert(places.contains(i as usize));
}

/// A connected address has an entry.
proof fn lemma_connected_known(e: Map<IpAddr, EntryText>, a: IpAddr, b: IpAddr)
    requires
        connected(e, a, b),
    ensures
        e.contains_key(b),
{
    lemma_connected_symmetric(e, a, b);
}

} // verus!
