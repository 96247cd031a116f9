//! SSDP (UPnP) discovery of DLNA MediaRenderer devices via multicast M-SEARCH.

use vstd::prelude::*;
use vstd::slice::slice_subrange;

use crate::discovery::registry::is_given;
use crate::discovery::registry::observed;
use crate::discovery::registry::EntryText;
use crate::discovery::registry::Observation;
use crate::discovery::registry::ObservationText;
use crate::net::upnp::description_of;
use crate::net::upnp::parse_device_description;
use crate::net::upnp::resolve_url;
use crate::net::upnp::resolved;
use crate::net::upnp::DescriptionText;
use crate::net::upnp::DeviceDescription;
use crate::net::xml::xml_events;
use crate::pipeline::address::IpAddr;
use crate::pipeline::types::copy_optional;
use crate::pipeline::types::optional_text;
use crate::pipeline::types::Protocol;
use crate::text::all_digits;
use crate::text::before;
use crate::text::before_char;
use crate::text::chars_of;
use crate::text::contains_text;
use crate::text::decimal;
use crate::text::find;
use crate::text::find_last;
use crate::text::find_last_char;
use crate::text::is_digit;
use crate::text::law_decimal_round_trip;
use crate::text::lemma_decimal;
use crate::text::lemma_find_from;
use crate::text::lemma_find_is;
use crate::text::lossy_string;
use crate::text::lossy_text;
use crate::text::lower_chars;
use crate::text::lowered;
use crate::text::number;
use crate::text::occurs_at;
use crate::text::parse_number;
use crate::text::pieces;
use crate::text::same_text;
use crate::text::split;
use crate::text::split_at_char;
use crate::text::split_once;
use crate::text::split_text;
use crate::text::string_of;
use crate::text::trim_chars;
use crate::text::trimmed;

verus! {

/// Where searches are sent.
pub const SSDP_MULTICAST: &'static str = "239.255.255.250:1900";

/// The kind of device that is searched for.
pub const SEARCH_TARGET: &'static str = "urn:schemas-upnp-org:device:MediaRenderer:1";

/// UDP discovery packets can be lost: how many are sent.
pub const SEARCH_REPEATS: u32 = 3;

/// How far apart they are sent, in milliseconds.
pub const SEARCH_SPACING_MILLIS: u64 = 100;

/// The search for media renderers.
pub fn msearch_packet() -> (r: String)
    ensures
        r@ == "M-SEARCH * HTTP/1.1\r\nHOST: 239.255.255.250:1900\r\nMAN: \"ssdp:discover\"\r\nMX: 2\r\nST: "@
            + SEARCH_TARGET@ + "\r\n\r\n"@,
{
    let mut out: String = String::from_str(
        "M-SEARCH * HTTP/1.1\r\nHOST: 239.255.255.250:1900\r\nMAN: \"ssdp:discover\"\r\nMX: 2\r\nST: ",
    );
    out.append(SEARCH_TARGET);
    out.append("\r\n\r\n");
    out
}

/// Parsed subset of an SSDP search response that we care about.
#[derive(Debug, Clone, PartialEq, Eq)]
pub struct SsdpResponse {
    /// URL of the device description document.
    pub location: Option<String>,
    /// Unique Service Name (carries the device UUID).
    pub usn: Option<String>,
    /// Server header (OS/UPnP stack string).
    pub server: Option<String>,
    /// Search/notification target.
    pub st: Option<String>,
}

impl Default for SsdpResponse {
    fn default() -> (r: Self)
        ensures
            r@ == no_headers(),
    {
        SsdpResponse { location: None, usn: None, server: None, st: None }
    }
}

/// What a response says.
pub struct SsdpText {
    pub location: Option<Seq<char>>,
    pub usn: Option<Seq<char>>,
    pub server: Option<Seq<char>>,
    pub st: Option<Seq<char>>,
}

impl View for SsdpResponse {
    type V = SsdpText;

    open spec fn view(&self) -> SsdpText {
        SsdpText {
            location: optional_text(self.location),
            usn: optional_text(self.usn),
            server: optional_text(self.server),
            st: optional_text(self.st),
        }
    }
}

/// A response without any header.
pub open spec fn no_headers() -> SsdpText {
    SsdpText { location: None, usn: None, server: None, st: None }
}

/// A response with one more line. A header with a value replaces an earlier one of its
/// name; its name may be in any case. Other lines say nothing.
pub open spec fn with_line(resp: SsdpText, line: Seq<char>) -> SsdpText {
    match split_once(line, ':') {
        None => resp,
        Some((key, value)) => {
            let key = lowered(trimmed(key));
            let value = trimmed(value);
            if value.len() == 0 {
                resp
            } else if key == "location"@ {
                SsdpText { location: Some(value), ..resp }
            } else if key == "usn"@ {
                SsdpText { usn: Some(value), ..resp }
            } else if key == "server"@ {
                SsdpText { server: Some(value), ..resp }
            } else if key == "st"@ || key == "nt"@ {
                SsdpText { st: Some(value), ..resp }
            } else {
                resp
            }
        },
    }
}

/// A response with the given lines.
pub open spec fn with_lines(lines: Seq<Seq<char>>) -> SsdpText
    decreases lines.len(),
{
    if lines.len() == 0 {
        no_headers()
    } else {
        with_line(with_lines(lines.drop_last()), lines.last())
    }
}

/// What a raw response says. A carriage return at the end of a line is white space.
pub open spec fn ssdp_of(raw: Seq<char>) -> SsdpText {
    with_lines(split(raw, seq!['\n']))
}

/// Parse an SSDP/HTTP response into its relevant headers (header keys are
/// case-insensitive per HTTP).
#[must_use]
pub fn parse_ssdp_response(raw: &str) -> (resp: SsdpResponse)
    ensures
        resp@ == ssdp_of(raw@),
{
    let chars: Vec<char> = chars_of(raw);
    let newline: [char; 1] = ['\n'];
    assert(newline@ =~= seq!['\n']);
    let lines: Vec<&[char]> = split_text(&chars, &newline);
    let ghost texts = pieces(lines@);
    let mut resp = SsdpResponse::default();
    let mut i: usize = 0;
    assert(texts.take(0) =~= Seq::<Seq<char>>::empty());
    while i < lines.len()
        invariant
            i <= lines@.len(),
            texts == pieces(lines@),
            resp@ == with_lines(texts.take(i as int)),
        decreases lines@.len() - i,
    {
        assert(texts.take(i + 1).drop_last() =~= texts.take(i as int));
        assert(texts.take(i + 1).last() == lines@[i as int]@);
        if let Some((key, value)) = split_at_char(lines[i], ':') {
            let value: String = string_of(trim_chars(value));
            if !value.as_str().is_empty() {
                let key: String = string_of(&lower_chars(trim_chars(key)));
                let k: &str = key.as_str();
                if same_text(k, "location") {
                    resp.location = Some(value);
                } else if same_text(k, "usn") {
                    resp.usn = Some(value);
                } else if same_text(k, "server") {
                    resp.server = Some(value);
                } else if same_text(k, "st") || same_text(k, "nt") {
                    resp.st = Some(value);
                }
            }
        }
        i += 1;
    }
    assert(texts.take(texts.len() as int) =~= texts);
    resp
}

/// The text names a media renderer.
pub open spec fn names_renderer(s: Option<Seq<char>>) -> bool {
    s matches Some(text) && find(lowered(text), "mediarenderer"@) is Some
}

/// The response looks like one of a DLNA MediaRenderer.
pub open spec fn is_renderer(resp: SsdpText) -> bool {
    names_renderer(resp.st) || names_renderer(resp.usn)
}

fn mentions_renderer(s: &Option<String>) -> (r: bool)
    ensures
        r == names_renderer(optional_text(*s)),
{
    match s {
        Some(text) => {
            let lower: Vec<char> = lower_chars(&chars_of(text.as_str()));
            contains_text(&lower, "mediarenderer")
        },
        None => false,
    }
}

/// True if the response looks like a DLNA MediaRenderer.
#[must_use]
pub fn is_media_renderer(resp: &SsdpResponse) -> (r: bool)
    ensures
        r == is_renderer(resp@),
{
    mentions_renderer(&resp.st) || mentions_renderer(&resp.usn)
}

/// The port in a URL: what follows the last colon of its authority.
pub open spec fn port_of(location: Seq<char>) -> Option<nat> {
    let parts = split(location, "://"@);
    if parts.len() < 2 {
        None
    } else {
        let authority = before(parts[1], '/');
        match find_last(authority, ':') {
            Some(i) => number(authority.skip(i + 1), 0xFFFF),
            None => None,
        }
    }
}

/// Extract the port from a LOCATION URL, e.g. `http://1.2.3.4:9197/desc.xml` -> `9197`.
#[must_use]
pub fn port_from_location(location: &str) -> (r: Option<u16>)
    ensures
        match r {
            Some(port) => port_of(location@) == Some(port as nat),
            None => port_of(location@) is None,
        },
{
    let chars: Vec<char> = chars_of(location);
    let mark: Vec<char> = chars_of("://");
    proof {
        reveal_strlit("://");
    }
    let parts: Vec<&[char]> = split_text(&chars, &mark);
    assert(pieces(parts@).len() == parts@.len());
    if parts.len() < 2 {
        return None;
    }
    assert(pieces(parts@)[1] == parts@[1]@);
    // IPv6 authorities look like `[::1]:9197`; only treat the last `:` as the port sep.
    let authority: &[char] = before_char(parts[1], '/');
    match find_last_char(authority, ':') {
        Some(i) => {
            let n: usize = authority.len();
            let port: &[char] = slice_subrange(authority, i + 1, n);
            assert(port@ =~= authority@.skip(i + 1));
            match parse_number(port, 0xFFFF) {
                Some(p) => Some(p as u16),
                None => None,
            }
        },
        None => None,
    }
}

/// The sighting that a renderer's response is.
pub open spec fn renderer_sighting(resp: SsdpText, address: IpAddr) -> ObservationText {
    ObservationText {
        address,
        port: match resp.location {
            Some(location) => match port_of(location) {
                Some(p) => p as u16,
                None => 0,
            },
            None => 0,
        },
        name: None,
        stable_id: resp.usn,
        protocol: Protocol::Dlna,
        dlna_control_url: None,
        dlna_location: resp.location,
    }
}

/// What the description of a renderer adds to its sighting: its name and its control URL,
/// if it gives either.
pub open spec fn described_sighting(
    address: IpAddr,
    location: Seq<char>,
    desc: DescriptionText,
) -> Option<ObservationText> {
    let control_url = match desc.av_transport_control_url {
        Some(url) => resolved(location, url),
        None => None,
    };
    if desc.friendly_name is Some || control_url is Some {
        Some(
            ObservationText {
                address,
                port: 0,
                name: desc.friendly_name,
                stable_id: None,
                protocol: Protocol::Dlna,
                dlna_control_url: control_url,
                dlna_location: None,
            },
        )
    } else {
        None
    }
}

/// What an optional sighting says.
pub open spec fn optional_sighting(o: Option<Observation>) -> Option<ObservationText> {
    match o {
        Some(obs) => Some(obs@),
        None => None,
    }
}

/// What the description of a renderer adds to its sighting.
pub fn observe_description(address: IpAddr, location: &str, desc: DeviceDescription) -> (r: Option<
    Observation,
>)
    ensures
        optional_sighting(r) == described_sighting(address, location@, desc@),
{
    let control_url: Option<String> = match &desc.av_transport_control_url {
        Some(url) => resolve_url(location, url.as_str()),
        None => None,
    };
    if desc.friendly_name.is_some() || control_url.is_some() {
        Some(
            Observation {
                address,
                port: 0,
                name: desc.friendly_name,
                stable_id: None,
                protocol: Protocol::Dlna,
                dlna_control_url: control_url,
                dlna_location: None,
            },
        )
    } else {
        None
    }
}

/// What the description document of a renderer adds to its sighting.
pub fn observe_document(address: IpAddr, location: &str, xml: &str) -> (r: Option<Observation>)
    ensures
        optional_sighting(r) == described_sighting(
            address,
            location@,
            description_of(xml_events(xml@)),
        ),
{
    observe_description(address, location, parse_device_description(xml))
}

/// The renderers that answered a search: the description URL that each address gave first.
pub struct SsdpSearch {
    renderers: Vec<(IpAddr, Option<String>)>,
}

/// An address and its description URL.
pub type RendererText = (IpAddr, Option<Seq<char>>);

/// What a list of renderers says.
pub open spec fn renderer_list(v: Seq<(IpAddr, Option<String>)>) -> Seq<RendererText> {
    v.map_values(|r: (IpAddr, Option<String>)| (r.0, optional_text(r.1)))
}

/// Some renderer has the address.
pub open spec fn has_renderer(list: Seq<RendererText>, address: IpAddr) -> bool {
    exists|i: int| 0 <= i < list.len() && (#[trigger] list[i]).0 == address
}

/// Every address stands once.
pub open spec fn each_once(list: Seq<RendererText>) -> bool {
    forall|i: int, j: int|
        0 <= i < j < list.len() ==> (#[trigger] list[i]).0 != (#[trigger] list[j]).0
}

/// The renderers that are remembered after the answer `resp` from `source`: a renderer is
/// added if it is the first answer from its address.
pub open spec fn after_answer(list: Seq<RendererText>, resp: SsdpText, source: IpAddr) -> Seq<
    RendererText,
> {
    if is_renderer(resp) && !has_renderer(list, source) {
        list.push((source, resp.location))
    } else {
        list
    }
}

/// The renderers that have a description URL.
pub open spec fn describable(list: Seq<RendererText>) -> Seq<(IpAddr, Seq<char>)>
    decreases list.len(),
{
    if list.len() == 0 {
        Seq::empty()
    } else {
        match list.last().1 {
            Some(location) => describable(list.drop_last()).push((list.last().0, location)),
            None => describable(list.drop_last()),
        }
    }
}

/// What a list of addresses and URLs says.
pub open spec fn location_list(v: Seq<(IpAddr, String)>) -> Seq<(IpAddr, Seq<char>)> {
    v.map_values(|r: (IpAddr, String)| (r.0, r.1@))
}

impl SsdpSearch {
    /// The renderers that answered so far, in the order in which they first did.
    pub closed spec fn found(&self) -> Seq<RendererText> {
        renderer_list(self.renderers@)
    }

    /// A search that nobody answered yet.
    pub fn new() -> (s: SsdpSearch)
        ensures
            s.found() == Seq::<RendererText>::empty(),
    {
        let s = SsdpSearch { renderers: Vec::new() };
        assert(s.found() =~= Seq::<RendererText>::empty());
        s
    }

    /// Take in the answer `resp` from `source`. A renderer is sighted, and remembered if
    /// it is the first answer from its address; other answers are passed over.
    pub fn response(&mut self, resp: &SsdpResponse, source: IpAddr) -> (r: Option<Observation>)
        ensures
            optional_sighting(r) == (if is_renderer(resp@) {
                Some(renderer_sighting(resp@, source))
            } else {
                None
            }),
            final(self).found() == after_answer(old(self).found(), resp@, source),
    {
        if !is_media_renderer(resp) {
            return None;
        }
        let port: u16 = match &resp.location {
            Some(location) => match port_from_location(location.as_str()) {
                Some(p) => p,
                None => 0,
            },
            None => 0,
        };
        let obs = Observation {
            address: source,
            port,
            name: None,  // resolved from the description document
            stable_id: copy_optional(&resp.usn),
            protocol: Protocol::Dlna,
            dlna_control_url: None,  // resolved from the description document
            dlna_location: copy_optional(&resp.location),
        };
        let ghost list = self.found();
        let mut i: usize = 0;
        while i < self.renderers.len()
            invariant
                i <= self.renderers@.len(),
                list == self.found(),
                self.renderers@ == old(self).renderers@,
                is_renderer(resp@),
                obs@ == renderer_sighting(resp@, source),
                forall|k: int| 0 <= k < i ==> (#[trigger] list[k]).0 != source,
            decreases self.renderers@.len() - i,
        {
            if self.renderers[i].0 == source {
                assert(list[i as int].0 == source);
                return Some(obs);
            }
            i += 1;
        }
        self.renderers.push((source, copy_optional(&resp.location)));
        assert(self.found() =~= list.push((source, resp@.location)));
        Some(obs)
    }

    /// Take in a datagram from `source`.
    pub fn datagram(&mut self, bytes: &[u8], source: IpAddr) -> (r: Option<Observation>)
        ensures
            optional_sighting(r) == (if is_renderer(ssdp_of(lossy_text(bytes@))) {
                Some(renderer_sighting(ssdp_of(lossy_text(bytes@)), source))
            } else {
                None
            }),
            final(self).found() == after_answer(
                old(self).found(),
                ssdp_of(lossy_text(bytes@)),
                source,
            ),
    {
        let raw: String = lossy_string(bytes);
        let resp: SsdpResponse = parse_ssdp_response(raw.as_str());
        self.response(&resp, source)
    }

    /// The addresses whose description is to be fetched, with its URL.
    pub fn locations(&self) -> (r: Vec<(IpAddr, String)>)
        ensures
            location_list(r@) == describable(self.found()),
    {
        let ghost list = self.found();
        let mut out: Vec<(IpAddr, String)> = Vec::new();
        let mut i: usize = 0;
        assert(location_list(out@) =~= describable(list.take(0)));
        while i < self.renderers.len()
            invariant
                i <= self.renderers@.len(),
                list == renderer_list(self.renderers@),
                location_list(out@) == describable(list.take(i as int)),
            decreases self.renderers@.len() - i,
        {
            assert(list.take(i + 1).drop_last() =~= list.take(i as int));
            assert(list.take(i + 1).last() == list[i as int]);
            let ghost before = location_list(out@);
            if let Some(location) = &self.renderers[i].1 {
                out.push((self.renderers[i].0, location.clone()));
                assert(location_list(out@) =~= before.push(
                    (list[i as int].0, location@),
                ));
            }
            i += 1;
        }
        assert(list.take(list.len() as int) =~= list);
        out
    }
}

/// However often a renderer answers, it is remembered once: an answer keeps the list free
/// of double addresses.
pub proof fn law_renderers_once(list: Seq<RendererText>, address: IpAddr, location: Option<Seq<char>>)
    requires
        each_once(list),
        !has_renderer(list, address),
    ensures
        each_once(list.push((address, location))),
{
    let after = list.push((address, location));
    assert forall|i: int, j: int| 0 <= i < j < after.len() implies (#[trigger] after[i]).0 != (
    #[trigger] after[j]).0 by {
        assert(after[i] == list[i]);
        if j < list.len() {
            assert(after[j] == list[j]);
        }
    }
}

/// Every renderer with a description URL has it fetched, and no other URL is: an address and
/// a URL are listed exactly where the address gave that URL.
pub proof fn law_every_location_is_listed(list: Seq<RendererText>, a: IpAddr, l: Seq<char>)
    ensures
        describable(list).contains((a, l)) <==> list.contains((a, Some(l))),
    decreases list.len(),
{
    if list.len() > 0 {
        let rest = list.drop_last();
        let (all, some) = (describable(list), describable(rest));
        law_every_location_is_listed(rest, a, l);
        assert(list =~= rest.push(list.last()));
        if list.contains((a, Some(l))) {
            let k = choose|k: int| 0 <= k < list.len() && list[k] == (a, Some(l));
            if k < rest.len() {
                assert(rest[k] == (a, Some(l)));
                let m = choose|m: int| 0 <= m < some.len() && some[m] == (a, l);
                assert(all[m] == (a, l));
            } else {
                assert(all.last() == (a, l));
            }
        }
        if all.contains((a, l)) {
            let m = choose|m: int| 0 <= m < all.len() && all[m] == (a, l);
            if m < some.len() {
                assert(some[m] == (a, l));
                let k = choose|k: int| 0 <= k < rest.len() && rest[k] == (a, Some(l));
                assert(list[k] == (a, Some(l)));
            } else {
                assert(list.last() == (a, Some(l)));
            }
        }
    }
}

/// The URLs are listed in the order in which the renderers answered: those of an earlier part
/// of the list come before those of a later part, and each renderer adds its own URL or
/// nothing.
pub proof fn law_locations_keep_the_order(a: Seq<RendererText>, b: Seq<RendererText>, r: RendererText)
    ensures
        describable(a + b) == describable(a) + describable(b),
        describable(seq![r]) == match r.1 {
            Some(l) => seq![(r.0, l)],
            None => Seq::empty(),
        },
    decreases b.len(),
{
    let one = seq![r];
    assert(one.drop_last() =~= Seq::<RendererText>::empty());
    assert(describable(Seq::<RendererText>::empty()) =~= Seq::empty());
    if let Some(l) = r.1 {
        assert(describable(one) =~= seq![(r.0, l)]);
    }
    if b.len() == 0 {
        assert(a + b =~= a);
        assert(describable(a + b) =~= describable(a) + describable(b));
    } else {
        law_locations_keep_the_order(a, b.drop_last(), r);
        assert((a + b).drop_last() =~= a + b.drop_last());
        assert(describable(a + b) =~= describable(a) + describable(b));
    }
}

/// Renderers stand in the list of URLs in the order in which they stand in the list of
/// renderers.
pub proof fn law_locations_in_order(list: Seq<RendererText>, i: int, j: int)
    requires
        0 <= i < j < describable(list).len(),
    ensures
        exists|p: int, q: int|
            0 <= p < q < list.len() && #[trigger] list[p] == (
                describable(list)[i].0,
                Some(describable(list)[i].1),
            ) && #[trigger] list[q] == (describable(list)[j].0, Some(describable(list)[j].1)),
    decreases list.len(),
{
    let rest = list.drop_last();
    let (all, some) = (describable(list), describable(rest));
    if j < some.len() {
        law_locations_in_order(rest, i, j);
        let (p, q) = choose|p: int, q: int|
            0 <= p < q < rest.len() && #[trigger] rest[p] == (some[i].0, Some(some[i].1))
                && #[trigger] rest[q] == (some[j].0, Some(some[j].1));
        assert(list[p] == rest[p] && list[q] == rest[q]);
        assert(all[i] == some[i] && all[j] == some[j]);
    } else {
        law_every_location_is_listed(rest, all[i].0, all[i].1);
        assert(some[i] == all[i]);
        assert(some.contains(some[i]));
        let p = choose|p: int| 0 <= p < rest.len() && rest[p] == (all[i].0, Some(all[i].1));
        assert(list[p] == rest[p]);
        assert(list[list.len() - 1] == (all[j].0, Some(all[j].1)));
    }
}

/// The renderers that are remembered after a run of answers.
pub open spec fn after_answers(answers: Seq<(SsdpText, IpAddr)>) -> Seq<RendererText>
    decreases answers.len(),
{
    if answers.len() == 0 {
        Seq::empty()
    } else {
        after_answer(after_answers(answers.drop_last()), answers.last().0, answers.last().1)
    }
}

/// Answer `i` is the first that a renderer at the address gave.
pub open spec fn is_first_answer(answers: Seq<(SsdpText, IpAddr)>, i: int, a: IpAddr) -> bool {
    &&& 0 <= i < answers.len()
    &&& answers[i].1 == a
    &&& is_renderer(answers[i].0)
    &&& forall|k: int|
        0 <= k < i ==> !(is_renderer((#[trigger] answers[k]).0) && answers[k].1 == a)
}

/// Whatever answers come in, every renderer among them is remembered once, with the
/// description URL of its first answer, and nothing else is.
pub proof fn law_search_remembers(answers: Seq<(SsdpText, IpAddr)>, a: IpAddr)
    ensures
        each_once(after_answers(answers)),
        has_renderer(after_answers(answers), a) <==> exists|i: int|
            0 <= i < answers.len() && is_renderer((#[trigger] answers[i]).0) && answers[i].1 == a,
        forall|i: int| #[trigger]
            is_first_answer(answers, i, a) ==> after_answers(answers).contains(
                (a, answers[i].0.location),
            ),
    decreases answers.len(),
{
    let list = after_answers(answers);
    if answers.len() > 0 {
        let rest = answers.drop_last();
        let before = after_answers(rest);
        let (resp, source) = answers.last();
        law_search_remembers(rest, a);
        if list != before {
            law_renderers_once(before, source, resp.location);
            assert(list[before.len() as int].0 == source);
        }
        if has_renderer(before, a) {
            let k = choose|k: int| 0 <= k < before.len() && (#[trigger] before[k]).0 == a;
            assert(list[k].0 == a);
            let i = choose|i: int|
                0 <= i < rest.len() && is_renderer((#[trigger] rest[i]).0) && rest[i].1 == a;
            assert(answers[i] == rest[i]);
        }
        if has_renderer(list, a) && !has_renderer(before, a) {
            let k = choose|k: int| 0 <= k < list.len() && (#[trigger] list[k]).0 == a;
            if k < before.len() {
                assert(before[k].0 == a);
            }
            assert(answers[answers.len() - 1].1 == a);
        }
        if exists|i: int|
            0 <= i < answers.len() && is_renderer((#[trigger] answers[i]).0) && answers[i].1 == a {
            let i = choose|i: int|
                0 <= i < answers.len() && is_renderer((#[trigger] answers[i]).0) && answers[i].1
                    == a;
            if i < rest.len() {
                assert(rest[i] == answers[i]);
            }
        }
        assert forall|i: int| #[trigger] is_first_answer(answers, i, a) implies list.contains(
            (a, answers[i].0.location),
        ) by {
            if i < rest.len() {
                assert(rest[i] == answers[i]);
                assert forall|k: int| 0 <= k < i implies !(is_renderer((#[trigger] rest[k]).0)
                    && rest[k].1 == a) by {
                    assert(answers[k] == rest[k]);
                }
                assert(is_first_answer(rest, i, a));
                let m = choose|m: int|
                    0 <= m < before.len() && before[m] == (a, rest[i].0.location);
                assert(list[m] == (a, answers[i].0.location));
            } else {
                if has_renderer(before, a) {
                    let k = choose|k: int|
                        0 <= k < rest.len() && is_renderer((#[trigger] rest[k]).0) && rest[k].1
                            == a;
                    assert(answers[k] == rest[k]);
                }
                assert(list.last() == (a, answers[i].0.location));
            }
        }
    }
}

/// The line is a header of the name `key`, in any case, with a value.
pub open spec fn is_header(line: Seq<char>, key: Seq<char>) -> bool {
    split_once(line, ':') matches Some((k, v)) && lowered(trimmed(k)) == key && trimmed(v).len()
        > 0
}

/// The value of a header line.
pub open spec fn header_value(line: Seq<char>) -> Seq<char> {
    match split_once(line, ':') {
        Some((_, value)) => trimmed(value),
        None => Seq::empty(),
    }
}

/// Line `i` is the last with a header of one of the two names.
pub open spec fn is_last_header(
    lines: Seq<Seq<char>>,
    i: int,
    key: Seq<char>,
    other: Seq<char>,
) -> bool {
    &&& 0 <= i < lines.len()
    &&& is_header(lines[i], key) || is_header(lines[i], other)
    &&& forall|k: int|
        i < k < lines.len() ==> !is_header(#[trigger] lines[k], key) && !is_header(lines[k], other)
}

/// No line is a header of one of the two names.
pub open spec fn has_no_header(lines: Seq<Seq<char>>, key: Seq<char>, other: Seq<char>) -> bool {
    forall|k: int|
        0 <= k < lines.len() ==> !is_header(#[trigger] lines[k], key) && !is_header(
            lines[k],
            other,
        )
}

/// Each of the four fields of a response is the value of the last header with its name, or is
/// missing where there is none: `LOCATION`, `USN`, `SERVER`, and `ST` or `NT`.
pub proof fn law_headers_are_read(raw: Seq<char>, lines: Seq<Seq<char>>)
    requires
        lines == split(raw, seq!['\n']),
    ensures
        forall|i: int| #[trigger]
            is_last_header(lines, i, "location"@, "location"@) ==> ssdp_of(raw).location == Some(
                header_value(lines[i]),
            ),
        forall|i: int| #[trigger]
            is_last_header(lines, i, "usn"@, "usn"@) ==> ssdp_of(raw).usn == Some(
                header_value(lines[i]),
            ),
        forall|i: int| #[trigger]
            is_last_header(lines, i, "server"@, "server"@) ==> ssdp_of(raw).server == Some(
                header_value(lines[i]),
            ),
        forall|i: int| #[trigger]
            is_last_header(lines, i, "st"@, "nt"@) ==> ssdp_of(raw).st == Some(
                header_value(lines[i]),
            ),
        has_no_header(lines, "location"@, "location"@) ==> ssdp_of(raw).location is None,
        has_no_header(lines, "usn"@, "usn"@) ==> ssdp_of(raw).usn is None,
        has_no_header(lines, "server"@, "server"@) ==> ssdp_of(raw).server is None,
        has_no_header(lines, "st"@, "nt"@) ==> ssdp_of(raw).st is None,
{
    lemma_headers_are_read(lines);
}

proof fn lemma_headers_are_read(lines: Seq<Seq<char>>)
    ensures
        forall|i: int| #[trigger]
            is_last_header(lines, i, "location"@, "location"@) ==> with_lines(lines).location
                == Some(header_value(lines[i])),
        forall|i: int| #[trigger]
            is_last_header(lines, i, "usn"@, "usn"@) ==> with_lines(lines).usn == Some(
                header_value(lines[i]),
            ),
        forall|i: int| #[trigger]
            is_last_header(lines, i, "server"@, "server"@) ==> with_lines(lines).server == Some(
                header_value(lines[i]),
            ),
        forall|i: int| #[trigger]
            is_last_header(lines, i, "st"@, "nt"@) ==> with_lines(lines).st == Some(
                header_value(lines[i]),
            ),
        has_no_header(lines, "location"@, "location"@) ==> with_lines(lines).location is None,
        has_no_header(lines, "usn"@, "usn"@) ==> with_lines(lines).usn is None,
        has_no_header(lines, "server"@, "server"@) ==> with_lines(lines).server is None,
        has_no_header(lines, "st"@, "nt"@) ==> with_lines(lines).st is None,
    decreases lines.len(),
{
    if lines.len() > 0 {
        let rest = lines.drop_last();
        lemma_headers_are_read(rest);
        lemma_header_names();
        assert forall|i: int, key: Seq<char>, other: Seq<char>| #[trigger]
            is_last_header(lines, i, key, other) && i < rest.len() implies is_last_header(
            rest,
            i,
            key,
            other,
        ) && rest[i] == lines[i] && !is_header(lines.last(), key) && !is_header(
            lines.last(),
            other,
        ) by {
            assert(rest[i] == lines[i]);
            assert forall|k: int| i < k < rest.len() implies !is_header(#[trigger] rest[k], key)
                && !is_header(rest[k], other) by {
                assert(rest[k] == lines[k]);
            }
            assert(lines[lines.len() - 1] == lines.last());
        }
        assert forall|key: Seq<char>, other: Seq<char>| #[trigger]
            has_no_header(lines, key, other) implies has_no_header(rest, key, other) && !is_header(
            lines.last(),
            key,
        ) && !is_header(lines.last(), other) by {
            assert forall|k: int| 0 <= k < rest.len() implies !is_header(#[trigger] rest[k], key)
                && !is_header(rest[k], other) by {
                assert(rest[k] == lines[k]);
            }
            assert(lines[lines.len() - 1] == lines.last());
        }
    }
}

/// The names of the headers are different.
proof fn lemma_header_names()
    ensures
        "location"@ != "usn"@ && "location"@ != "server"@ && "location"@ != "st"@ && "location"@
            != "nt"@,
        "usn"@ != "server"@ && "usn"@ != "st"@ && "usn"@ != "nt"@,
        "server"@ != "st"@ && "server"@ != "nt"@ && "st"@ != "nt"@,
{
    reveal_strlit("location");
    reveal_strlit("usn");
    reveal_strlit("server");
    reveal_strlit("st");
    reveal_strlit("nt");
    assert("location"@.len() == 8 && "usn"@.len() == 3 && "server"@.len() == 6);
    assert("st"@.len() == 2 && "nt"@.len() == 2);
    assert("st"@[0] != "nt"@[0]);
}

/// The port in a URL with a scheme, a host and a port is that port, whatever path follows,
/// and whatever colons stand in the host, as those of an IPv6 address do.
pub proof fn law_port_is_read(scheme: Seq<char>, host: Seq<char>, port: nat, path: Seq<char>)
    requires
        forall|i: int| 0 <= i < scheme.len() ==> #[trigger] scheme[i] != ':',
        forall|i: int| 0 <= i < host.len() ==> #[trigger] host[i] != '/',
        port <= 0xFFFF,
        path.len() > 0 ==> path[0] == '/',
    ensures
        port_of(scheme + "://"@ + host + ":"@ + decimal(port) + path) == Some(port),
{
    reveal_strlit("://");
    reveal_strlit(":");
    lemma_decimal(port);
    let digits = decimal(port);
    let authority = host + ":"@ + digits;
    lemma_authority(scheme, authority, path);
    lemma_last_colon(host, digits);
    assert(scheme + "://"@ + host + ":"@ + decimal(port) + path =~= scheme + "://"@ + authority
        + path);
    assert(authority.skip(host.len() as int + 1) =~= digits);
    law_decimal_round_trip(port, 0xFFFF);
}

/// A URL whose authority has no colon gives no port.
pub proof fn law_no_port_without_colon(scheme: Seq<char>, host: Seq<char>, path: Seq<char>)
    requires
        forall|i: int| 0 <= i < scheme.len() ==> #[trigger] scheme[i] != ':',
        forall|i: int| 0 <= i < host.len() ==> #[trigger] host[i] != '/' && host[i] != ':',
        path.len() > 0 ==> path[0] == '/',
    ensures
        port_of(scheme + "://"@ + host + path) is None,
{
    reveal_strlit("://");
    lemma_authority(scheme, host, path);
    lemma_no_last(host, ':');
}

/// The authority of a URL stands between its scheme and its path.
proof fn lemma_authority(scheme: Seq<char>, authority: Seq<char>, path: Seq<char>)
    requires
        forall|i: int| 0 <= i < scheme.len() ==> #[trigger] scheme[i] != ':',
        forall|i: int| 0 <= i < authority.len() ==> #[trigger] authority[i] != '/',
        authority.len() > 0 ==> authority.last() != ':',
        path.len() > 0 ==> path[0] == '/',
    ensures
        ({
            let parts = split(scheme + "://"@ + authority + path, "://"@);
            parts.len() >= 2 && before(parts[1], '/') == authority
        }),
{
    reveal_strlit("://");
    let mark = "://"@;
    let n = scheme.len() as int;
    let m = authority.len() as int;
    let url = scheme + mark + authority + path;
    assert(url.subrange(n, n + 3) =~= mark);
    assert forall|j: int| 0 <= j < n implies !occurs_at(url, mark, j) by {
        if occurs_at(url, mark, j) {
            assert(url.subrange(j, j + 3)[0] == url[j]);
            assert(url[j] == scheme[j]);
        }
    }
    lemma_find_is(url, mark, 0, n);
    let rest = url.skip(n + 3);
    assert(rest =~= authority + path);
    lemma_find_from(rest, mark, 0);
    let parts = split(url, mark);
    let more = split(rest, mark);
    assert(parts =~= seq![url.take(n)] + more);
    let piece = more[0];
    assert(parts[1] == piece);
    // No mark begins in the authority: it would have a slash in it, or end in a colon.
    assert forall|j: int| 0 <= j < m implies !occurs_at(rest, mark, j) by {
        if occurs_at(rest, mark, j) {
            assert(rest.subrange(j, j + 3)[0] == rest[j]);
            assert(rest.subrange(j, j + 3)[1] == rest[j + 1]);
            assert(rest[j] == authority[j]);
            if j + 1 < m {
                assert(rest[j + 1] == authority[j + 1]);
            }
        }
    }
    assert(m <= piece.len());
    assert(piece.take(m) =~= authority);
    assert forall|j: int| 0 <= j < m implies !occurs_at(piece, seq!['/'], j) by {
        if occurs_at(piece, seq!['/'], j) {
            assert(piece.subrange(j, j + 1)[0] == piece[j]);
            assert(piece.take(m)[j] == authority[j]);
        }
    }
    if m < piece.len() {
        assert(piece[m] == rest[m] && rest[m] == path[0]);
        assert(piece.subrange(m, m + 1) =~= seq!['/']);
        lemma_find_is(piece, seq!['/'], 0, m);
    } else {
        lemma_find_from(piece, seq!['/'], 0);
        assert(find(piece, seq!['/']) is None);
        assert(piece =~= authority);
    }
}

proof fn lemma_last_colon(host: Seq<char>, digits: Seq<char>)
    requires
        all_digits(digits),
    ensures
        find_last(host + ":"@ + digits, ':') == Some(host.len() as int),
    decreases digits.len(),
{
    reveal_strlit(":");
    let s = host + ":"@ + digits;
    if digits.len() > 0 {
        assert(s.last() == digits.last());
        assert(is_digit(digits[digits.len() - 1]));
        assert(all_digits(digits.drop_last())) by {
            assert forall|i: int| 0 <= i < digits.drop_last().len() implies is_digit(
                #[trigger] digits.drop_last()[i],
            ) by {
                assert(is_digit(digits[i]));
            }
        }
        lemma_last_colon(host, digits.drop_last());
        assert(s.drop_last() =~= host + ":"@ + digits.drop_last());
    }
}

proof fn lemma_no_last(s: Seq<char>, c: char)
    requires
        forall|i: int| 0 <= i < s.len() ==> #[trigger] s[i] != c,
    ensures
        find_last(s, c) is None,
    decreases s.len(),
{
    if s.len() > 0 {
        assert(s[s.len() - 1] != c);
        lemma_no_last(s.drop_last(), c);
    }
}

/// A response is that of a renderer exactly where its search target or its USN speaks of a
/// MediaRenderer, in any case: other text before or after it, and the other headers, do not
/// matter.
pub proof fn law_renderer_is_recognised(resp: SsdpText, before: Seq<char>, name: Seq<char>, after: Seq<char>)
    requires
        lowered(name) == "mediarenderer"@,
        resp.st == Some(before + name + after) || resp.usn == Some(before + name + after),
    ensures
        is_renderer(resp),
{
    let text = before + name + after;
    let low = lowered(text);
    let n = before.len() as int;
    assert(low.subrange(n, n + name.len()) =~= lowered(name));
    assert("mediarenderer"@.len() == name.len());
    assert(occurs_at(low, "mediarenderer"@, n));
    lemma_find_from(low, "mediarenderer"@, 0);
}

/// A renderer is sighted where it answered from, as a DLNA device, with its USN as its
/// identity, its URL, and the port in that URL, or 0 where there is none.
pub proof fn law_renderer_is_sighted(resp: SsdpText, address: IpAddr)
    ensures
        ({
            let obs = renderer_sighting(resp, address);
            &&& obs.address == address
            &&& obs.stable_id == resp.usn
            &&& obs.dlna_location == resp.location
            &&& obs.protocol is Dlna
            &&& obs.name is None && obs.dlna_control_url is None
            &&& resp.location matches Some(l) ==> match port_of(l) {
                Some(p) => obs.port == p,
                None => obs.port == 0,
            }
            &&& resp.location is None ==> obs.port == 0
        }),
{
    if let Some(l) = resp.location {
        if let Some(p) = port_of(l) {
            assert(p <= 0xFFFF);
        }
    }
}

/// A renderer that was sighted and then described is known by all of it: its port, URL and
/// identity come from its answer, its name and its absolute control URL from its description,
/// in whichever order the two came.
pub proof fn law_description_completes_the_sighting(
    entries: Map<IpAddr, EntryText>,
    resp: SsdpText,
    address: IpAddr,
    location: Seq<char>,
    desc: DescriptionText,
    now: nat,
    later: nat,
)
    requires
        !entries.contains_key(address),
        resp.location == Some(location) && location.len() > 0,
        is_given(resp.usn),
        is_given(desc.friendly_name),
        desc.av_transport_control_url is Some,
        resolved(location, desc.av_transport_control_url->0) is Some,
        is_given(resolved(location, desc.av_transport_control_url->0)),
    ensures
        described_sighting(address, location, desc) is Some,
        ({
            let seen = renderer_sighting(resp, address);
            let described = described_sighting(address, location, desc)->0;
            let e = observed(observed(entries, seen, now), described, later)[address];
            let f = observed(observed(entries, described, now), seen, later)[address];
            &&& e == f
            &&& e.name == desc.friendly_name
            &&& e.identities.contains(resp.usn->0)
            &&& e.port == seen.port
            &&& e.dlna_location == Some(location)
            &&& e.dlna_control_url == resolved(location, desc.av_transport_control_url->0)
            &&& e.protocols.contains(Protocol::Dlna)
            &&& e.last_seen == later
        }),
{
    let seen = renderer_sighting(resp, address);
    let described = described_sighting(address, location, desc)->0;
    let e = observed(observed(entries, seen, now), described, later)[address];
    let f = observed(observed(entries, described, now), seen, later)[address];
    assert(e =~= f);
}

/// A description adds to what is known of a renderer exactly where it gives a name or a
/// control URL that can be resolved.
pub proof fn law_description_adds(address: IpAddr, location: Seq<char>, desc: DescriptionText)
    ensures
        match described_sighting(address, location, desc) {
            Some(obs) => {
                &&& obs.address == address
                &&& obs.name == desc.friendly_name
                &&& obs.dlna_control_url is Some ==> desc.av_transport_control_url is Some
                &&& desc.av_transport_control_url matches Some(u) ==> obs.dlna_control_url
                    == resolved(location, u)
                &&& obs.name is Some || obs.dlna_control_url is Some
                &&& obs.port == 0 && obs.stable_id is None && obs.dlna_location is None
                &&& obs.protocol is Dlna
            },
            None => desc.friendly_name is None && (desc.av_transport_control_url matches Some(
                u,
            ) ==> resolved(location, u) is None),
        },
{
}

/// Nothing but the search target and the USN makes a response that of a renderer, and only
/// where MediaRenderer stands in one of the two.
pub proof fn law_nothing_else_is_a_renderer(resp: SsdpText)
    ensures
        is_renderer(resp) ==> (resp.st matches Some(t) && exists|i: int| #[trigger]
            occurs_at(lowered(t), "mediarenderer"@, i)) || (resp.usn matches Some(t) && exists|
            i: int,
        | #[trigger] occurs_at(lowered(t), "mediarenderer"@, i)),
{
    if let Some(t) = resp.st {
        lemma_find_from(lowered(t), "mediarenderer"@, 0);
    }
    if let Some(t) = resp.usn {
        lemma_find_from(lowered(t), "mediarenderer"@, 0);
    }
}

} // verus!
