//! UPnP AV / DLNA helpers: device-description parsing and AVTransport SOAP control.

use vstd::prelude::*;
use vstd::slice::slice_subrange;
use vstd::utf8::encode_utf8;
use vstd::utf8::encode_utf8_decode_utf8;

use crate::bytes::same_bytes;
use crate::net::live_stream::DLNA_LIVE_FEATURES;
use crate::net::media_server::DLNA_CONTENT_FEATURES;
use crate::net::xml::content_of;
use crate::net::xml::is_last;
use crate::net::xml::next_event;
use crate::net::xml::open_document;
use crate::net::xml::text_content;
use crate::net::xml::upcoming;
use crate::net::xml::xml_events;
use crate::net::xml::XmlEvent;
use crate::net::xml::XmlItem;
use crate::pipeline::error::Error;
use crate::pipeline::error::ErrorKind;
use crate::pipeline::types::optional_text;
use crate::text::chars_of;
use crate::text::contains_text;
use crate::text::ends_with;
use crate::text::find;
use crate::text::find_char;
use crate::text::find_chars;
use crate::text::is_free_of;
use crate::text::law_cut_at_char;
use crate::text::lemma_find_from;
use crate::text::lemma_first_char;
use crate::text::lemma_find_is;
use crate::text::occurs_at;
use crate::text::split_once;
use crate::text::starts_with;
use crate::text::starts_with_text;
use crate::text::string_of;
use crate::text::trim_chars;
use crate::text::trimmed;

verus! {

/// AVTransport service type we control.
pub const AV_TRANSPORT: &'static str = "urn:schemas-upnp-org:service:AVTransport:1";

// --- Device descriptions -------------------------------------------------------------

/// The subset of a UPnP device description we need.
#[derive(Debug, Clone, PartialEq, Eq)]
pub struct DeviceDescription {
    /// Human-readable device name.
    pub friendly_name: Option<String>,
    /// `controlURL` of the AVTransport service (may be relative to the description URL).
    pub av_transport_control_url: Option<String>,
}

impl Default for DeviceDescription {
    fn default() -> (d: Self)
        ensures
            d.friendly_name is None,
            d.av_transport_control_url is None,
    {
        DeviceDescription { friendly_name: None, av_transport_control_url: None }
    }
}

/// What a device description says.
pub struct DescriptionText {
    pub friendly_name: Option<Seq<char>>,
    pub av_transport_control_url: Option<Seq<char>>,
}

impl View for DeviceDescription {
    type V = DescriptionText;

    open spec fn view(&self) -> DescriptionText {
        DescriptionText {
            friendly_name: optional_text(self.friendly_name),
            av_transport_control_url: optional_text(self.av_transport_control_url),
        }
    }
}

/// Which element's text is being read.
#[derive(Clone, Copy, PartialEq, Eq, Structural)]
pub enum Field {
    Nothing,
    Friendly,
    ServiceType,
    ControlUrl,
}

/// How far a description was read.
pub struct ScanText {
    pub found: DescriptionText,
    pub field: Field,
    pub in_service: bool,
    /// The type of the service being read.
    pub service_type: Seq<char>,
    /// The control URL of the service being read.
    pub control_url: Seq<char>,
}

/// Before the first event.
pub open spec fn scan_start() -> ScanText {
    ScanText {
        found: DescriptionText { friendly_name: None, av_transport_control_url: None },
        field: Field::Nothing,
        in_service: false,
        service_type: Seq::empty(),
        control_url: Seq::empty(),
    }
}

/// `name` is the tag name `tag`.
pub open spec fn is_tag(name: Seq<u8>, tag: Seq<char>) -> bool {
    name == encode_utf8(tag)
}

/// After a start tag. A service begins with nothing known of it; its type and its control
/// URL are read only inside of it.
pub open spec fn after_start(s: ScanText, name: Seq<u8>) -> ScanText {
    if is_tag(name, "service"@) {
        ScanText { in_service: true, service_type: Seq::empty(), control_url: Seq::empty(), ..s }
    } else if is_tag(name, "friendlyName"@) {
        ScanText { field: Field::Friendly, ..s }
    } else if is_tag(name, "serviceType"@) && s.in_service {
        ScanText { field: Field::ServiceType, ..s }
    } else if is_tag(name, "controlURL"@) && s.in_service {
        ScanText { field: Field::ControlUrl, ..s }
    } else {
        s
    }
}

/// After text. The first friendly name that is not blank is kept.
pub open spec fn after_text(s: ScanText, raw: Seq<u8>) -> ScanText {
    match text_content(raw) {
        None => s,
        Some(content) => {
            let text = trimmed(content);
            match s.field {
                Field::Nothing => s,
                Field::Friendly => if s.found.friendly_name is None && text.len() > 0 {
                    ScanText {
                        found: DescriptionText { friendly_name: Some(text), ..s.found },
                        ..s
                    }
                } else {
                    s
                },
                Field::ServiceType => ScanText { service_type: s.service_type + text, ..s },
                Field::ControlUrl => ScanText { control_url: s.control_url + text, ..s },
            }
        },
    }
}

/// After an end tag. The first AVTransport service with a control URL is kept.
pub open spec fn after_end(s: ScanText, name: Seq<u8>) -> ScanText {
    if is_tag(name, "service"@) {
        if s.in_service && find(s.service_type, "AVTransport"@) is Some
            && s.found.av_transport_control_url is None && s.control_url.len() > 0 {
            ScanText {
                found: DescriptionText {
                    av_transport_control_url: Some(s.control_url),
                    ..s.found
                },
                in_service: false,
                ..s
            }
        } else {
            ScanText { in_service: false, ..s }
        }
    } else if is_tag(name, "friendlyName"@) || is_tag(name, "serviceType"@) || is_tag(
        name,
        "controlURL"@,
    ) {
        ScanText { field: Field::Nothing, ..s }
    } else {
        s
    }
}

/// After an event.
pub open spec fn after_event(s: ScanText, item: XmlItem) -> ScanText {
    match item {
        XmlItem::Start(name) => after_start(s, name),
        XmlItem::Text(raw) => after_text(s, raw),
        XmlItem::End(name) => after_end(s, name),
        _ => s,
    }
}

/// After all events, up to the end of the document or the first place where it is not
/// well-formed.
pub open spec fn after_events(s: ScanText, items: Seq<XmlItem>) -> ScanText
    decreases items.len(),
{
    if items.len() == 0 || is_last(items[0]) {
        s
    } else {
        after_events(after_event(s, items[0]), items.skip(1))
    }
}

/// The description that a sequence of events holds.
pub open spec fn description_of(items: Seq<XmlItem>) -> DescriptionText {
    after_events(scan_start(), items).found
}

/// How far a description was read.
struct Scan {
    found: DeviceDescription,
    field: Field,
    in_service: bool,
    service_type: String,
    control_url: String,
}

impl View for Scan {
    type V = ScanText;

    closed spec fn view(&self) -> ScanText {
        ScanText {
            found: self.found@,
            field: self.field,
            in_service: self.in_service,
            service_type: self.service_type@,
            control_url: self.control_url@,
        }
    }
}

fn has_tag(name: &[u8], tag: &str) -> (r: bool)
    ensures
        r == is_tag(name@, tag@),
{
    same_bytes(name, tag.as_bytes())
}

impl Scan {
    fn new() -> (s: Scan)
        ensures
            s@ == scan_start(),
    {
        Scan {
            found: DeviceDescription::default(),
            field: Field::Nothing,
            in_service: false,
            service_type: String::new(),
            control_url: String::new(),
        }
    }

    fn start_tag(&mut self, name: &[u8])
        ensures
            final(self)@ == after_start(old(self)@, name@),
    {
        if has_tag(name, "service") {
            self.in_service = true;
            self.service_type = String::new();
            self.control_url = String::new();
        } else if has_tag(name, "friendlyName") {
            self.field = Field::Friendly;
        } else if has_tag(name, "serviceType") && self.in_service {
            self.field = Field::ServiceType;
        } else if has_tag(name, "controlURL") && self.in_service {
            self.field = Field::ControlUrl;
        }
    }

    fn text(&mut self, raw: &[u8])
        ensures
            final(self)@ == after_text(old(self)@, raw@),
    {
        if let Some(content) = content_of(raw) {
            let chars: Vec<char> = chars_of(content.as_str());
            let text: String = string_of(trim_chars(&chars));
            match self.field {
                Field::Nothing => {},
                Field::Friendly => {
                    if self.found.friendly_name.is_none() && !text.as_str().is_empty() {
                        self.found.friendly_name = Some(text);
                    }
                },
                Field::ServiceType => {
                    self.service_type.append(text.as_str());
                },
                Field::ControlUrl => {
                    self.control_url.append(text.as_str());
                },
            }
        }
    }

    fn end_tag(&mut self, name: &[u8])
        ensures
            final(self)@ == after_end(old(self)@, name@),
    {
        if has_tag(name, "service") {
            let kind: Vec<char> = chars_of(self.service_type.as_str());
            if self.in_service && contains_text(&kind, "AVTransport")
                && self.found.av_transport_control_url.is_none()
                && !self.control_url.as_str().is_empty() {
                self.found.av_transport_control_url = Some(self.control_url.clone());
            }
            self.in_service = false;
        } else if has_tag(name, "friendlyName") || has_tag(name, "serviceType") || has_tag(
            name,
            "controlURL",
        ) {
            self.field = Field::Nothing;
        }
    }

    /// Take in an event. Says whether it was not the last.
    fn event(&mut self, event: &XmlEvent) -> (more: bool)
        ensures
            more == !is_last(event@),
            final(self)@ == after_event(old(self)@, event@),
    {
        match event {
            XmlEvent::Start(name) => {
                self.start_tag(name);
                true
            },
            XmlEvent::Text(raw) => {
                self.text(raw);
                true
            },
            XmlEvent::End(name) => {
                self.end_tag(name);
                true
            },
            XmlEvent::Other => true,
            XmlEvent::Eof => false,
            XmlEvent::Malformed => false,
        }
    }
}

/// What a list of events says.
pub open spec fn event_items(events: Seq<XmlEvent>) -> Seq<XmlItem> {
    events.map_values(|e: XmlEvent| e@)
}

/// The description that a sequence of XML events holds.
pub fn describe(events: &Vec<XmlEvent>) -> (d: DeviceDescription)
    ensures
        d@ == description_of(event_items(events@)),
{
    let mut scan = Scan::new();
    let ghost items = event_items(events@);
    let mut i: usize = 0;
    assert(items.skip(0) =~= items);
    while i < events.len()
        invariant
            i <= events@.len(),
            items == event_items(events@),
            after_events(scan@, items.skip(i as int)) == after_events(scan_start(), items),
        decreases events@.len() - i,
    {
        assert(items.skip(i as int)[0] == events@[i as int]@);
        assert(items.skip(i as int).skip(1) =~= items.skip(i + 1));
        if !scan.event(&events[i]) {
            return scan.found;
        }
        i += 1;
    }
    scan.found
}

/// Parse a UPnP device description XML document. Lenient: returns whatever fields it
/// can find and never panics on malformed input.
#[must_use]
pub fn parse_device_description(xml: &str) -> (d: DeviceDescription)
    ensures
        d@ == description_of(xml_events(xml@)),
{
    let mut reader = open_document(xml);
    let mut scan = Scan::new();
    loop
        invariant
            upcoming(reader).len() > 0,
            after_events(scan@, upcoming(reader)) == after_events(scan_start(), xml_events(xml@)),
        decreases upcoming(reader).len(),
    {
        let event: XmlEvent = next_event(&mut reader);
        if !scan.event(&event) {
            return scan.found;
        }
    }
}

/// What was found stays found: the rest of the document does not change it.
pub proof fn law_first_find_is_kept(s: ScanText, items: Seq<XmlItem>)
    ensures
        s.found.friendly_name is Some ==> after_events(s, items).found.friendly_name
            == s.found.friendly_name,
        s.found.av_transport_control_url is Some ==> after_events(
            s,
            items,
        ).found.av_transport_control_url == s.found.av_transport_control_url,
    decreases items.len(),
{
    if items.len() > 0 && !is_last(items[0]) {
        law_first_find_is_kept(after_event(s, items[0]), items.skip(1));
    }
}

/// A name or a control URL that is found is not empty.
pub proof fn law_finds_are_not_empty(items: Seq<XmlItem>)
    ensures
        description_of(items).friendly_name matches Some(name) ==> name.len() > 0,
        description_of(items).av_transport_control_url matches Some(url) ==> url.len() > 0,
{
    lemma_finds_are_not_empty(scan_start(), items);
}

proof fn lemma_finds_are_not_empty(s: ScanText, items: Seq<XmlItem>)
    requires
        s.found.friendly_name matches Some(name) ==> name.len() > 0,
        s.found.av_transport_control_url matches Some(url) ==> url.len() > 0,
    ensures
        after_events(s, items).found.friendly_name matches Some(name) ==> name.len() > 0,
        after_events(s, items).found.av_transport_control_url matches Some(url) ==> url.len() > 0,
    decreases items.len(),
{
    if items.len() > 0 && !is_last(items[0]) {
        lemma_finds_are_not_empty(after_event(s, items[0]), items.skip(1));
    }
}

/// `name` is one of the four tags that a description is read by.
pub open spec fn is_read_tag(name: Seq<u8>) -> bool {
    ||| is_tag(name, "service"@)
    ||| is_tag(name, "friendlyName"@)
    ||| is_tag(name, "serviceType"@)
    ||| is_tag(name, "controlURL"@)
}

/// Events among which there is neither one of the four tags nor the end of the document:
/// other elements, and text.
pub open spec fn is_aside(items: Seq<XmlItem>) -> bool {
    forall|i: int|
        0 <= i < items.len() ==> match #[trigger] items[i] {
            XmlItem::Start(name) => !is_read_tag(name),
            XmlItem::End(name) => !is_read_tag(name),
            XmlItem::Text(_) => true,
            XmlItem::Other => true,
            _ => false,
        }
}

/// The events of an element that holds one piece of text.
pub open spec fn element(tag: Seq<char>, raw: Seq<u8>) -> Seq<XmlItem> {
    seq![
        XmlItem::Start(encode_utf8(tag)),
        XmlItem::Text(raw),
        XmlItem::End(encode_utf8(tag)),
    ]
}

/// The text in a piece of raw text, without white space around it; nothing where it is not
/// UTF-8.
pub open spec fn text_in(raw: Seq<u8>) -> Seq<char> {
    match text_content(raw) {
        Some(content) => trimmed(content),
        None => Seq::empty(),
    }
}

/// A service in a description, with what stands before it, between its parts and after
/// them. Its two parts come in either order.
pub struct ServiceItems {
    pub lead: Seq<XmlItem>,
    pub opening: Seq<XmlItem>,
    pub kind: Seq<u8>,
    pub between: Seq<XmlItem>,
    pub url: Seq<u8>,
    pub closing: Seq<XmlItem>,
    pub url_first: bool,
}

/// The events of a service.
pub open spec fn service_items(v: ServiceItems) -> Seq<XmlItem> {
    let kind = element("serviceType"@, v.kind);
    let url = element("controlURL"@, v.url);
    v.lead + seq![XmlItem::Start(encode_utf8("service"@))] + v.opening + (if v.url_first {
        url
    } else {
        kind
    }) + v.between + (if v.url_first {
        kind
    } else {
        url
    }) + v.closing + seq![XmlItem::End(encode_utf8("service"@))]
}

/// Nothing that a description is read by stands around the parts of the service.
pub open spec fn is_service(v: ServiceItems) -> bool {
    is_aside(v.lead) && is_aside(v.opening) && is_aside(v.between) && is_aside(v.closing)
}

/// The service plays media, and says how it is controlled.
pub open spec fn is_usable(v: ServiceItems) -> bool {
    find(text_in(v.kind), "AVTransport"@) is Some && text_in(v.url).len() > 0
}

/// The events of services, one after the other.
pub open spec fn services_items(services: Seq<ServiceItems>) -> Seq<XmlItem>
    decreases services.len(),
{
    if services.len() == 0 {
        Seq::empty()
    } else {
        service_items(services[0]) + services_items(services.skip(1))
    }
}

/// The four tags are different.
proof fn lemma_tags()
    ensures
        ({
            let (a, b, c, d) = (
                encode_utf8("service"@),
                encode_utf8("friendlyName"@),
                encode_utf8("serviceType"@),
                encode_utf8("controlURL"@),
            );
            a != b && a != c && a != d && b != c && b != d && c != d
        }),
{
    reveal_strlit("service");
    reveal_strlit("friendlyName");
    reveal_strlit("serviceType");
    reveal_strlit("controlURL");
    encode_utf8_decode_utf8("service"@);
    encode_utf8_decode_utf8("friendlyName"@);
    encode_utf8_decode_utf8("serviceType"@);
    encode_utf8_decode_utf8("controlURL"@);
}

/// Events are read one after the other.
proof fn lemma_after_concat(s: ScanText, a: Seq<XmlItem>, b: Seq<XmlItem>)
    requires
        forall|i: int| 0 <= i < a.len() ==> !is_last(#[trigger] a[i]),
    ensures
        after_events(s, a + b) == after_events(after_events(s, a), b),
    decreases a.len(),
{
    if a.len() == 0 {
        assert(a + b =~= b);
    } else {
        assert((a + b)[0] == a[0]);
        assert((a + b).skip(1) =~= a.skip(1) + b);
        assert forall|i: int| 0 <= i < a.skip(1).len() implies !is_last(
            #[trigger] a.skip(1)[i],
        ) by {
            assert(a.skip(1)[i] == a[i + 1]);
        }
        lemma_after_concat(after_event(s, a[0]), a.skip(1), b);
    }
}

/// Text outside of the elements that a description is read by changes nothing, nor do
/// other elements.
pub proof fn law_other_text_is_ignored(s: ScanText, items: Seq<XmlItem>)
    requires
        s.field is Nothing,
        is_aside(items),
    ensures
        after_events(s, items) == s,
    decreases items.len(),
{
    if items.len() > 0 {
        assert(after_event(s, items[0]) == s);
        assert forall|i: int| 0 <= i < items.skip(1).len() implies #[trigger] items.skip(1)[i]
            == items[i + 1] by {}
        law_other_text_is_ignored(s, items.skip(1));
    }
}

/// An element with text, read from a state in which no element was open.
proof fn lemma_element(s: ScanText, tag: Seq<char>, raw: Seq<u8>)
    requires
        tag == "friendlyName"@ || tag == "serviceType"@ || tag == "controlURL"@,
        s.field is Nothing,
        s.in_service || tag == "friendlyName"@,
    ensures
        ({
            let after = after_events(s, element(tag, raw));
            &&& after.field is Nothing
            &&& after.in_service == s.in_service
            &&& after.found.av_transport_control_url == s.found.av_transport_control_url
            &&& tag == "serviceType"@ ==> after.service_type == s.service_type + text_in(raw)
                && after.control_url == s.control_url && after.found == s.found
            &&& tag == "controlURL"@ ==> after.control_url == s.control_url + text_in(raw)
                && after.service_type == s.service_type && after.found == s.found
            &&& tag == "friendlyName"@ ==> after.service_type == s.service_type
                && after.control_url == s.control_url && after.found.friendly_name == (if
            s.found.friendly_name is None && text_in(raw).len() > 0 {
                Some(text_in(raw))
            } else {
                s.found.friendly_name
            })
        }),
{
    lemma_tags();
    let e = element(tag, raw);
    let s1 = after_event(s, e[0]);
    let s2 = after_event(s1, e[1]);
    let s3 = after_event(s2, e[2]);
    assert(e.skip(1)[0] == e[1] && e.skip(1).skip(1)[0] == e[2]);
    assert(e.skip(1).skip(1).skip(1) =~= Seq::<XmlItem>::empty());
    assert(after_events(s3, e.skip(1).skip(1).skip(1)) == s3);
    assert(after_events(s2, e.skip(1).skip(1)) == s3);
    assert(after_events(s1, e.skip(1)) == s3);
    assert(after_events(s, e) == s3);
    assert(s.service_type + Seq::<char>::empty() =~= s.service_type);
    assert(s.control_url + Seq::<char>::empty() =~= s.control_url);
}

/// A service, read from a state in which no element was open.
proof fn lemma_service(s: ScanText, v: ServiceItems)
    requires
        s.field is Nothing,
        is_service(v),
    ensures
        ({
            let after = after_events(s, service_items(v));
            &&& after.field is Nothing
            &&& after.found.friendly_name == s.found.friendly_name
            &&& after.found.av_transport_control_url == (if
            s.found.av_transport_control_url is None && is_usable(v) {
                Some(text_in(v.url))
            } else {
                s.found.av_transport_control_url
            })
        }),
        forall|i: int| 0 <= i < service_items(v).len() ==> !is_last(#[trigger] service_items(v)[i]),
{
    lemma_tags();
    let open = seq![XmlItem::Start(encode_utf8("service"@))];
    let close = seq![XmlItem::End(encode_utf8("service"@))];
    let (first, second) = if v.url_first {
        (element("controlURL"@, v.url), element("serviceType"@, v.kind))
    } else {
        (element("serviceType"@, v.kind), element("controlURL"@, v.url))
    };
    let i1 = v.lead + open;
    let i2 = i1 + v.opening;
    let i3 = i2 + first;
    let i4 = i3 + v.between;
    let i5 = i4 + second;
    let i6 = i5 + v.closing;
    assert(service_items(v) =~= i6 + close);
    lemma_after_concat(s, v.lead, open);
    law_other_text_is_ignored(s, v.lead);
    let s1 = after_event(s, open[0]);
    assert(open.skip(1) =~= Seq::<XmlItem>::empty());
    assert(after_events(s1, open.skip(1)) == s1);
    assert(after_events(s, i1) == s1);
    lemma_after_concat(s, i1, v.opening);
    law_other_text_is_ignored(s1, v.opening);
    lemma_after_concat(s, i2, first);
    if v.url_first {
        lemma_element(s1, "controlURL"@, v.url);
    } else {
        lemma_element(s1, "serviceType"@, v.kind);
    }
    let s2 = after_events(s1, first);
    lemma_after_concat(s, i3, v.between);
    law_other_text_is_ignored(s2, v.between);
    lemma_after_concat(s, i4, second);
    if v.url_first {
        lemma_element(s2, "serviceType"@, v.kind);
    } else {
        lemma_element(s2, "controlURL"@, v.url);
    }
    let s3 = after_events(s2, second);
    lemma_after_concat(s, i5, v.closing);
    law_other_text_is_ignored(s3, v.closing);
    assert(s3.service_type =~= text_in(v.kind));
    assert(s3.control_url =~= text_in(v.url));
    lemma_after_concat(s, i6, close);
    let s4 = after_event(s3, close[0]);
    assert(close.skip(1) =~= Seq::<XmlItem>::empty());
    assert(after_events(s4, close.skip(1)) == s4);
    assert(after_events(s, service_items(v)) == s4);
}

proof fn lemma_services(s: ScanText, services: Seq<ServiceItems>)
    requires
        s.field is Nothing,
        forall|i: int| 0 <= i < services.len() ==> is_service(#[trigger] services[i]),
    ensures
        ({
            let after = after_events(s, services_items(services));
            &&& after.field is Nothing
            &&& after.found.friendly_name == s.found.friendly_name
            &&& s.found.av_transport_control_url is Some || (forall|i: int|
                0 <= i < services.len() ==> !is_usable(#[trigger] services[i]))
                ==> after.found.av_transport_control_url == s.found.av_transport_control_url
            &&& forall|k: int|
                s.found.av_transport_control_url is None && 0 <= k < services.len() && is_usable(
                    #[trigger] services[k],
                ) && (forall|i: int| 0 <= i < k ==> !is_usable(#[trigger] services[i]))
                    ==> after.found.av_transport_control_url == Some(text_in(services[k].url))
        }),
        forall|i: int|
            0 <= i < services_items(services).len() ==> !is_last(
                #[trigger] services_items(services)[i],
            ),
    decreases services.len(),
{
    if services.len() > 0 {
        let one = service_items(services[0]);
        let rest = services.skip(1);
        lemma_service(s, services[0]);
        let s1 = after_events(s, one);
        assert forall|i: int| 0 <= i < rest.len() implies #[trigger] rest[i] == services[i + 1] by {
        }
        lemma_services(s1, rest);
        lemma_after_concat(s, one, services_items(rest));
        assert forall|k: int|
            s.found.av_transport_control_url is None && 0 <= k < services.len() && is_usable(
                #[trigger] services[k],
            ) && (forall|i: int| 0 <= i < k ==> !is_usable(#[trigger] services[i]))
            implies after_events(s, services_items(services)).found.av_transport_control_url
            == Some(text_in(services[k].url)) by {
            if k > 0 {
                assert(!is_usable(services[0]));
                assert(rest[k - 1] == services[k]);
                assert forall|i: int| 0 <= i < k - 1 implies !is_usable(#[trigger] rest[i]) by {
                    assert(!is_usable(services[i + 1]));
                }
            }
        }
        if forall|i: int| 0 <= i < services.len() ==> !is_usable(#[trigger] services[i]) {
            assert(!is_usable(services[0]));
            assert forall|i: int| 0 <= i < rest.len() implies !is_usable(#[trigger] rest[i]) by {
                assert(!is_usable(services[i + 1]));
            }
        }
    }
}

/// What is found in the description of a device: with any other elements and any text
/// before, between and after them, a friendly name that is not blank is its name, and the
/// control URL is that of the first service whose type speaks of AVTransport and that has
/// one. What follows, here `tail`, changes neither.
pub proof fn law_description_is_read(
    lead: Seq<XmlItem>,
    name: Seq<u8>,
    services: Seq<ServiceItems>,
    k: int,
    tail: Seq<XmlItem>,
)
    requires
        is_aside(lead),
        text_in(name).len() > 0,
        forall|i: int| 0 <= i < services.len() ==> is_service(#[trigger] services[i]),
        0 <= k < services.len(),
        is_usable(services[k]),
        forall|i: int| 0 <= i < k ==> !is_usable(#[trigger] services[i]),
    ensures
        description_of(lead + element("friendlyName"@, name) + services_items(services) + tail)
            == (DescriptionText {
            friendly_name: Some(text_in(name)),
            av_transport_control_url: Some(text_in(services[k].url)),
        }),
{
    let s = scan_start();
    let e = element("friendlyName"@, name);
    let list = services_items(services);
    law_other_text_is_ignored(s, lead);
    lemma_after_concat(s, lead, e);
    lemma_element(s, "friendlyName"@, name);
    let s1 = after_events(s, e);
    lemma_after_concat(s, lead + e, list);
    lemma_services(s1, services);
    let s2 = after_events(s1, list);
    lemma_after_concat(s, lead + e + list, tail);
    law_first_find_is_kept(s2, tail);
}

/// The control URL of a single AVTransport service is its own, whatever other elements and
/// text stand in the service, before its end too; its two parts come in either order.
pub proof fn law_control_url_is_found(v: ServiceItems, tail: Seq<XmlItem>)
    requires
        is_service(v),
        find(text_in(v.kind), "AVTransport"@) is Some,
        text_in(v.url).len() > 0,
    ensures
        description_of(service_items(v) + tail).av_transport_control_url == Some(text_in(v.url)),
{
    let s = scan_start();
    lemma_service(s, v);
    lemma_after_concat(s, service_items(v), tail);
    law_first_find_is_kept(after_events(s, service_items(v)), tail);
}

/// No control URL is taken from services whose types do not speak of AVTransport, nor from
/// those without a URL.
pub proof fn law_other_services_give_nothing(services: Seq<ServiceItems>, tail: Seq<XmlItem>)
    requires
        forall|i: int| 0 <= i < services.len() ==> is_service(#[trigger] services[i]),
        forall|i: int| 0 <= i < services.len() ==> !is_usable(#[trigger] services[i]),
        is_aside(tail),
    ensures
        description_of(services_items(services) + tail) == (DescriptionText {
            friendly_name: None,
            av_transport_control_url: None,
        }),
{
    let s = scan_start();
    lemma_services(s, services);
    lemma_after_concat(s, services_items(services), tail);
    law_other_text_is_ignored(after_events(s, services_items(services)), tail);
}

/// The events of an element whose text comes in two pieces.
pub open spec fn element_in_pieces(tag: Seq<char>, a: Seq<u8>, b: Seq<u8>) -> Seq<XmlItem> {
    seq![
        XmlItem::Start(encode_utf8(tag)),
        XmlItem::Text(a),
        XmlItem::Text(b),
        XmlItem::End(encode_utf8(tag)),
    ]
}

/// Text that comes in pieces, as it does around a comment, is put together for a type or a
/// URL, each piece without white space around it; of a name, the first piece that is not
/// blank counts.
pub proof fn law_text_in_pieces(s: ScanText, a: Seq<u8>, b: Seq<u8>)
    requires
        s.field is Nothing,
        s.in_service,
    ensures
        ({
            let after = after_events(s, element_in_pieces("serviceType"@, a, b));
            after.service_type == s.service_type + text_in(a) + text_in(b) && after.found
                == s.found && after.control_url == s.control_url && after.field is Nothing
        }),
        ({
            let after = after_events(s, element_in_pieces("controlURL"@, a, b));
            after.control_url == s.control_url + text_in(a) + text_in(b) && after.found == s.found
                && after.service_type == s.service_type && after.field is Nothing
        }),
        s.found.friendly_name is None ==> after_events(
            s,
            element_in_pieces("friendlyName"@, a, b),
        ).found.friendly_name == (if text_in(a).len() > 0 {
            Some(text_in(a))
        } else if text_in(b).len() > 0 {
            Some(text_in(b))
        } else {
            None
        }),
{
    lemma_tags();
    lemma_pieces(s, "serviceType"@, a, b);
    lemma_pieces(s, "controlURL"@, a, b);
    lemma_pieces(s, "friendlyName"@, a, b);
    let none = Seq::<char>::empty();
    assert forall|x: Seq<char>| #[trigger] (x + none) == x by {
        assert(x + none =~= x);
    }
}

/// Four events are read one after the other.
proof fn lemma_pieces(s: ScanText, tag: Seq<char>, a: Seq<u8>, b: Seq<u8>)
    ensures
        after_events(s, element_in_pieces(tag, a, b)) == after_end(
            after_text(after_text(after_start(s, encode_utf8(tag)), a), b),
            encode_utf8(tag),
        ),
{
    let e = element_in_pieces(tag, a, b);
    let s1 = after_event(s, e[0]);
    let s2 = after_event(s1, e[1]);
    let s3 = after_event(s2, e[2]);
    let s4 = after_event(s3, e[3]);
    let (e1, e2, e3) = (e.skip(1), e.skip(1).skip(1), e.skip(1).skip(1).skip(1));
    assert(e1[0] == e[1] && e2[0] == e[2] && e3[0] == e[3]);
    assert(e3.skip(1) =~= Seq::<XmlItem>::empty());
    assert(after_events(s4, e3.skip(1)) == s4);
    assert(after_events(s3, e3) == s4);
    assert(after_events(s2, e2) == s4);
    assert(after_events(s1, e1) == s4);
}

/// A type or a control URL outside of any service changes nothing.
pub proof fn law_parts_belong_to_a_service(s: ScanText, raw: Seq<u8>)
    requires
        s.field is Nothing,
        !s.in_service,
    ensures
        after_events(s, element("serviceType"@, raw)) == s,
        after_events(s, element("controlURL"@, raw)) == s,
{
    lemma_tags();
    lemma_part_outside(s, "serviceType"@, raw);
    lemma_part_outside(s, "controlURL"@, raw);
}

proof fn lemma_part_outside(s: ScanText, tag: Seq<char>, raw: Seq<u8>)
    requires
        s.field is Nothing,
        !s.in_service,
        tag == "serviceType"@ || tag == "controlURL"@,
    ensures
        after_events(s, element(tag, raw)) == s,
{
    lemma_tags();
    let e = element(tag, raw);
    let s1 = after_event(s, e[0]);
    let s2 = after_event(s1, e[1]);
    let s3 = after_event(s2, e[2]);
    assert(e.skip(1)[0] == e[1] && e.skip(1).skip(1)[0] == e[2]);
    assert(e.skip(1).skip(1).skip(1) =~= Seq::<XmlItem>::empty());
    assert(after_events(s3, e.skip(1).skip(1).skip(1)) == s3);
    assert(after_events(s2, e.skip(1).skip(1)) == s3);
    assert(after_events(s1, e.skip(1)) == s3);
}

/// Once a service has ended, what follows is outside of it.
pub proof fn law_service_ends(s: ScanText)
    ensures
        !after_end(s, encode_utf8("service"@)).in_service,
        after_start(s, encode_utf8("service"@)).in_service,
{
}

/// A document without a `friendlyName` element gives no name, and one without a `service`
/// element no control URL.
pub proof fn law_nothing_comes_from_elsewhere(items: Seq<XmlItem>)
    ensures
        (forall|i: int|
            0 <= i < items.len() ==> #[trigger] items[i] != XmlItem::Start(
                encode_utf8("friendlyName"@),
            )) ==> description_of(items).friendly_name is None,
        (forall|i: int|
            0 <= i < items.len() ==> #[trigger] items[i] != XmlItem::Start(encode_utf8("service"@)))
            ==> description_of(items).av_transport_control_url is None,
{
    if forall|i: int|
        0 <= i < items.len() ==> #[trigger] items[i] != XmlItem::Start(
            encode_utf8("friendlyName"@),
        ) {
        lemma_no_name(scan_start(), items);
    }
    if forall|i: int|
        0 <= i < items.len() ==> #[trigger] items[i] != XmlItem::Start(encode_utf8("service"@)) {
        lemma_no_service(scan_start(), items);
    }
}

proof fn lemma_no_name(s: ScanText, items: Seq<XmlItem>)
    requires
        !(s.field is Friendly),
        s.found.friendly_name is None,
        forall|i: int|
            0 <= i < items.len() ==> #[trigger] items[i] != XmlItem::Start(
                encode_utf8("friendlyName"@),
            ),
    ensures
        after_events(s, items).found.friendly_name is None,
    decreases items.len(),
{
    if items.len() > 0 && !is_last(items[0]) {
        assert forall|i: int| 0 <= i < items.skip(1).len() implies #[trigger] items.skip(1)[i]
            != XmlItem::Start(encode_utf8("friendlyName"@)) by {
            assert(items.skip(1)[i] == items[i + 1]);
        }
        lemma_no_name(after_event(s, items[0]), items.skip(1));
    }
}

proof fn lemma_no_service(s: ScanText, items: Seq<XmlItem>)
    requires
        !s.in_service,
        s.found.av_transport_control_url is None,
        forall|i: int|
            0 <= i < items.len() ==> #[trigger] items[i] != XmlItem::Start(encode_utf8("service"@)),
    ensures
        after_events(s, items).found.av_transport_control_url is None,
    decreases items.len(),
{
    if items.len() > 0 && !is_last(items[0]) {
        assert forall|i: int| 0 <= i < items.skip(1).len() implies #[trigger] items.skip(1)[i]
            != XmlItem::Start(encode_utf8("service"@)) by {
            assert(items.skip(1)[i] == items[i + 1]);
        }
        lemma_no_service(after_event(s, items[0]), items.skip(1));
    }
}

/// Reading stops at the end of the document, or where it is not well-formed: what comes
/// after has no part in the description.
pub proof fn law_reading_stops(items: Seq<XmlItem>, last: XmlItem, tail: Seq<XmlItem>)
    requires
        last is Eof || last is Malformed,
    ensures
        description_of(items.push(last) + tail) == description_of(items),
{
    lemma_reading_stops(scan_start(), items, last, tail);
}

proof fn lemma_reading_stops(
    s: ScanText,
    items: Seq<XmlItem>,
    last: XmlItem,
    tail: Seq<XmlItem>,
)
    requires
        is_last(last),
    ensures
        after_events(s, items.push(last) + tail) == after_events(s, items),
    decreases items.len(),
{
    let all = items.push(last) + tail;
    if items.len() > 0 {
        assert(all[0] == items[0]);
        if !is_last(items[0]) {
            lemma_reading_stops(after_event(s, items[0]), items.skip(1), last, tail);
            assert(all.skip(1) =~= items.skip(1).push(last) + tail);
        }
    }
}

// --- URLs ----------------------------------------------------------------------------

/// `url` is an absolute HTTP URL.
pub open spec fn is_http_url(url: Seq<char>) -> bool {
    starts_with(url, "http://"@) || starts_with(url, "https://"@)
}

/// The scheme and the authority at the front of a URL.
pub open spec fn url_base(location: Seq<char>) -> Option<Seq<char>> {
    match find(location, "://"@) {
        None => None,
        Some(i) => match find(location.skip(i + 3), seq!['/']) {
            None => Some(location),
            Some(n) => Some(location.take(i + 3 + n)),
        },
    }
}

/// What a control URL means in a description at `location`: itself where it is absolute,
/// else a path on the host of the description.
pub open spec fn resolved(location: Seq<char>, control_url: Seq<char>) -> Option<Seq<char>> {
    if is_http_url(control_url) {
        Some(control_url)
    } else {
        match url_base(location) {
            None => None,
            Some(base) => if starts_with(control_url, seq!['/']) {
                Some(base + control_url)
            } else {
                Some(base + "/"@ + control_url)
            },
        }
    }
}

/// Whether `url` is an absolute HTTP URL.
pub fn is_http(url: &str) -> (r: bool)
    ensures
        r == is_http_url(url@),
{
    let chars: Vec<char> = chars_of(url);
    starts_with_text(&chars, "http://") || starts_with_text(&chars, "https://")
}

/// Resolve a possibly-relative `controlURL` against the description's `location` URL.
#[must_use]
pub fn resolve_url(location: &str, control_url: &str) -> (r: Option<String>)
    ensures
        optional_text(r) == resolved(location@, control_url@),
{
    if is_http(control_url) {
        return Some(control_url.to_owned());
    }
    let chars: Vec<char> = chars_of(location);
    let mark: Vec<char> = chars_of("://");
    proof {
        reveal_strlit("://");
        lemma_find_from(location@, "://"@, 0);
    }
    let total: usize = chars.len();
    let scheme_end: usize = match find_chars(&chars, &mark) {
        None => {
            return None;
        },
        Some(i) => i + 3,
    };
    let after: &[char] = slice_subrange(&chars, scheme_end, total);
    assert(after@ =~= location@.skip(scheme_end as int));
    let base: &[char] = match find_char(after, '/') {
        None => &chars,
        Some(n) => slice_subrange(&chars, 0, scheme_end + n),
    };
    assert(Some(base@) == url_base(location@)) by {
        if let Some(n) = find(after@, seq!['/']) {
            assert(base@ =~= location@.take(scheme_end + n));
        }
    }
    let mut out: String = string_of(base);
    let path: Vec<char> = chars_of(control_url);
    let rooted: bool = path.len() > 0 && path[0] == '/';
    assert(rooted == starts_with(control_url@, seq!['/'])) by {
        if control_url@.len() > 0 {
            assert(control_url@.subrange(0, 1) =~= seq![control_url@[0]]);
            assert(seq![control_url@[0]][0] == control_url@[0]);
            assert(seq!['/'][0] == '/');
        }
    }
    if !rooted {
        out.append("/");
    }
    out.append(control_url);
    Some(out)
}

/// A control URL that is not absolute resolves to a URL on the host of the description, if
/// that names a host at all.
pub proof fn law_resolved_is_on_host(location: Seq<char>, control_url: Seq<char>)
    requires
        !is_http_url(control_url),
    ensures
        match resolved(location, control_url) {
            Some(url) => url_base(location) is Some && url_base(url) == url_base(location),
            None => url_base(location) is None,
        },
{
    if let Some(base) = url_base(location) {
        let mark = "://"@;
        reveal_strlit("://");
        reveal_strlit("/");
        let slash = seq!['/'];
        lemma_find_from(location, mark, 0);
        let i = find(location, mark)->0;
        let after = location.skip(i + 3);
        lemma_find_from(after, slash, 0);
        let url = resolved(location, control_url)->0;
        let n = base.len() - i - 3;
        assert(base =~= location.take(i + 3 + n));
        assert(url.take(base.len() as int) =~= base);
        assert(url.len() > base.len() && url[base.len() as int] == '/') by {
            if starts_with(control_url, slash) {
                assert(control_url.subrange(0, 1)[0] == control_url[0]);
                assert(url[base.len() as int] == control_url[0]);
            }
        }
        assert forall|j: int| 0 <= j < base.len() implies url[j] == location[j] by {
            assert(url.take(base.len() as int)[j] == url[j]);
        }
        assert(url.subrange(i, i + 3) =~= location.subrange(i, i + 3));
        assert forall|j: int| 0 <= j < i implies !occurs_at(url, mark, j) by {
            assert(!occurs_at(location, mark, j));
            assert(url.subrange(j, j + 3) =~= location.subrange(j, j + 3));
        }
        lemma_find_is(url, mark, 0, i);
        let rest = url.skip(i + 3);
        assert(rest.subrange(n, n + 1) =~= slash);
        assert forall|j: int| 0 <= j < n implies !occurs_at(rest, slash, j) by {
            assert(!occurs_at(after, slash, j));
            assert(after.subrange(j, j + 1) =~= rest.subrange(j, j + 1));
        }
        lemma_find_is(rest, slash, 0, n);
        assert(url.take(i + 3 + n) =~= base);
    }
}

/// A control URL in a description at an absolute HTTP URL resolves to an absolute HTTP URL.
pub proof fn law_resolved_is_absolute(location: Seq<char>, control_url: Seq<char>)
    requires
        is_http_url(location),
    ensures
        resolved(location, control_url) matches Some(url) && is_http_url(url),
{
    reveal_strlit("http://");
    reveal_strlit("https://");
    reveal_strlit("://");
    if !is_http_url(control_url) {
        lemma_find_from(location, "://"@, 0);
        let k = if starts_with(location, "http://"@) {
            4int
        } else {
            5int
        };
        let scheme = if starts_with(location, "http://"@) {
            "http://"@
        } else {
            "https://"@
        };
        assert(location.subrange(0, k + 3) =~= scheme);
        assert forall|n: int| 0 <= n < k + 3 implies location[n] == scheme[n] by {
            assert(location.subrange(0, k + 3)[n] == location[n]);
        }
        assert(location.subrange(k, k + 3) =~= "://"@);
        assert(occurs_at(location, "://"@, k));
        let i = find(location, "://"@)->0;
        assert(i <= k);
        assert(location.subrange(i, i + 3)[0] == location[i]);
        assert(location[i] == ':');
        assert(i == k);
        lemma_find_from(location.skip(i + 3), seq!['/'], 0);
        let base = url_base(location)->0;
        assert forall|n: int| 0 <= n < k + 3 implies base[n] == location[n] by {}
        let url = resolved(location, control_url)->0;
        assert(url.subrange(0, k + 3) =~= scheme);
    }
}

/// An absolute HTTP URL stands for itself, wherever the description is.
pub proof fn law_absolute_url_stays(location: Seq<char>, rest: Seq<char>)
    ensures
        resolved(location, "http://"@ + rest) == Some("http://"@ + rest),
        resolved(location, "https://"@ + rest) == Some("https://"@ + rest),
{
    reveal_strlit("http://");
    reveal_strlit("https://");
    assert(("http://"@ + rest).subrange(0, 7) =~= "http://"@);
    assert(("https://"@ + rest).subrange(0, 8) =~= "https://"@);
}

/// Any other control URL is a path on the host of the description, with its port: it replaces
/// the path of the description, and gets a slash in front where it has none. A description
/// whose URL has no scheme resolves none.
pub proof fn law_relative_url_is_on_the_host(
    scheme: Seq<char>,
    host: Seq<char>,
    path: Seq<char>,
    control_url: Seq<char>,
)
    requires
        is_free_of(scheme, ':'),
        is_free_of(host, '/'),
        path.len() > 0 ==> path[0] == '/',
        !is_http_url(control_url),
    ensures
        control_url.len() > 0 && control_url[0] == '/' ==> resolved(
            scheme + "://"@ + host + path,
            control_url,
        ) == Some(scheme + "://"@ + host + control_url),
        control_url.len() == 0 || control_url[0] != '/' ==> resolved(
            scheme + "://"@ + host + path,
            control_url,
        ) == Some(scheme + "://"@ + host + "/"@ + control_url),
        resolved(scheme, control_url) is None,
{
    reveal_strlit("://");
    let mark = "://"@;
    let n = scheme.len() as int;
    let m = host.len() as int;
    let url = scheme + mark + host + path;
    assert(url.subrange(n, n + 3) =~= mark);
    assert forall|j: int| 0 <= j < n implies !occurs_at(url, mark, j) by {
        if occurs_at(url, mark, j) {
            assert(url.subrange(j, j + 3)[0] == url[j]);
            assert(url[j] == scheme[j]);
        }
    }
    lemma_find_is(url, mark, 0, n);
    let rest = url.skip(n + 3);
    assert(rest =~= host + path);
    if path.len() > 0 {
        lemma_first_char(host, '/', path.skip(1));
        assert(rest =~= host + seq!['/'] + path.skip(1));
        assert(url.take(n + 3 + m) =~= scheme + mark + host);
    } else {
        lemma_first_char(host, '/', path);
        assert(rest =~= host);
        assert(url =~= scheme + mark + host);
    }
    assert(url_base(url) == Some(scheme + mark + host));
    assert(starts_with(control_url, seq!['/']) <==> control_url.len() > 0 && control_url[0]
        == '/') by {
        assert(seq!['/'][0] == '/');
        if control_url.len() > 0 {
            assert(control_url.subrange(0, 1) =~= seq![control_url[0]]);
            assert(control_url.subrange(0, 1)[0] == control_url[0]);
        }
    }
    lemma_find_from(scheme, mark, 0);
    if let Some(j) = find(scheme, mark) {
        assert(scheme.subrange(j, j + 3)[0] == scheme[j]);
    }
}

// --- XML text ------------------------------------------------------------------------

/// How a character is written in XML text or in an attribute.
pub open spec fn escape_char(c: char) -> Seq<char> {
    if c == '&' {
        "&amp;"@
    } else if c == '<' {
        "&lt;"@
    } else if c == '>' {
        "&gt;"@
    } else if c == '"' {
        "&quot;"@
    } else if c == '\'' {
        "&apos;"@
    } else {
        seq![c]
    }
}

/// How a text is written in XML text or in an attribute.
pub open spec fn escaped(s: Seq<char>) -> Seq<char>
    decreases s.len(),
{
    if s.len() == 0 {
        Seq::empty()
    } else {
        escaped(s.drop_last()) + escape_char(s.last())
    }
}

/// Escape a string for safe embedding in XML text/attribute content.
#[must_use]
pub fn xml_escape(s: &str) -> (r: String)
    ensures
        r@ == escaped(s@),
{
    let chars: Vec<char> = chars_of(s);
    let mut out: String = String::new();
    let mut i: usize = 0;
    while i < chars.len()
        invariant
            i <= chars@.len(),
            chars@ == s@,
            out@ == escaped(s@.take(i as int)),
        decreases chars@.len() - i,
    {
        assert(s@.take(i + 1).drop_last() =~= s@.take(i as int));
        let ghost before = out@;
        match chars[i] {
            '&' => out.append("&amp;"),
            '<' => out.append("&lt;"),
            '>' => out.append("&gt;"),
            '"' => out.append("&quot;"),
            '\'' => out.append("&apos;"),
            c => out.push(c),
        }
        assert(out@ =~= before + escape_char(s@[i as int]));
        i += 1;
    }
    assert(s@.take(s@.len() as int) =~= s@);
    out
}

/// The character that an escape at the front of `s` stands for, and its length.
pub open spec fn escape_at_front(s: Seq<char>) -> (char, int) {
    if starts_with(s, "&amp;"@) {
        ('&', 5)
    } else if starts_with(s, "&lt;"@) {
        ('<', 4)
    } else if starts_with(s, "&gt;"@) {
        ('>', 4)
    } else if starts_with(s, "&quot;"@) {
        ('"', 6)
    } else if starts_with(s, "&apos;"@) {
        ('\'', 6)
    } else {
        (s[0], 1)
    }
}

/// The text that a piece of XML text stands for.
pub open spec fn unescaped(s: Seq<char>) -> Seq<char>
    decreases s.len(),
{
    if s.len() == 0 {
        Seq::empty()
    } else {
        let (c, n) = escape_at_front(s);
        if n <= s.len() {
            seq![c] + unescaped(s.skip(n))
        } else {
            seq![c]
        }
    }
}

/// Escaping goes character by character, from the front as well.
proof fn lemma_escaped_front(s: Seq<char>)
    requires
        s.len() > 0,
    ensures
        escaped(s) == escape_char(s[0]) + escaped(s.skip(1)),
    decreases s.len(),
{
    if s.len() == 1 {
        assert(s.drop_last() =~= Seq::<char>::empty());
        assert(s.skip(1) =~= Seq::<char>::empty());
        assert(escaped(Seq::<char>::empty()) =~= Seq::<char>::empty());
        assert(escaped(s) =~= escape_char(s[0]) + escaped(s.skip(1)));
    } else {
        lemma_escaped_front(s.drop_last());
        assert(s.drop_last().skip(1) =~= s.skip(1).drop_last());
        assert(s.skip(1).last() == s.last());
        assert(escaped(s) =~= escape_char(s[0]) + escaped(s.skip(1)));
    }
}

/// What was escaped is read back.
pub proof fn law_escape_round_trip(s: Seq<char>)
    ensures
        unescaped(escaped(s)) == s,
    decreases s.len(),
{
    if s.len() > 0 {
        let rest = s.skip(1);
        lemma_escaped_front(s);
        law_escape_round_trip(rest);
        let e = escape_char(s[0]);
        let whole = escaped(s);
        reveal_strlit("&amp;");
        reveal_strlit("&lt;");
        reveal_strlit("&gt;");
        reveal_strlit("&quot;");
        reveal_strlit("&apos;");
        assert(whole.subrange(0, e.len() as int) =~= e);
        assert(whole.skip(e.len() as int) =~= escaped(rest));
        assert(whole[0] == e[0]);
        assert(escape_at_front(whole) == (s[0], e.len() as int)) by {
            if s[0] == '&' || s[0] == '<' || s[0] == '>' || s[0] == '"' || s[0] == '\'' {
                assert(whole[1] == e[1]);
                assert(whole[2] == e[2]);
                assert(forall|p: Seq<char>| #[trigger]
                    starts_with(whole, p) && p.len() > 2 ==> whole[1] == p[1] && whole[2] == p[2])
                    by {
                    assert forall|p: Seq<char>| #[trigger]
                        starts_with(whole, p) && p.len() > 2 implies whole[1] == p[1] && whole[2]
                        == p[2] by {
                        assert(whole.subrange(0, p.len() as int)[1] == whole[1]);
                        assert(whole.subrange(0, p.len() as int)[2] == whole[2]);
                    }
                }
            } else {
                assert(forall|p: Seq<char>| #[trigger]
                    starts_with(whole, p) && p.len() > 0 ==> whole[0] == p[0]) by {
                    assert forall|p: Seq<char>| #[trigger]
                        starts_with(whole, p) && p.len() > 0 implies whole[0] == p[0] by {
                        assert(whole.subrange(0, p.len() as int)[0] == whole[0]);
                    }
                }
            }
        }
        assert(seq![s[0]] + rest =~= s);
    } else {
        assert(s =~= Seq::<char>::empty());
    }
}

/// Escaped text holds no character that could end the text or the attribute it stands in.
pub proof fn law_escaped_is_inert(s: Seq<char>)
    ensures
        forall|i: int|
            0 <= i < escaped(s).len() ==> {
                let c = #[trigger] escaped(s)[i];
                c != '<' && c != '>' && c != '"' && c != '\''
            },
    decreases s.len(),
{
    if s.len() > 0 {
        law_escaped_is_inert(s.drop_last());
        reveal_strlit("&amp;");
        reveal_strlit("&lt;");
        reveal_strlit("&gt;");
        reveal_strlit("&quot;");
        reveal_strlit("&apos;");
        let front = escaped(s.drop_last());
        assert forall|i: int| 0 <= i < escaped(s).len() implies {
            let c = #[trigger] escaped(s)[i];
            c != '<' && c != '>' && c != '"' && c != '\''
        } by {
            if i < front.len() {
                assert(escaped(s)[i] == front[i]);
            } else {
                assert(escaped(s)[i] == escape_char(s.last())[i - front.len()]);
            }
        }
    }
}

/// Texts are escaped piece by piece.
pub proof fn law_escape_concat(a: Seq<char>, b: Seq<char>)
    ensures
        escaped(a + b) == escaped(a) + escaped(b),
    decreases b.len(),
{
    if b.len() == 0 {
        assert(a + b =~= a);
        assert(escaped(a + b) =~= escaped(a) + escaped(b));
    } else {
        law_escape_concat(a, b.drop_last());
        assert((a + b).drop_last() =~= a + b.drop_last());
        assert(escaped(a + b) =~= escaped(a) + escaped(b));
    }
}

/// One of the five entities stands in `s` at position `i`.
pub open spec fn is_entity_at(s: Seq<char>, i: int) -> bool {
    ||| occurs_at(s, "&amp;"@, i)
    ||| occurs_at(s, "&lt;"@, i)
    ||| occurs_at(s, "&gt;"@, i)
    ||| occurs_at(s, "&quot;"@, i)
    ||| occurs_at(s, "&apos;"@, i)
}

/// Every ampersand in escaped text begins one of the five entities.
pub proof fn law_ampersands_begin_entities(s: Seq<char>)
    ensures
        forall|i: int|
            0 <= i < escaped(s).len() && (#[trigger] escaped(s)[i]) == '&' ==> is_entity_at(
                escaped(s),
                i,
            ),
    decreases s.len(),
{
    if s.len() > 0 {
        let front = escaped(s.drop_last());
        let e = escape_char(s.last());
        let all = escaped(s);
        law_ampersands_begin_entities(s.drop_last());
        reveal_strlit("&amp;");
        reveal_strlit("&lt;");
        reveal_strlit("&gt;");
        reveal_strlit("&quot;");
        reveal_strlit("&apos;");
        assert forall|i: int| 0 <= i < all.len() && (#[trigger] all[i]) == '&' implies is_entity_at(
            all,
            i,
        ) by {
            if i < front.len() {
                assert(front[i] == '&');
                assert(is_entity_at(front, i));
                assert forall|p: Seq<char>| #[trigger] occurs_at(front, p, i) implies occurs_at(
                    all,
                    p,
                    i,
                ) by {
                    assert(all.subrange(i, i + p.len()) =~= front.subrange(i, i + p.len()));
                }
            } else {
                assert(all[i] == e[i - front.len()]);
                assert(i == front.len());
                assert(all.subrange(i, i + e.len()) =~= e);
                assert(occurs_at(all, e, i));
            }
        }
    }
}

// --- DIDL-Lite -----------------------------------------------------------------------

/// A DIDL-Lite document for one video item with the given protocol information.
pub open spec fn didl_text(title: Seq<char>, uri: Seq<char>, protocol_info: Seq<char>) -> Seq<
    char,
> {
    "<DIDL-Lite xmlns=\"urn:schemas-upnp-org:metadata-1-0/DIDL-Lite/\" xmlns:dc=\"http://purl.org/dc/elements/1.1/\" xmlns:upnp=\"urn:schemas-upnp-org:metadata-1-0/upnp/\"><item id=\"0\" parentID=\"-1\" restricted=\"1\"><dc:title>"@
        + escaped(title)
        + "</dc:title><upnp:class>object.item.videoItem</upnp:class><res protocolInfo=\""@
        + escaped(protocol_info) + "\">"@ + escaped(uri) + "</res></item></DIDL-Lite>"@
}

/// The protocol information of a source of a MIME type.
pub open spec fn protocol_info_text(mime: Seq<char>, features: Seq<char>) -> Seq<char> {
    "http-get:*:"@ + mime + ":"@ + features
}

fn protocol_info(mime: &str, features: &str) -> (r: String)
    ensures
        r@ == protocol_info_text(mime@, features@),
{
    let mut out: String = String::from_str("http-get:*:");
    out.append(mime);
    out.append(":");
    out.append(features);
    out
}

fn didl_with_protocol_info(title: &str, uri: &str, protocol_info: &str) -> (r: String)
    ensures
        r@ == didl_text(title@, uri@, protocol_info@),
{
    let mut out: String = String::from_str(
        "<DIDL-Lite xmlns=\"urn:schemas-upnp-org:metadata-1-0/DIDL-Lite/\" xmlns:dc=\"http://purl.org/dc/elements/1.1/\" xmlns:upnp=\"urn:schemas-upnp-org:metadata-1-0/upnp/\"><item id=\"0\" parentID=\"-1\" restricted=\"1\"><dc:title>",
    );
    out.append(xml_escape(title).as_str());
    out.append("</dc:title><upnp:class>object.item.videoItem</upnp:class><res protocolInfo=\"");
    out.append(xml_escape(protocol_info).as_str());
    out.append("\">");
    out.append(xml_escape(uri).as_str());
    out.append("</res></item></DIDL-Lite>");
    out
}

/// Build a minimal DIDL-Lite metadata document describing one video item.
///
/// `mime` (e.g. `video/mp4`) is embedded in the `<res protocolInfo>` attribute, which
/// many renderers (notably Samsung) require in order to accept the item.
#[must_use]
pub fn didl_lite_video(title: &str, uri: &str, mime: &str) -> (r: String)
    ensures
        r@ == didl_text(title@, uri@, protocol_info_text(mime@, DLNA_CONTENT_FEATURES@)),
{
    didl_with_protocol_info(title, uri, protocol_info(mime, DLNA_CONTENT_FEATURES).as_str())
}

/// DIDL-Lite for a *live* (open-ended, non-seekable) video source, e.g. a screen-mirror
/// stream. Uses the live DLNA flags (`OP=00`) so the renderer treats it as a stream.
#[must_use]
pub fn didl_lite_live_video(title: &str, uri: &str, mime: &str) -> (r: String)
    ensures
        r@ == didl_text(title@, uri@, protocol_info_text(mime@, DLNA_LIVE_FEATURES@)),
{
    didl_with_protocol_info(title, uri, protocol_info(mime, DLNA_LIVE_FEATURES).as_str())
}

// --- SOAP ----------------------------------------------------------------------------

/// A SOAP envelope around the arguments of an AVTransport action.
pub open spec fn envelope_text(action: Seq<char>, inner: Seq<char>) -> Seq<char> {
    "<?xml version=\"1.0\" encoding=\"utf-8\"?><s:Envelope xmlns:s=\"http://schemas.xmlsoap.org/soap/envelope/\" s:encodingStyle=\"http://schemas.xmlsoap.org/soap/encoding/\"><s:Body><u:"@
        + action + " xmlns:u=\""@ + AV_TRANSPORT@ + "\">"@ + inner + "</u:"@ + action
        + "></s:Body></s:Envelope>"@
}

fn soap_envelope(action: &str, inner: &str) -> (r: String)
    ensures
        r@ == envelope_text(action@, inner@),
{
    let mut out: String = String::from_str(
        "<?xml version=\"1.0\" encoding=\"utf-8\"?><s:Envelope xmlns:s=\"http://schemas.xmlsoap.org/soap/envelope/\" s:encodingStyle=\"http://schemas.xmlsoap.org/soap/encoding/\"><s:Body><u:",
    );
    out.append(action);
    out.append(" xmlns:u=\"");
    out.append(AV_TRANSPORT);
    out.append("\">");
    out.append(inner);
    out.append("</u:");
    out.append(action);
    out.append("></s:Body></s:Envelope>");
    out
}

/// The body of `SetAVTransportURI`.
pub open spec fn set_uri_text(uri: Seq<char>, didl_metadata: Seq<char>) -> Seq<char> {
    envelope_text(
        "SetAVTransportURI"@,
        "<InstanceID>0</InstanceID><CurrentURI>"@ + escaped(uri)
            + "</CurrentURI><CurrentURIMetaData>"@ + escaped(didl_metadata)
            + "</CurrentURIMetaData>"@,
    )
}

/// The characters that make markup: angle brackets and quotes.
pub open spec fn is_markup(c: char) -> bool {
    c == '<' || c == '>' || c == '"' || c == '\''
}

/// The markup characters of a text, in order.
pub open spec fn markup_of(s: Seq<char>) -> Seq<char>
    decreases s.len(),
{
    if s.len() == 0 {
        Seq::empty()
    } else if is_markup(s.last()) {
        markup_of(s.drop_last()).push(s.last())
    } else {
        markup_of(s.drop_last())
    }
}

proof fn lemma_markup_concat(a: Seq<char>, b: Seq<char>)
    ensures
        markup_of(a + b) == markup_of(a) + markup_of(b),
    decreases b.len(),
{
    if b.len() == 0 {
        assert(a + b =~= a);
        assert(markup_of(a + b) =~= markup_of(a) + markup_of(b));
    } else {
        lemma_markup_concat(a, b.drop_last());
        assert((a + b).drop_last() =~= a + b.drop_last());
        assert(markup_of(a + b) =~= markup_of(a) + markup_of(b));
    }
}

proof fn lemma_no_markup(s: Seq<char>)
    requires
        forall|i: int| 0 <= i < s.len() ==> !is_markup(#[trigger] s[i]),
    ensures
        markup_of(s) == Seq::<char>::empty(),
    decreases s.len(),
{
    if s.len() > 0 {
        lemma_no_markup(s.drop_last());
    }
}

/// A text with an escaped piece in it has the markup of what stands around the piece.
proof fn lemma_markup_around(a: Seq<char>, s: Seq<char>, b: Seq<char>)
    ensures
        markup_of(a + escaped(s) + b) == markup_of(a) + markup_of(b),
{
    law_escaped_is_inert(s);
    lemma_no_markup(escaped(s));
    lemma_markup_concat(a, escaped(s));
    lemma_markup_concat(a + escaped(s), b);
    assert(markup_of(a) + Seq::<char>::empty() =~= markup_of(a));
}

/// No title, URI or protocol information can change the structure of the metadata: its
/// markup is the same for all of them.
pub proof fn law_metadata_markup_is_fixed(
    title: Seq<char>,
    uri: Seq<char>,
    info: Seq<char>,
    title2: Seq<char>,
    uri2: Seq<char>,
    info2: Seq<char>,
)
    ensures
        markup_of(didl_text(title, uri, info)) == markup_of(didl_text(title2, uri2, info2)),
{
    lemma_metadata_markup(title, uri, info);
    lemma_metadata_markup(title2, uri2, info2);
    lemma_metadata_markup(Seq::empty(), Seq::empty(), Seq::empty());
}

/// The metadata, part by part.
spec fn didl_parts(
    a: Seq<char>,
    title: Seq<char>,
    b: Seq<char>,
    info: Seq<char>,
    c: Seq<char>,
    uri: Seq<char>,
    d: Seq<char>,
) -> Seq<char> {
    a + escaped(title) + b + escaped(info) + c + escaped(uri) + d
}

proof fn lemma_metadata_markup(title: Seq<char>, uri: Seq<char>, info: Seq<char>)
    ensures
        markup_of(didl_text(title, uri, info)) == markup_of(
            didl_text(Seq::empty(), Seq::empty(), Seq::empty()),
        ),
{
    let a =
        "<DIDL-Lite xmlns=\"urn:schemas-upnp-org:metadata-1-0/DIDL-Lite/\" xmlns:dc=\"http://purl.org/dc/elements/1.1/\" xmlns:upnp=\"urn:schemas-upnp-org:metadata-1-0/upnp/\"><item id=\"0\" parentID=\"-1\" restricted=\"1\"><dc:title>"@;
    let b = "</dc:title><upnp:class>object.item.videoItem</upnp:class><res protocolInfo=\""@;
    let c = "\">"@;
    let d = "</res></item></DIDL-Lite>"@;
    let e = Seq::<char>::empty();
    lemma_parts_markup(a, title, b, info, c, uri, d);
    lemma_parts_markup(a, e, b, e, c, e, d);
}

proof fn lemma_parts_markup(
    a: Seq<char>,
    title: Seq<char>,
    b: Seq<char>,
    info: Seq<char>,
    c: Seq<char>,
    uri: Seq<char>,
    d: Seq<char>,
)
    ensures
        markup_of(didl_parts(a, title, b, info, c, uri, d)) == markup_of(a) + markup_of(b)
            + markup_of(c) + markup_of(d),
{
    lemma_markup_around(a, title, b);
    lemma_markup_around(a + escaped(title) + b, info, c);
    lemma_markup_around(a + escaped(title) + b + escaped(info) + c, uri, d);
}

/// Where two texts of this shape are equal, so are their parts: what stands before the first
/// `mark`, and what follows it.
proof fn lemma_split_at(a: Seq<char>, x: Seq<char>, b: Seq<char>, y: Seq<char>, mark: char)
    requires
        a + x == b + y,
        x.len() > 0 && x[0] == mark,
        y.len() > 0 && y[0] == mark,
        forall|i: int| 0 <= i < a.len() ==> #[trigger] a[i] != mark,
        forall|i: int| 0 <= i < b.len() ==> #[trigger] b[i] != mark,
    ensures
        a == b,
        x == y,
{
    if a.len() < b.len() {
        assert((a + x)[a.len() as int] == mark);
        assert((b + y)[a.len() as int] == b[a.len() as int]);
    } else if b.len() < a.len() {
        assert((b + y)[b.len() as int] == mark);
        assert((a + x)[b.len() as int] == a[b.len() as int]);
    }
    assert(a =~= (a + x).take(a.len() as int));
    assert(b =~= (b + y).take(a.len() as int));
    assert(x =~= (a + x).skip(a.len() as int));
    assert(y =~= (b + y).skip(a.len() as int));
}

/// Escaped texts before the same mark are equal only where the texts are.
proof fn lemma_escaped_before(s: Seq<char>, x: Seq<char>, t: Seq<char>, y: Seq<char>, mark: char)
    requires
        escaped(s) + x == escaped(t) + y,
        x.len() > 0 && x[0] == mark,
        y.len() > 0 && y[0] == mark,
        is_markup(mark),
    ensures
        s == t,
        x == y,
{
    law_escaped_is_inert(s);
    law_escaped_is_inert(t);
    lemma_split_at(escaped(s), x, escaped(t), y, mark);
    law_escape_round_trip(s);
    law_escape_round_trip(t);
}

/// Where two texts that begin alike are equal, so are their ends.
proof fn lemma_same_front(a: Seq<char>, x: Seq<char>, y: Seq<char>)
    requires
        a + x == a + y,
    ensures
        x == y,
{
    assert(x =~= (a + x).skip(a.len() as int));
    assert(y =~= (a + y).skip(a.len() as int));
}

/// The metadata tells the title, the URI and the protocol information: where one of the three
/// differs, so does the metadata.
pub proof fn law_metadata_tells_all(
    title: Seq<char>,
    uri: Seq<char>,
    info: Seq<char>,
    title2: Seq<char>,
    uri2: Seq<char>,
    info2: Seq<char>,
)
    requires
        didl_text(title, uri, info) == didl_text(title2, uri2, info2),
    ensures
        title == title2 && uri == uri2 && info == info2,
{
    let a =
        "<DIDL-Lite xmlns=\"urn:schemas-upnp-org:metadata-1-0/DIDL-Lite/\" xmlns:dc=\"http://purl.org/dc/elements/1.1/\" xmlns:upnp=\"urn:schemas-upnp-org:metadata-1-0/upnp/\"><item id=\"0\" parentID=\"-1\" restricted=\"1\"><dc:title>"@;
    let b = "</dc:title><upnp:class>object.item.videoItem</upnp:class><res protocolInfo=\""@;
    let c = "\">"@;
    let d = "</res></item></DIDL-Lite>"@;
    assert(b.len() > 0 && b[0] == '<') by {
        reveal_strlit(
            "</dc:title><upnp:class>object.item.videoItem</upnp:class><res protocolInfo=\"",
        );
    }
    assert(c.len() > 0 && c[0] == '"') by {
        reveal_strlit("\">");
    }
    assert(d.len() > 0 && d[0] == '<') by {
        reveal_strlit("</res></item></DIDL-Lite>");
    }
    lemma_parts_tell_all(a, title, b, info, c, uri, d, title2, info2, uri2);
}

proof fn lemma_parts_tell_all(
    a: Seq<char>,
    title: Seq<char>,
    b: Seq<char>,
    info: Seq<char>,
    c: Seq<char>,
    uri: Seq<char>,
    d: Seq<char>,
    title2: Seq<char>,
    info2: Seq<char>,
    uri2: Seq<char>,
)
    requires
        didl_parts(a, title, b, info, c, uri, d) == didl_parts(a, title2, b, info2, c, uri2, d),
        b.len() > 0 && b[0] == '<',
        c.len() > 0 && c[0] == '"',
        d.len() > 0 && d[0] == '<',
    ensures
        title == title2 && uri == uri2 && info == info2,
{
    let z = escaped(uri) + d;
    let z2 = escaped(uri2) + d;
    let y = escaped(info) + (c + z);
    let y2 = escaped(info2) + (c + z2);
    let x = escaped(title) + (b + y);
    let x2 = escaped(title2) + (b + y2);
    assert(didl_parts(a, title, b, info, c, uri, d) =~= a + x);
    assert(didl_parts(a, title2, b, info2, c, uri2, d) =~= a + x2);
    lemma_same_front(a, x, x2);
    lemma_escaped_before(title, b + y, title2, b + y2, '<');
    lemma_same_front(b, y, y2);
    lemma_escaped_before(info, c + z, info2, c + z2, '"');
    lemma_same_front(c, z, z2);
    lemma_escaped_before(uri, d, uri2, d, '<');
}

/// The protocol information tells the MIME type.
pub proof fn law_protocol_info_tells_the_mime(
    mime: Seq<char>,
    mime2: Seq<char>,
    features: Seq<char>,
)
    requires
        protocol_info_text(mime, features) == protocol_info_text(mime2, features),
    ensures
        mime == mime2,
{
    let front = "http-get:*:"@;
    let end = ":"@ + features;
    let a = mime + end;
    let b = mime2 + end;
    assert(protocol_info_text(mime, features) =~= front + a);
    assert(protocol_info_text(mime2, features) =~= front + b);
    lemma_same_front(front, a, b);
    assert(a.len() == b.len());
    assert(mime =~= a.take(mime.len() as int));
    assert(mime2 =~= b.take(mime.len() as int));
}

/// No URI and no metadata can change the structure of the call to load.
pub proof fn law_set_uri_markup_is_fixed(
    uri: Seq<char>,
    metadata: Seq<char>,
    uri2: Seq<char>,
    metadata2: Seq<char>,
)
    ensures
        markup_of(set_uri_text(uri, metadata)) == markup_of(set_uri_text(uri2, metadata2)),
{
    lemma_set_uri_markup(uri, metadata, set_uri_inner(uri, metadata));
    lemma_set_uri_markup(uri2, metadata2, set_uri_inner(uri2, metadata2));
}

/// The arguments of the call to load.
spec fn set_uri_inner(uri: Seq<char>, metadata: Seq<char>) -> Seq<char> {
    "<InstanceID>0</InstanceID><CurrentURI>"@ + escaped(uri)
        + "</CurrentURI><CurrentURIMetaData>"@ + escaped(metadata) + "</CurrentURIMetaData>"@
}

/// What stands before the arguments of a call.
spec fn envelope_front(action: Seq<char>) -> Seq<char> {
    "<?xml version=\"1.0\" encoding=\"utf-8\"?><s:Envelope xmlns:s=\"http://schemas.xmlsoap.org/soap/envelope/\" s:encodingStyle=\"http://schemas.xmlsoap.org/soap/encoding/\"><s:Body><u:"@
        + action + " xmlns:u=\""@ + AV_TRANSPORT@ + "\">"@
}

/// What stands after the arguments of a call.
spec fn envelope_end(action: Seq<char>) -> Seq<char> {
    "</u:"@ + action + "></s:Body></s:Envelope>"@
}

proof fn lemma_envelope(action: Seq<char>, inner: Seq<char>)
    ensures
        envelope_text(action, inner) == envelope_front(action) + inner + envelope_end(action),
{
    assert(envelope_text(action, inner) =~= envelope_front(action) + inner + envelope_end(action));
}

proof fn lemma_set_uri_markup(uri: Seq<char>, metadata: Seq<char>, inner: Seq<char>)
    requires
        inner == set_uri_inner(uri, metadata),
    ensures
        markup_of(set_uri_text(uri, metadata)) == markup_of(envelope_front("SetAVTransportURI"@))
            + (markup_of("<InstanceID>0</InstanceID><CurrentURI>"@) + markup_of(
            "</CurrentURI><CurrentURIMetaData>"@,
        ) + markup_of("</CurrentURIMetaData>"@)) + markup_of(
            envelope_end("SetAVTransportURI"@),
        ),
{
    let a = "<InstanceID>0</InstanceID><CurrentURI>"@;
    let b = "</CurrentURI><CurrentURIMetaData>"@;
    let c = "</CurrentURIMetaData>"@;
    lemma_markup_around(a, uri, b);
    lemma_markup_around(a + escaped(uri) + b, metadata, c);
    lemma_envelope("SetAVTransportURI"@, inner);
    let front = envelope_front("SetAVTransportURI"@);
    lemma_markup_concat(front, inner);
    lemma_markup_concat(front + inner, envelope_end("SetAVTransportURI"@));
}

/// The call to load tells the URI and the metadata: where one of them differs, so does the
/// call.
pub proof fn law_set_uri_tells_all(
    uri: Seq<char>,
    metadata: Seq<char>,
    uri2: Seq<char>,
    metadata2: Seq<char>,
)
    requires
        set_uri_text(uri, metadata) == set_uri_text(uri2, metadata2),
    ensures
        uri == uri2 && metadata == metadata2,
{
    let action = "SetAVTransportURI"@;
    let (inner, inner2) = (set_uri_inner(uri, metadata), set_uri_inner(uri2, metadata2));
    lemma_envelope(action, inner);
    lemma_envelope(action, inner2);
    let a = "<InstanceID>0</InstanceID><CurrentURI>"@;
    let b = "</CurrentURI><CurrentURIMetaData>"@;
    let c = "</CurrentURIMetaData>"@;
    assert(b.len() > 0 && b[0] == '<') by {
        reveal_strlit("</CurrentURI><CurrentURIMetaData>");
    }
    assert(c.len() > 0 && c[0] == '<') by {
        reveal_strlit("</CurrentURIMetaData>");
    }
    let (front, end) = (envelope_front(action), envelope_end(action));
    let z = c + end;
    let y = escaped(metadata) + z;
    let y2 = escaped(metadata2) + z;
    let x = escaped(uri) + (b + y);
    let x2 = escaped(uri2) + (b + y2);
    assert(front + inner + end =~= front + (a + x));
    assert(front + inner2 + end =~= front + (a + x2));
    lemma_same_front(front, a + x, a + x2);
    lemma_same_front(a, x, x2);
    lemma_escaped_before(uri, b + y, uri2, b + y2, '<');
    lemma_same_front(b, y, y2);
    lemma_escaped_before(metadata, z, metadata2, z, '<');
}

/// The body of `Play`.
pub open spec fn play_text() -> Seq<char> {
    envelope_text("Play"@, "<InstanceID>0</InstanceID><Speed>1</Speed>"@)
}

/// The body of `Stop`.
pub open spec fn stop_text() -> Seq<char> {
    envelope_text("Stop"@, "<InstanceID>0</InstanceID>"@)
}

/// SOAP body for `SetAVTransportURI` (tells the renderer which media to load).
#[must_use]
pub fn build_set_av_transport_uri(uri: &str, didl_metadata: &str) -> (r: String)
    ensures
        r@ == set_uri_text(uri@, didl_metadata@),
{
    let mut inner: String = String::from_str("<InstanceID>0</InstanceID><CurrentURI>");
    inner.append(xml_escape(uri).as_str());
    inner.append("</CurrentURI><CurrentURIMetaData>");
    inner.append(xml_escape(didl_metadata).as_str());
    inner.append("</CurrentURIMetaData>");
    soap_envelope("SetAVTransportURI", inner.as_str())
}

/// SOAP body for `Play`.
#[must_use]
pub fn build_play() -> (r: String)
    ensures
        r@ == play_text(),
{
    soap_envelope("Play", "<InstanceID>0</InstanceID><Speed>1</Speed>")
}

/// SOAP body for `Stop`.
#[must_use]
pub fn build_stop() -> (r: String)
    ensures
        r@ == stop_text(),
{
    soap_envelope("Stop", "<InstanceID>0</InstanceID>")
}

/// The full `SOAPACTION` header value for an AVTransport `action`.
#[must_use]
pub fn soap_action_header(action: &str) -> (r: String)
    ensures
        r@ == "\""@ + AV_TRANSPORT@ + "#"@ + action@ + "\""@,
{
    let mut out: String = String::from_str("\"");
    out.append(AV_TRANSPORT);
    out.append("#");
    out.append(action);
    out.append("\"");
    out
}

/// `needle` stands somewhere in `s`.
pub open spec fn holds(s: Seq<char>, needle: Seq<char>) -> bool {
    exists|i: int| #[trigger] occurs_at(s, needle, i)
}

proof fn lemma_holds(a: Seq<char>, needle: Seq<char>, b: Seq<char>)
    ensures
        holds(a + needle + b, needle),
{
    let s = a + needle + b;
    let n = a.len() as int;
    assert(s.subrange(n, n + needle.len()) =~= needle);
    assert(occurs_at(s, needle, n));
}

/// The body of a call is one element in the AVTransport namespace, named after the action,
/// with the arguments and nothing else in it.
pub proof fn law_envelope_holds_the_call(action: Seq<char>, inner: Seq<char>)
    ensures
        holds(
            envelope_text(action, inner),
            "><s:Body><u:"@ + action
                + " xmlns:u=\"urn:schemas-upnp-org:service:AVTransport:1\">"@ + inner + "</u:"@
                + action + "></s:Body></s:Envelope>"@,
        ),
{
    let long =
        "<?xml version=\"1.0\" encoding=\"utf-8\"?><s:Envelope xmlns:s=\"http://schemas.xmlsoap.org/soap/envelope/\" s:encodingStyle=\"http://schemas.xmlsoap.org/soap/encoding/\"><s:Body><u:"@;
    lemma_envelope_opens();
    lemma_namespace();
    lemma_envelope_parts(
        long,
        "><s:Body><u:"@,
        action,
        " xmlns:u=\""@,
        AV_TRANSPORT@,
        "\">"@,
        inner,
        "</u:"@,
        "></s:Body></s:Envelope>"@,
    );
}

proof fn lemma_envelope_opens()
    ensures
        ({
            let long =
                "<?xml version=\"1.0\" encoding=\"utf-8\"?><s:Envelope xmlns:s=\"http://schemas.xmlsoap.org/soap/envelope/\" s:encodingStyle=\"http://schemas.xmlsoap.org/soap/encoding/\"><s:Body><u:"@;
            ends_with(long, "><s:Body><u:"@)
        }),
{
    let long =
        "<?xml version=\"1.0\" encoding=\"utf-8\"?><s:Envelope xmlns:s=\"http://schemas.xmlsoap.org/soap/envelope/\" s:encodingStyle=\"http://schemas.xmlsoap.org/soap/encoding/\"><s:Body><u:"@;
    reveal_strlit(
        "<?xml version=\"1.0\" encoding=\"utf-8\"?><s:Envelope xmlns:s=\"http://schemas.xmlsoap.org/soap/envelope/\" s:encodingStyle=\"http://schemas.xmlsoap.org/soap/encoding/\"><s:Body><u:",
    );
    reveal_strlit("><s:Body><u:");
    assert(long.subrange(long.len() - 12, long.len() as int) =~= "><s:Body><u:"@);
}

proof fn lemma_namespace()
    ensures
        " xmlns:u=\"urn:schemas-upnp-org:service:AVTransport:1\">"@ == " xmlns:u=\""@
            + AV_TRANSPORT@ + "\">"@,
{
    reveal_strlit(" xmlns:u=\"urn:schemas-upnp-org:service:AVTransport:1\">");
    reveal_strlit(" xmlns:u=\"");
    reveal_strlit("urn:schemas-upnp-org:service:AVTransport:1");
    reveal_strlit("\">");
    assert(" xmlns:u=\"urn:schemas-upnp-org:service:AVTransport:1\">"@ =~= " xmlns:u=\""@
        + AV_TRANSPORT@ + "\">"@);
}

proof fn lemma_envelope_parts(
    long: Seq<char>,
    end: Seq<char>,
    action: Seq<char>,
    a: Seq<char>,
    b: Seq<char>,
    c: Seq<char>,
    inner: Seq<char>,
    d: Seq<char>,
    e: Seq<char>,
)
    requires
        ends_with(long, end),
    ensures
        holds(
            long + action + a + b + c + inner + d + action + e,
            end + action + (a + b + c) + inner + d + action + e,
        ),
{
    let n = long.len() - end.len();
    let front = long.take(n);
    assert(long =~= front + long.subrange(n, n + end.len()));
    let abc = a + b + c;
    let q1 = end + action;
    let q2 = q1 + abc;
    let q3 = q2 + inner;
    let q4 = q3 + d;
    let q5 = q4 + action;
    let q6 = q5 + e;
    lemma_regroup(front, end, action);
    lemma_regroup(long + action, a, b);
    lemma_regroup(long + action, a + b, c);
    lemma_regroup(front, q1, abc);
    lemma_regroup(front, q2, inner);
    lemma_regroup(front, q3, d);
    lemma_regroup(front, q4, action);
    lemma_regroup(front, q5, e);
    let none = Seq::<char>::empty();
    lemma_holds(front, q6, none);
    assert(front + q6 + none =~= front + q6);
}

proof fn lemma_regroup(a: Seq<char>, b: Seq<char>, c: Seq<char>)
    ensures
        a + b + c == a + (b + c),
{
    assert(a + b + c =~= a + (b + c));
}

/// The calls that start and stop playback are to instance 0; playback is at normal speed.
pub proof fn law_playback_calls()
    ensures
        play_text() == envelope_text("Play"@, "<InstanceID>0</InstanceID><Speed>1</Speed>"@),
        stop_text() == envelope_text("Stop"@, "<InstanceID>0</InstanceID>"@),
{
}

/// The call to load is to instance 0 and holds the URI and the metadata, escaped, each in the
/// element of its name.
pub proof fn law_set_uri_arguments(uri: Seq<char>, metadata: Seq<char>)
    ensures
        set_uri_text(uri, metadata) == envelope_text(
            "SetAVTransportURI"@,
            "<InstanceID>0</InstanceID>"@ + "<CurrentURI>"@ + escaped(uri) + "</CurrentURI>"@
                + "<CurrentURIMetaData>"@ + escaped(metadata) + "</CurrentURIMetaData>"@,
        ),
{
    reveal_strlit("<InstanceID>0</InstanceID><CurrentURI>");
    reveal_strlit("<InstanceID>0</InstanceID>");
    reveal_strlit("<CurrentURI>");
    reveal_strlit("</CurrentURI><CurrentURIMetaData>");
    reveal_strlit("</CurrentURI>");
    reveal_strlit("<CurrentURIMetaData>");
    assert("<InstanceID>0</InstanceID><CurrentURI>"@ =~= "<InstanceID>0</InstanceID>"@
        + "<CurrentURI>"@);
    assert("</CurrentURI><CurrentURIMetaData>"@ =~= "</CurrentURI>"@ + "<CurrentURIMetaData>"@);
    let a = "<InstanceID>0</InstanceID><CurrentURI>"@ + escaped(uri)
        + "</CurrentURI><CurrentURIMetaData>"@ + escaped(metadata) + "</CurrentURIMetaData>"@;
    let b = "<InstanceID>0</InstanceID>"@ + "<CurrentURI>"@ + escaped(uri) + "</CurrentURI>"@
        + "<CurrentURIMetaData>"@ + escaped(metadata) + "</CurrentURIMetaData>"@;
    assert(a =~= b);
}

/// The metadata holds the title, escaped, in its element; and the URI, escaped, in a resource
/// element that carries the protocol information, escaped, as its attribute.
pub proof fn law_metadata_elements(title: Seq<char>, uri: Seq<char>, info: Seq<char>)
    ensures
        holds(didl_text(title, uri, info), "<dc:title>"@ + escaped(title) + "</dc:title>"@),
        holds(
            didl_text(title, uri, info),
            "<res protocolInfo=\""@ + escaped(info) + "\">"@ + escaped(uri) + "</res>"@,
        ),
{
    let a =
        "<DIDL-Lite xmlns=\"urn:schemas-upnp-org:metadata-1-0/DIDL-Lite/\" xmlns:dc=\"http://purl.org/dc/elements/1.1/\" xmlns:upnp=\"urn:schemas-upnp-org:metadata-1-0/upnp/\"><item id=\"0\" parentID=\"-1\" restricted=\"1\"><dc:title>"@;
    let b = "</dc:title><upnp:class>object.item.videoItem</upnp:class><res protocolInfo=\""@;
    let c = "\">"@;
    let d = "</res></item></DIDL-Lite>"@;
    let n = a.len() - 10;
    assert(n >= 0 && a.skip(n) =~= "<dc:title>"@) by {
        reveal_strlit(
            "<DIDL-Lite xmlns=\"urn:schemas-upnp-org:metadata-1-0/DIDL-Lite/\" xmlns:dc=\"http://purl.org/dc/elements/1.1/\" xmlns:upnp=\"urn:schemas-upnp-org:metadata-1-0/upnp/\"><item id=\"0\" parentID=\"-1\" restricted=\"1\"><dc:title>",
        );
        reveal_strlit("<dc:title>");
    }
    let k = b.len() - 19;
    assert(k >= 11 && b.take(11) =~= "</dc:title>"@ && b.skip(k) =~= "<res protocolInfo=\""@) by {
        reveal_strlit(
            "</dc:title><upnp:class>object.item.videoItem</upnp:class><res protocolInfo=\"",
        );
        reveal_strlit("</dc:title>");
        reveal_strlit("<res protocolInfo=\"");
    }
    assert(d.len() >= 6 && d.take(6) =~= "</res>"@) by {
        reveal_strlit("</res></item></DIDL-Lite>");
        reveal_strlit("</res>");
    }
    let (t, i, u) = (escaped(title), escaped(info), escaped(uri));
    let whole = a + t + b + i + c + u + d;
    let head = "<dc:title>"@ + t + "</dc:title>"@;
    let tail = "<res protocolInfo=\""@ + i + c + u + "</res>"@;
    assert(a =~= a.take(n) + "<dc:title>"@);
    assert(b =~= "</dc:title>"@ + b.skip(11));
    assert(b =~= b.take(k) + "<res protocolInfo=\""@);
    assert(d =~= "</res>"@ + d.skip(6));
    lemma_holds(a.take(n), head, b.skip(11) + i + c + u + d);
    assert(whole =~= a.take(n) + head + (b.skip(11) + i + c + u + d));
    lemma_holds(a + t + b.take(k), tail, d.skip(6));
    assert(whole =~= a + t + b.take(k) + tail + d.skip(6));
}

/// The protocol information is that of HTTP, any network, the MIME type and the features.
pub proof fn law_protocol_info(mime: Seq<char>, features: Seq<char>)
    requires
        is_free_of(mime, ':'),
    ensures
        ({
            let info = protocol_info_text(mime, features);
            &&& split_once(info, ':') matches Some((protocol, rest)) && protocol == "http-get"@ && (
            split_once(rest, ':') matches Some((network, rest)) && network == "*"@ && (split_once(
                rest,
                ':',
            ) matches Some((m, f)) && m == mime && f == features))
        }),
{
    reveal_strlit("http-get:*:");
    reveal_strlit("http-get");
    reveal_strlit("*");
    reveal_strlit(":");
    let r2 = mime + seq![':'] + features;
    let r1 = "*"@ + seq![':'] + r2;
    assert(protocol_info_text(mime, features) =~= "http-get"@ + seq![':'] + r1);
    law_cut_at_char("http-get"@, ':', r1);
    law_cut_at_char("*"@, ':', r2);
    law_cut_at_char(mime, ':', features);
}

/// What an HTTP answer to a SOAP `action` amounts to: its body where the status is 2xx,
/// else an error that quotes the status (`status_line` is the code with its reason) and
/// the body.
pub fn soap_outcome(action: &str, status: u16, status_line: &str, body: String) -> (r: Result<
    String,
    Error,
>)
    ensures
        match r {
            Ok(text) => 200 <= status < 300 && text@ == body@,
            Err(e) => !(200 <= status < 300) && e@ == (
                ErrorKind::Sink,
                action@ + " failed: HTTP "@ + status_line@ + ": "@ + body@,
            ),
        },
{
    if 200 <= status && status < 300 {
        Ok(body)
    } else {
        let mut text: String = action.to_owned();
        text.append(" failed: HTTP ");
        text.append(status_line);
        text.append(": ");
        text.append(body.as_str());
        Err(Error::Sink(text))
    }
}

/// What came of a request to a renderer.
#[derive(Debug, PartialEq, Eq)]
pub enum HttpReply {
    /// There is no HTTP client to make it with: why.
    NoClient(String),
    /// The renderer could not be reached: why.
    Unreachable(String),
    /// The body of the answer could not be read: why.
    Unreadable(String),
    /// An answer: its status code, the code with its reason, and its body.
    Answer { status: u16, status_line: String, body: String },
}

/// What came of a SOAP `action`. Whatever went wrong is an error of the transport, unless the
/// renderer could not be reached at all.
pub fn soap_result(action: &str, reply: HttpReply) -> (r: Result<String, Error>)
    ensures
        match reply {
            HttpReply::NoClient(cause) => r matches Err(e) && e@ == (ErrorKind::Sink, cause@),
            HttpReply::Unreachable(cause) => r matches Err(e) && e@ == (
                ErrorKind::DeviceUnreachable,
                cause@,
            ),
            HttpReply::Unreadable(cause) => r matches Err(e) && e@ == (
                ErrorKind::Sink,
                "reading SOAP response: "@ + cause@,
            ),
            HttpReply::Answer { status, status_line, body } => match r {
                Ok(text) => 200 <= status < 300 && text@ == body@,
                Err(e) => !(200 <= status < 300) && e@ == (
                    ErrorKind::Sink,
                    action@ + " failed: HTTP "@ + status_line@ + ": "@ + body@,
                ),
            },
        },
{
    match reply {
        HttpReply::NoClient(cause) => Err(Error::Sink(cause)),
        HttpReply::Unreachable(cause) => Err(Error::DeviceUnreachable(cause)),
        HttpReply::Unreadable(cause) => Err(
            Error::Sink(String::from_str("reading SOAP response: ").concat(cause.as_str())),
        ),
        HttpReply::Answer { status, status_line, body } => soap_outcome(
            action,
            status,
            status_line.as_str(),
            body,
        ),
    }
}

/// The description document in the answer to a request for it, whatever its status.
pub fn description_result(reply: HttpReply) -> (r: Result<String, Error>)
    ensures
        match reply {
            HttpReply::NoClient(cause) => r matches Err(e) && e@ == (ErrorKind::Other, cause@),
            HttpReply::Unreachable(cause) => r matches Err(e) && e@ == (
                ErrorKind::DeviceUnreachable,
                cause@,
            ),
            HttpReply::Unreadable(cause) => r matches Err(e) && e@ == (
                ErrorKind::Protocol,
                "reading description: "@ + cause@,
            ),
            HttpReply::Answer { status, status_line, body } => r matches Ok(text) && text@ == body@,
        },
{
    match reply {
        HttpReply::NoClient(cause) => Err(Error::Other(cause)),
        HttpReply::Unreachable(cause) => Err(Error::DeviceUnreachable(cause)),
        HttpReply::Unreadable(cause) => Err(
            Error::Protocol(String::from_str("reading description: ").concat(cause.as_str())),
        ),
        HttpReply::Answer { status: _, status_line: _, body } => Ok(body),
    }
}

} // verus!
