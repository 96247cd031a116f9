//! DLNA media-cast flow: what is asked of the renderer's AVTransport service
//! (`SetAVTransportURI` + `Play`, and `Stop`).

use vstd::prelude::*;

use crate::net::live_stream::DLNA_LIVE_FEATURES;
use crate::net::media_server::content_type_for;
use crate::net::media_server::content_type_text;
use crate::net::media_server::extension;
use crate::net::media_server::DLNA_CONTENT_FEATURES;
use crate::net::upnp::build_play;
use crate::net::upnp::build_set_av_transport_uri;
use crate::net::upnp::build_stop;
use crate::net::upnp::description_of;
use crate::net::upnp::didl_lite_live_video;
use crate::net::upnp::didl_lite_video;
use crate::net::upnp::didl_text;
use crate::net::upnp::parse_device_description;
use crate::net::upnp::play_text;
use crate::net::upnp::protocol_info_text;
use crate::net::upnp::resolve_url;
use crate::net::upnp::resolved;
use crate::net::upnp::set_uri_text;
use crate::net::upnp::stop_text;
use crate::net::upnp::DescriptionText;
use crate::net::upnp::DeviceDescription;
use crate::net::xml::xml_events;
use crate::pipeline::types::optional_text;
use crate::text::before;
use crate::text::before_char;
use crate::text::chars_of;
use crate::text::is_free_of;
use crate::text::law_cut_at_char;
use crate::text::string_of;

verus! {

/// The MIME type of a live mirror.
pub const LIVE_MIME: &'static str = "video/mp2t";

/// The extension in the URL of a live mirror.
pub const LIVE_EXTENSION: &'static str = "ts";

/// A SOAP call to make: the action and its body.
#[derive(Debug, PartialEq, Eq)]
pub struct SoapCall {
    pub action: &'static str,
    pub body: String,
}

/// A URL without its query and its fragment.
pub open spec fn url_path(url: Seq<char>) -> Seq<char> {
    before(before(url, '?'), '#')
}

/// Best-effort MIME from a URL's path extension (query/fragment stripped).
pub fn mime_for_url(url: &str) -> (r: &'static str)
    ensures
        r@ == content_type_text(extension(url_path(url@))),
{
    let chars: Vec<char> = chars_of(url);
    let path: String = string_of(before_char(before_char(&chars, '?'), '#'));
    content_type_for(path.as_str())
}

/// The call that loads `media_url`.
pub fn load_call(media_url: &str, title: &str, mime: &str) -> (call: SoapCall)
    ensures
        call.action@ == "SetAVTransportURI"@,
        call.body@ == set_uri_text(
            media_url@,
            didl_text(title@, media_url@, protocol_info_text(mime@, DLNA_CONTENT_FEATURES@)),
        ),
{
    let didl: String = didl_lite_video(title, media_url, mime);
    SoapCall {
        action: "SetAVTransportURI",
        body: build_set_av_transport_uri(media_url, didl.as_str()),
    }
}

/// The call that loads the live stream at `stream_url`.
pub fn live_load_call(stream_url: &str, title: &str) -> (call: SoapCall)
    ensures
        call.action@ == "SetAVTransportURI"@,
        call.body@ == set_uri_text(
            stream_url@,
            didl_text(
                title@,
                stream_url@,
                protocol_info_text(LIVE_MIME@, DLNA_LIVE_FEATURES@),
            ),
        ),
{
    let didl: String = didl_lite_live_video(title, stream_url, LIVE_MIME);
    SoapCall {
        action: "SetAVTransportURI",
        body: build_set_av_transport_uri(stream_url, didl.as_str()),
    }
}

/// The call that starts playback.
pub fn play_call() -> (call: SoapCall)
    ensures
        call.action@ == "Play"@,
        call.body@ == play_text(),
{
    SoapCall { action: "Play", body: build_play() }
}

/// The call that stops playback.
pub fn stop_call() -> (call: SoapCall)
    ensures
        call.action@ == "Stop"@,
        call.body@ == stop_text(),
{
    SoapCall { action: "Stop", body: build_stop() }
}

/// The absolute control URL that a description at `location` gives, if the device has an
/// AVTransport service.
pub open spec fn control_url_of(location: Seq<char>, desc: DescriptionText) -> Option<Seq<char>> {
    match desc.av_transport_control_url {
        Some(url) => resolved(location, url),
        None => None,
    }
}

/// The absolute control URL that a description at `location` gives.
pub fn described_control_url(location: &str, desc: &DeviceDescription) -> (r: Option<String>)
    ensures
        optional_text(r) == control_url_of(location@, desc@),
{
    match &desc.av_transport_control_url {
        Some(url) => resolve_url(location, url.as_str()),
        None => None,
    }
}

/// The absolute AVTransport control URL in the description document that was found at
/// `location`. Useful when discovery's enrichment failed but the SSDP `LOCATION` is still
/// known.
pub fn document_control_url(location: &str, xml: &str) -> (r: Option<String>)
    ensures
        optional_text(r) == control_url_of(location@, description_of(xml_events(xml@))),
{
    described_control_url(location, &parse_device_description(xml))
}

/// The path of a URL is what stands before its query and its fragment, so that neither has a
/// part in its MIME type.
pub proof fn law_query_and_fragment_do_not_count(path: Seq<char>, query: Seq<char>, fragment: Seq<char>)
    requires
        is_free_of(path, '?'),
        is_free_of(path, '#'),
        is_free_of(fragment, '?'),
    ensures
        url_path(path) == path,
        url_path(path + seq!['?'] + query) == path,
        url_path(path + seq!['#'] + fragment) == path,
        url_path(path + seq!['#'] + fragment + seq!['?'] + query) == path,
{
    law_cut_at_char(path, '?', query);
    law_cut_at_char(path, '#', fragment);
    let marked = path + seq!['#'] + fragment;
    assert(is_free_of(marked, '?')) by {
        assert forall|i: int| 0 <= i < marked.len() implies #[trigger] marked[i] != '?' by {
            if i < path.len() {
                assert(marked[i] == path[i]);
            } else if i > path.len() {
                assert(marked[i] == fragment[i - path.len() - 1]);
            }
        }
    }
    law_cut_at_char(marked, '?', query);
}

/// A description gives a control URL exactly where it has an AVTransport service whose URL can
/// be resolved, and it gives that one.
pub proof fn law_control_url(location: Seq<char>, desc: DescriptionText)
    ensures
        desc.av_transport_control_url is None ==> control_url_of(location, desc) is None,
        desc.av_transport_control_url matches Some(url) ==> control_url_of(location, desc)
            == resolved(location, url),
{
}

} // verus!
