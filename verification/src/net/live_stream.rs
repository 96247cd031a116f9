//! The answers of the HTTP server for a single open-ended **live** byte stream (e.g. live
//! MPEG-TS), from which a DLNA renderer plays a screen mirror.
//!
//! Unlike [`crate::net::media_server`] (a finite file with `Range` support), the live
//! stream has no `Content-Length`.

use vstd::prelude::*;

use crate::discovery::ssdp::law_port_is_read;
use crate::discovery::ssdp::port_of;
use crate::net::media_server::extension;
use crate::net::media_server::header_pairs;
use crate::net::media_server::law_extension;
use crate::net::media_server::HeaderPair;
use crate::net::upnp::is_http_url;
use crate::pipeline::address::law_text_has_no_slash;
use crate::pipeline::address::IpAddr;
use crate::text::decimal;
use crate::text::is_free_of;
use crate::text::push_decimal;

verus! {

/// DLNA `contentFeatures` for a paced live stream: `OP=00` (no seek/range) + streaming flags.
/// Shared so the DIDL `<res protocolInfo>` for a live source matches what we serve.
pub const DLNA_LIVE_FEATURES: &'static str =
    "DLNA.ORG_OP=00;DLNA.ORG_CI=0;DLNA.ORG_FLAGS=0D500000000000000000000000000000";

/// How many chunks may buffer per client before a slow client starts dropping.
pub const CHANNEL_CAPACITY: usize = 512;

/// The URL of a live stream that is served at an address and port.
pub open spec fn live_url_text(ip: IpAddr, port: u16, ext: Seq<char>) -> Seq<char> {
    "http://"@ + ip.text() + ":"@ + decimal(port as nat) + "/live."@ + ext
}

/// The URL of a live stream that is served at an address and port.
pub fn live_url(ip: &IpAddr, port: u16, ext: &str) -> (r: String)
    ensures
        r@ == live_url_text(*ip, port, ext@),
{
    let mut out: String = String::from_str("http://");
    ip.push_text(&mut out);
    out.append(":");
    push_decimal(&mut out, port as u64);
    out.append("/live.");
    out.append(ext);
    out
}

/// The headers of the answer to a request for the live stream. The DLNA features are given
/// to a renderer that asks for them.
pub open spec fn live_header_pairs(content_type: Seq<char>, wants_features: bool) -> Seq<
    HeaderPair,
> {
    let common = seq![
        ("content-type"@, content_type),
        ("accept-ranges"@, "none"@),
        ("transfermode.dlna.org"@, "Streaming"@),
    ];
    if wants_features {
        common.push(("contentfeatures.dlna.org"@, DLNA_LIVE_FEATURES@))
    } else {
        common
    }
}

/// The headers of the answer to a request for the live stream, which is always 200.
pub fn live_headers(content_type: &str, wants_features: bool) -> (headers: Vec<(String, String)>)
    ensures
        header_pairs(headers@) == live_header_pairs(content_type@, wants_features),
{
    let mut headers: Vec<(String, String)> = Vec::new();
    headers.push(("content-type".to_owned(), content_type.to_owned()));
    headers.push(("accept-ranges".to_owned(), "none".to_owned()));
    headers.push(("transfermode.dlna.org".to_owned(), "Streaming".to_owned()));
    if wants_features {
        headers.push(("contentfeatures.dlna.org".to_owned(), DLNA_LIVE_FEATURES.to_owned()));
    }
    assert(header_pairs(headers@) =~= live_header_pairs(content_type@, wants_features));
    headers
}

/// The answer for a live stream tells its content type, that no ranges of it can be asked for
/// and how it is transferred, and the DLNA features exactly where they are asked for. It does
/// not tell a length.
pub proof fn law_live_headers(content_type: Seq<char>, wants_features: bool)
    ensures
        ({
            let headers = live_header_pairs(content_type, wants_features);
            &&& headers.contains(("content-type"@, content_type))
            &&& headers.contains(("accept-ranges"@, "none"@))
            &&& headers.contains(("transfermode.dlna.org"@, "Streaming"@))
            &&& wants_features ==> headers.contains(
                ("contentfeatures.dlna.org"@, DLNA_LIVE_FEATURES@),
            )
            &&& headers.len() == (if wants_features {
                4int
            } else {
                3int
            })
        }),
{
    let headers = live_header_pairs(content_type, wants_features);
    assert(headers[0] == ("content-type"@, content_type));
    assert(headers[1] == ("accept-ranges"@, "none"@));
    assert(headers[2] == ("transfermode.dlna.org"@, "Streaming"@));
    if wants_features {
        assert(headers[3] == ("contentfeatures.dlna.org"@, DLNA_LIVE_FEATURES@));
    }
}

/// The URL of a live stream is an absolute HTTP URL with the port that the stream is served on
/// and the extension that was asked for.
pub proof fn law_live_url(ip: IpAddr, port: u16, ext: Seq<char>)
    requires
        ext.len() > 0,
        is_free_of(ext, '/'),
        is_free_of(ext, '.'),
    ensures
        ({
            let url = live_url_text(ip, port, ext);
            &&& is_http_url(url)
            &&& port_of(url) == Some(port as nat)
            &&& extension(url) == Some(ext)
        }),
{
    let url = live_url_text(ip, port, ext);
    let host = ip.text();
    law_text_has_no_slash(ip);
    reveal_strlit("http://");
    reveal_strlit("http");
    reveal_strlit("://");
    reveal_strlit(":");
    reveal_strlit("/live.");
    reveal_strlit("live");
    let front = "http://"@ + host + ":"@ + decimal(port as nat);
    assert(url =~= front + seq!['/'] + "live"@ + seq!['.'] + ext);
    law_extension(front, "live"@, ext);
    assert(url.subrange(0, 7) =~= "http://"@);
    let path = "/live."@ + ext;
    assert(url =~= "http"@ + "://"@ + host + ":"@ + decimal(port as nat) + path);
    law_port_is_read("http"@, host, port as nat, path);
}

} // verus!
