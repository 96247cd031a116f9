//! What is shown of devices.

use vstd::prelude::*;

use crate::pipeline::types::Device;
use crate::pipeline::types::DeviceText;
use crate::pipeline::types::Protocol;
use crate::text::decimal;
use crate::text::ends_with;
use crate::text::occurs_at;
use crate::text::push_decimal;
use crate::text::starts_with;

verus! {

/// The name of a transport.
pub open spec fn protocol_text(p: Protocol) -> Seq<char> {
    match p {
        Protocol::AirPlayMirror => "AirPlay (mirror)"@,
        Protocol::AirPlayVideo => "AirPlay (video)"@,
        Protocol::Dlna => "DLNA"@,
        Protocol::Miracast => "Miracast"@,
        Protocol::Cast => "Cast"@,
    }
}

/// The names of transports, with commas between them.
pub open spec fn protocols_text(protocols: Seq<Protocol>) -> Seq<char>
    decreases protocols.len(),
{
    if protocols.len() == 0 {
        Seq::empty()
    } else if protocols.len() == 1 {
        protocol_text(protocols[0])
    } else {
        protocols_text(protocols.drop_last()) + ", "@ + protocol_text(protocols.last())
    }
}

/// The line of a device in a list.
pub open spec fn device_line_text(d: DeviceText) -> Seq<char> {
    "  • "@ + d.name + "  —  "@ + d.address.text() + ":"@ + decimal(d.port as nat) + "  ["@
        + protocols_text(d.protocols) + "]"@
}

/// The lines of a device list.
pub open spec fn device_list_lines(devices: Seq<DeviceText>) -> Seq<Seq<char>> {
    if devices.len() == 0 {
        seq!["No cast devices found on the local network."@]
    } else {
        seq!["Found "@ + decimal(devices.len()) + " device(s):"@] + devices.map_values(
            |d: DeviceText| device_line_text(d),
        )
    }
}

/// The kind of a device, by its best transport.
pub open spec fn device_kind_text(protocols: Seq<Protocol>) -> Seq<char> {
    if protocols.len() == 0 {
        "Unknown"@
    } else {
        match protocols[0] {
            Protocol::Dlna => "DLNA"@,
            Protocol::AirPlayMirror => "AirPlay"@,
            Protocol::AirPlayVideo => "AirPlay"@,
            Protocol::Miracast => "Miracast"@,
            Protocol::Cast => "Cast"@,
        }
    }
}

/// What a list of strings holds.
pub open spec fn line_list(lines: Seq<String>) -> Seq<Seq<char>> {
    lines.map_values(|s: String| s@)
}

/// The name of a transport.
pub fn protocol_label(p: Protocol) -> (r: &'static str)
    ensures
        r@ == protocol_text(p),
{
    match p {
        Protocol::AirPlayMirror => "AirPlay (mirror)",
        Protocol::AirPlayVideo => "AirPlay (video)",
        Protocol::Dlna => "DLNA",
        Protocol::Miracast => "Miracast",
        Protocol::Cast => "Cast",
    }
}

/// The kind of a device, by its best transport.
pub fn device_kind(device: &Device) -> (r: &'static str)
    ensures
        r@ == device_kind_text(device@.protocols),
{
    if device.protocols.len() == 0 {
        return "Unknown";
    }
    match device.protocols[0] {
        Protocol::Dlna => "DLNA",
        Protocol::AirPlayMirror => "AirPlay",
        Protocol::AirPlayVideo => "AirPlay",
        Protocol::Miracast => "Miracast",
        Protocol::Cast => "Cast",
    }
}

fn push_protocols(out: &mut String, protocols: &Vec<Protocol>)
    ensures
        final(out)@ == old(out)@ + protocols_text(protocols@),
{
    let mut i: usize = 0;
    assert(out@ =~= old(out)@ + protocols_text(protocols@.take(0)));
    while i < protocols.len()
        invariant
            i <= protocols@.len(),
            out@ == old(out)@ + protocols_text(protocols@.take(i as int)),
        decreases protocols@.len() - i,
    {
        assert(protocols@.take(i + 1).drop_last() =~= protocols@.take(i as int));
        if i > 0 {
            out.append(", ");
        }
        out.append(protocol_label(protocols[i]));
        i += 1;
        assert(out@ =~= old(out)@ + protocols_text(protocols@.take(i as int)));
    }
    assert(protocols@.take(protocols@.len() as int) =~= protocols@);
}

fn device_line(d: &Device) -> (r: String)
    ensures
        r@ == device_line_text(d@),
{
    let mut out: String = String::from_str("  • ");
    out.append(d.name.as_str());
    out.append("  —  ");
    d.address.push_text(&mut out);
    out.append(":");
    push_decimal(&mut out, d.port as u64);
    out.append("  [");
    push_protocols(&mut out, &d.protocols);
    out.append("]");
    out
}

/// A device list in a compact, human-readable form, line by line.
pub fn device_lines(devices: &Vec<Device>) -> (lines: Vec<String>)
    ensures
        line_list(lines@) == device_list_lines(crate::pipeline::types::device_list(devices@)),
{
    let ghost list = crate::pipeline::types::device_list(devices@);
    let mut lines: Vec<String> = Vec::new();
    if devices.len() == 0 {
        lines.push("No cast devices found on the local network.".to_owned());
        assert(line_list(lines@) =~= device_list_lines(list));
        return lines;
    }
    let mut head: String = String::from_str("Found ");
    push_decimal(&mut head, devices.len() as u64);
    head.append(" device(s):");
    lines.push(head);
    let ghost first = "Found "@ + decimal(devices@.len()) + " device(s):"@;
    let ghost shown = list.map_values(|d: DeviceText| device_line_text(d));
    let mut i: usize = 0;
    assert(line_list(lines@) =~= seq![first] + shown.take(0));
    while i < devices.len()
        invariant
            i <= devices@.len(),
            list == crate::pipeline::types::device_list(devices@),
            shown == list.map_values(|d: DeviceText| device_line_text(d)),
            line_list(lines@) == seq![first] + shown.take(i as int),
        decreases devices@.len() - i,
    {
        let ghost before = line_list(lines@);
        lines.push(device_line(&devices[i]));
        assert(line_list(lines@) =~= before.push(shown[i as int]));
        i += 1;
        assert(line_list(lines@) =~= seq![first] + shown.take(i as int));
    }
    assert(shown.take(shown.len() as int) =~= shown);
    lines
}

/// A list of devices is shown with one line for each, in the order of the list, below a line
/// that tells their number.
pub proof fn law_each_device_has_its_line(devices: Seq<DeviceText>, k: int)
    requires
        0 <= k < devices.len(),
    ensures
        device_list_lines(devices).len() == devices.len() + 1,
        device_list_lines(devices)[0] == "Found "@ + decimal(devices.len()) + " device(s):"@,
        device_list_lines(devices)[k + 1] == device_list_lines(seq![devices[k]])[1],
{
}

/// The transports of a device are shown in their order, with a comma and a space between
/// them, and no matter how many there are each of them is.
pub proof fn law_each_transport_is_shown(a: Seq<Protocol>, p: Protocol, b: Seq<Protocol>)
    ensures
        protocols_text(seq![p]) == protocol_text(p),
        protocols_text(Seq::empty()) == Seq::<char>::empty(),
        a.len() > 0 && b.len() > 0 ==> protocols_text(a + b) == protocols_text(a) + ", "@
            + protocols_text(b),
    decreases b.len(),
{
    if a.len() > 0 && b.len() == 1 {
        assert((a + b).drop_last() =~= a);
        assert((a + b).last() == b[0]);
    } else if a.len() > 0 && b.len() > 1 {
        law_each_transport_is_shown(a, p, b.drop_last());
        assert((a + b).drop_last() =~= a + b.drop_last());
        assert((a + b).last() == b.last());
        let (x, y, z) = (protocols_text(a), protocols_text(b.drop_last()), protocol_text(b.last()));
        assert((a + b).len() > 1);
        assert(protocols_text(a + b) == x + ", "@ + y + ", "@ + z);
        assert(protocols_text(b) == y + ", "@ + z);
        assert(x + ", "@ + y + ", "@ + z =~= x + ", "@ + (y + ", "@ + z));
    }
}

/// Only the first transport of a device decides its kind.
pub proof fn law_kind_is_that_of_the_best(p: Protocol, a: Seq<Protocol>, b: Seq<Protocol>)
    ensures
        device_kind_text(seq![p] + a) == device_kind_text(seq![p] + b),
        device_kind_text(seq![Protocol::AirPlayMirror] + a) == "AirPlay"@,
        device_kind_text(seq![Protocol::AirPlayVideo] + a) == "AirPlay"@,
        device_kind_text(seq![Protocol::Cast] + a) == "Cast"@,
        device_kind_text(seq![Protocol::Miracast] + a) == "Miracast"@,
        device_kind_text(seq![Protocol::Dlna] + a) == "DLNA"@,
        device_kind_text(Seq::empty()) == "Unknown"@,
{
}

/// The line of a device tells its name, then its address and its port with a colon between
/// them, and then all its transports in brackets.
pub proof fn law_line_of_a_device(d: DeviceText)
    ensures
        ({
            let line = device_line_text(d);
            &&& starts_with(line, "  • "@ + d.name + "  —  "@)
            &&& ends_with(line, "  ["@ + protocols_text(d.protocols) + "]"@)
            &&& line.len() == ("  • "@ + d.name + "  —  "@).len() + (d.address.text() + ":"@
                + decimal(d.port as nat)).len() + ("  ["@ + protocols_text(d.protocols) + "]"@).len()
            &&& occurs_at(
                line,
                d.address.text() + ":"@ + decimal(d.port as nat),
                ("  • "@ + d.name + "  —  "@).len() as int,
            )
        }),
{
    let line = device_line_text(d);
    let front = "  • "@ + d.name + "  —  "@;
    let middle = d.address.text() + ":"@ + decimal(d.port as nat);
    let end = "  ["@ + protocols_text(d.protocols) + "]"@;
    assert(line =~= front + middle + end);
    let (m, n) = (front.len() as int, middle.len() as int);
    assert(line.subrange(0, m) =~= front);
    assert(line.subrange(m, m + n) =~= middle);
    assert(line.subrange(m + n, line.len() as int) =~= end);
}

} // verus!
