# HorizonCast

Cast your screen or a video to a smart TV on the local network, with no app on the TV.

The library under `src/` holds the logic, with contracts that Verus checks:

- `pipeline`: devices, errors, the presentation clock, the cast session
- `discovery`: merging mDNS and SSDP sightings into one device list
- `net`: MPEG-TS, RTSP, UPnP/SOAP, property lists, the answers of the media servers
- `capture`, `encode`: NV12 conversion, plane copies, Annex-B access units, encoder settings
- `sink`: the SOAP calls to a DLNA renderer, and the flow of a cast from its server to its end
- `cast`: choosing a device and a request, the capture and encode loop
- `text`, `bytes`: text and byte strings

Properties that span several functions are public proof functions whose names begin with
`law_`. What `quick_xml`, `plist` and std do is stated in `net/xml.rs`, `net/bplist.rs` and
`text.rs`, beside the functions that call them.

`app/` is the program around it: the command line, the desktop app, sockets, files, and the
capture and encoder backends. `tests/` holds the tests of the library.
