# selkies

The verified core of a WebRTC desktop-streaming server: what the server says to browsers and to
its signaling server, what it makes of what they say, and how it declares its devices and plans
its media pipeline. Verus proves every function of the library against its contract.

- `src/` is the library.
  - `text`, `number`, `double`, `codec`, `pattern`, `json`: texts, numerals, doubles, base64, regular
    expressions, JSON
  - `messages`: the messages of a client
  - `signaling_proto`, `client`: the signaling protocol and its client
  - `sdp`, `nal`: session descriptions, and HEVC parameter sets
  - `settings`, `splice`, `hevc`, `offer`: what holds of settings in session descriptions
  - `oracle`: recorded sessions and their comparison
  - `input`, `mouse`, `uinput`, `gamepad`: input and virtual controllers
  - `stats`, `pipeline`: bitrates, encoders, and the plan of the pipeline
  - `error`: errors in words
- `tests/` runs the library.
- `app/` is the program around it: files, sockets, devices, GStreamer, and floating point.

What the library takes on trust from other crates stands in the items marked `external_body` and
`assume_specification`; each says what it claims.
