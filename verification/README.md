# viroh

Peer-to-peer synthetic video, rendered as text in a terminal, with a fleet manager
for the agents that send it. The logic is a library verified with Verus; the
programs around it are ordinary Rust.

| module | what it holds |
| --- | --- |
| `video` | frames and the picture source: timecode on a black panel, sweep bar, border, captions |
| `font` | the 5x7 font of the picture |
| `codec` | frames to JPEG images and back, by `jpeg-encoder` and `zune-jpeg` |
| `jpeg` | which images the decoder can be handed: their headers and their data |
| `wire` | the stream format: length-prefixed messages, metadata first |
| `render` | frames as characters or half blocks, fitted to a terminal |
| `binary64` | double-precision arithmetic on integers, for what is laid out in doubles |
| `sender`, `receiver`, `preview` | what the programs announce, decide and lay out |
| `fleet` | which agents there are, and what requests and events do to them |
| `gateway` | a stream's frames as a live multipart answer |
| `text` | building and searching strings |

What holds across functions is stated as public proof functions: in
`render::fit`, `render::laws`, `video::laws` and `fleet::laws`, and beside the
functions in `wire`, `sender` and `gateway`.

Trusted, and named at each place: `String::push`, the JPEG encoder and the JPEG
decoder.

`app/` holds the programs: the sender, the receiver, the fleet manager and an
offline preview. They do the input and output and hand the library plain values.
