# fm-ntrip

An NTRIP server and caster for a USB serial GNSS receiver, and a rover client for
it. What the programs decide and compute is a library verified with Verus; what is
left around it opens sockets and serial ports, prints and logs.

The caster reads an RTCM 3.x correction stream from the receiver and rebroadcasts it
to every rover that asks for the configured mountpoint with the configured
credential. The rover client asks for a stream and decodes it, or prints the
caster's source table.

## Layout

`src/` is the library:

| Module | What it holds |
|--------|---------------|
| `rtcm` | RTCM 3 deframing and message decoding |
| `crc`, `bits` | CRC-24Q as polynomial division, big-endian bit fields |
| `framing` | What holds of every byte stream that is scanned for frames |
| `caster` | Source table, request parsing, answers, the pump to a rover |
| `rover` | Request, status line, source table and stream of a rover, with its summary per message type |
| `handshake` | What holds of the handshake between the two |
| `credentials` | HTTP Basic credentials |
| `serial` | The serial link's state machine and its heartbeat |
| `gnss` | Status decoded from the stream |
| `selftest` | The hardware self-test's counts, report and verdict |
| `listing`, `text` | Ordered lists of message numbers, lines of text |

Proof functions whose names start with `law_` state what holds of the library as a
whole: that the cut of the stream does not matter, that a frame damaged within 24
consecutive bits is not accepted, how a caster answers a rover, that a rover reads
back the source table, and so on.

`app/` is the two programs, `fm-ntrip` and `fm-ntrip-client`; the binary is the client
where it is started under the client's name. Floating point stays there: the
library works on positions in units of 0.1 mm and takes numbers written out.

`tests/` runs the library on concrete values.

## What is not proved

One function is trusted: the Base64 encoder of the `base64` crate, which
`credentials` calls. Its contract is the encoding of RFC 4648.
