# hylarana

The verified core of a screen-casting toolkit, written in Verus: the wire
formats, fragmentation and reassembly, reordering and loss detection of its
transports, and the audio and texture bookkeeping around its players.

## Layout

- `src/` — the verified library.
  - `be`, `chunk`, `checksum`, `clock`: big-endian fields, splitting byte
    strings, the CRC-32 and XXH3 checksums (from the `crc` and `xxhash-rust`
    crates) and the monotonic clock.
  - `multicast`: the multicast transport — control and data packets, the
    packet encoder and decoder, message fragments, the reorder queue with
    loss detection and the retransmission store, the remuxer, and the
    sender's and receiver's per-datagram logic.
  - `srt`: SRT socket options and message fragments.
  - `physeter`: packets of the linear stream transport and its encoder.
  - `mirror`, `hylarana`, `resample`: the audio queue of the player, the
    chunking of captured audio for the encoder, and the channel selection
    before sample-rate conversion.
  - `graphics`, `media`, `capture`, `camel`, `rist`: texture plane layouts,
    plain media descriptions, capture handles, export naming and RIST codes.
- `tests/` — tests of the library on concrete values.
- `app/` — the sockets, threads and floating-point resampler around the
  library.

Every public function states what it returns in its contract; the laws that
tie several functions together (what the receiver makes of what the sender
sent, that decoding a packet gives back what was encoded, that reassembly
gives back the message) are public proof functions next to them.
