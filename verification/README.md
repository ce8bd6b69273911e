# Sonic Share

Files and chat messages sent between devices as sound: a speaker plays a
transfer, a microphone receives it, and the receiver checks the content
against its SHA-256 before it keeps it.

`src/` is the verified library (Verus). It holds the protocol logic:

- `protocol`, `frame`, `rs`: FSK profiles and lanes, the frame layout with
  repeated sync and length bytes, CRC-8, and the interleaved Reed-Solomon
  blocks that protect it;
- `ofdm`, `hybrid`: the OFDM header and bit layout, CRC-16, the carrier plan of
  each lane, and the choice of layer for each packet;
- `transfer`: packets (manifest, shard, end, inline, handshake), the sender
  that compresses, shards and erasure-codes content, the receiver that
  reassembles it, and the proof that a transfer sent whole is delivered;
- `crypto`: AES-256-GCM framing and X25519 session keys;
- `app_state`, `cli`, `mobile`, `output`: the terminal front end's state, the
  sender's command line, mobile events and the names of saved files.

`app/` is the program around it: tone and OFDM waveforms (floating point),
sound devices, WAV files, threads, the terminal interface and the disk.

`tests/` runs the library with the real outside crates.
