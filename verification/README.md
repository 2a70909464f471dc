# serial-repack

Multi-channel serial packet capture, timestamped storage, timed replay and
per-channel export, for fixed-length serial protocols (fixed header, fixed
whole-packet length, fixed tail).

The library in `src/` is written in Verus and verified: every public function
states what it returns in `ensures`, and the properties that span functions
are public proof functions.

- `packet`: the frame parser (`PacketParser`) with resynchronisation, and
  its laws: byte accounting, and the same packets however the stream is
  split into reads.
- `log_format`: the `.srp` log (layout, writing, reading, the live log
  written during capture), with the round-trip, truncation and live-log laws.
- `config`: channel configuration and its validation.
- `replay`: `channel=port` mappings and the replay schedule.
- `recorder`: packet timing on the wire, timestamps, capture bookkeeping and
  the channel status line.
- `matlab_export`: per-channel `data.bin` and `timestamps_ns.bin` contents.
- `byte_codec`, `text`, `sorting`: little-endian numbers, decimal text,
  stable ordering.

`app/` is the command-line program around the library: argument parsing,
TOML reading, files, serial ports, threads, the clock, and the floating-point
replay speed and time window.
