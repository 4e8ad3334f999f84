# pico2w_shell

A small network shell for the Raspberry Pi Pico 2 W, written as a Verus-verified
library (`src/`) and the Embassy firmware around it (`app/`).

The library holds what the firmware decides and formats; every public function
carries a contract and is proved by Verus:

- `text`, `number` — character and byte-length helpers, bounded buffers, trimming,
  searching, decimal numerals and their parsing.
- `datetime` — Unix time to civil date and time, the NTP epoch, the date text.
- `path` — resolving a path against the working directory.
- `config` — the `wifi.conf`, `ntp.conf` and `timezone.conf` file formats.
- `cli` — the command set, command-line dispatch with the network authentication
  gate, and the decision and reply of each command.
- `editor` — the console line editor.
- `dhcp` — the setup access point's DHCP server (request reading, reply building).
- `zeroconf` — the mDNS responder for `pico-XXXXXX.local` and the link-local fallback.
- `ntp` — the SNTP request, the transmit time of a reply, what a sync sets and logs.
- `http` — when a request is complete, where it is routed, the fixed replies.
- `scan` — the Wi-Fi scan report and its transfer in chunks.
- `device` — the id text and the names derived from the chip id.
- `logfile` — the system log's line format and rotation threshold.

Laws that relate several functions (read-back of written configuration, the
authentication gate, idempotence of path resolution, the editor's erase and submit
behaviour, uniqueness of a date for its Unix time, bounds of every fixed buffer) are
public proof functions next to the functions they speak of.

The firmware's fixed-capacity text and vector buffers (`heapless::String<N>` and
`heapless::Vec<T, N>`) are stated by their behaviour rather than called: every operation
the shell uses on them (`push`, `push_str`, `extend_from_slice`, and collecting into a
full vector) is all-or-nothing against the capacity, which `text::bpush`, `text::fit` and
`text::fmt_pieces` state in a few lines.  The library keeps its text in `String`/`Vec`
and proves every buffer's capacity against those statements.  Verus accepts a declaration of the heapless types, but their contents
could then only be described by one uninterpreted function per capacity (the capacity is
a const generic parameter and such a function has no generics), each with its own set of
wrappers: 6, 16, 32, 64, 128, 256 and 2048 bytes and vectors of 2, 8 and 32 items.  The
operations' whole behaviour is the few-line all-or-nothing rule above, so the library
states and proves that rule instead.

`app/` drives the hardware and the network with Embassy, littlefs2 and cyw43, and
calls the library for every decision.  `tests/` exercise the library on concrete
values.
