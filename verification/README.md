# stream_server

The decisions of a media streaming server, with contracts that Verus proves.

- `src/` is the library. It indexes disc images (ISO 9660 with Joliet and Rock
  Ridge, and UDF), finds and windows the members of archives, reads NZB
  articles and `.torrent` files, keeps sessions and caches, judges traffic, DHT
  health and disk budgets, redacts what goes into logs, and steps a server
  through its start and its end. Nothing in it does I/O.
- `tests/` runs the library, with the crates it calls linked in.
- `app/` is the server round the library: sockets, files, tasks, clocks, and
  the crates that decode archives and speak HTTP.

What is not proved is what the library takes from other crates and from the
standard library. Each such call stands in a small function marked
`external_body`, or in an `assume_specification`, whose comment says what is
taken on trust.
