# torrent

The logic of a BitTorrent client, verified with Verus, and the program around it.

`src/` is the library. It does no input or output: where a file, a socket or the
clock is needed, a function says what is to be done and another one takes what
came of it.

- `bencode`, `numeral`, `order`, `meta`, `metainfo`: bencoded values and the
  metainfo of torrents, read and written.
- `magnet`, `strings`, `text`: magnet links and text.
- `protocol`, `wire`, `tracker`, `rpc`: what goes over the wire to peers, to
  trackers, and between the command line and the daemon.
- `piece`, `storage`, `digest`: which pieces are there, where their bytes lie in
  the files, and whether they are intact.
- `state`, `engine`, `session`, `announce`, `worker`: the download of one torrent.
- `creator`, `paths`: making a torrent.
- `server_model`, `server`, `table`, `persist`, `config`: what the daemon knows and
  what requests do to it.
- `*_laws`: what holds of several functions together.

`app/` is the program: the command line, the daemon's sockets, files and tasks.

`tests/` runs the library on concrete values.
