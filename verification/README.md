# lan_mesh

A small self-hosted peer-to-peer virtual LAN: every member runs the
program, exchanges a one-line peer card once, and gets a virtual network
adapter whose traffic is encrypted with a shared key and sent straight to
the other members over UDP (broadcast and multicast are flooded to all of
them, so LAN game discovery works).

## Layout

- `src/` — the library, verified with Verus: wire formats (packets,
  gossip, peer cards, STUN, DNS), the peer table and its merge rules,
  routing, keepalives, public-address discovery decisions, local domain
  names (hosts-file block and resolver answers), configuration edits, the
  bootstrap directory's checks, and the rules of the command-line tool,
  the GUI forms, the embedded browser and the self-updater. Each public
  function states its result in `ensures`, except where the result is a
  clock reading or sits inside a std `Mutex` (`now_secs`, `shared`,
  `new_log_buffer`, `DnsHandle::stop`), which nothing here can state; the laws that span several
  functions are public proof functions (`lemma_*`).
- `app/` — the `meow-meow` command-line program around it: sockets, the
  virtual adapter, threads, files (`mesh.toml`, `/etc/hosts`,
  `/etc/resolv.conf`), STUN and DNS network calls, and the updater's and
  autostart's calls to system tools.
- `tests/` — tests of the library on concrete values.
