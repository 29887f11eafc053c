# active_app_volume

The decision logic of CD-Active App Volume, an OpenDeck plugin that controls
the volume of the application focused on KDE Plasma Wayland through PipeWire,
written in Verus and proved against its contracts.

- `src/` — the verified library: process-tree matching of the focused window
  (`app_match`), `/proc` and D-Bus number parsing (`parse`), the stream
  registry that decides which PipeWire streams a command reaches and what a
  mute toggle sets (`streams`), the text and colors of the encoder display
  (`render`, `color`, `display`), the action's settings and gesture plans
  (`action`), and the per-instance appearance store (`refresh`).
- `tests/` — tests of the library.
- `app/` — the plugin process: OpenAction events, the PipeWire thread, the
  KWin D-Bus bridge, `/proc` reads, and the floating-point volume and gauge
  geometry.
