# picolv2

The host-side tool chain of PicoLV2 (the system that runs LV2 plugins and
plugin graphs on a Raspberry Pi Pico 2): the formats, readers and compilers
that turn plugins and patches into a flash image, written in Verus with their
behaviour stated as contracts and proved, together with a few small pieces of
the device side.

`src/` is the verified library:

- `bundle`, `le`: the flash-resident bundle (`PICO LV2`) and graph
  (`PICO GRP`) formats and their readers.
- `pack`, `uf2`: writing a bundle, laying out a 2 MiB flash image, and
  converting an image to UF2.
- `builder`: the firmware image from an ELF file's loadable segments,
  the plugins a graph needs, and the summary of a written image.
- `rdf`, `manifest`: Turtle documents read into statements, bundle
  manifests and the graph path they name, file IRIs and percent escapes.
- `ingen`, `topo`, `order`: compiling an Ingen graph into a topologically
  ordered graph; `arc_graph`: the packer's graph of blocks and arcs in
  document order.
- `graph`, `patch_formats`: the richer graph model read from Ingen bundles and
  MOD pedalboards, and its encoding with ports, outputs, overrides and MIDI
  bindings.
- `metadata`, `plugin_ports`, `decimal`: plugin port descriptions and
  their compact port records.
- `connect`, `midi`, `atom`, `voices`: small pieces of the device side: how
  graph edges and MIDI bindings are wired, MIDI events, atoms, voices.

`app/` is the `lv2-bundle` command-line tool (`pack`, `uf2`, `info`), which
reads and writes files and calls the library. `tests/` exercises the library.
