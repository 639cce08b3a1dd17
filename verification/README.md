# boko (verified core)

The verified core of an ebook converter, written in Verus.

- `chapter`, `links`, `fuse`: the chapter node tree and the pass that fuses
  fragmented lists (`<ul><li/></ul><ul><li/></ul>`), with the laws that it
  keeps attributed nodes and non-lists, removes a node only by fusion, keeps
  document order, and leaves a chapter without neighbouring fusable lists as
  it is.
- `text`, `strmap`, `bytes`: strings as character sequences, small maps keyed
  by strings, big-endian integers and base-32 numerals.
- `anchors`, `guide`, `toc`: link targets (`filepos` anchors, element ids),
  the K8 guide entries and the flattened NCX.
- `kf8_links`, `kf8_text`, `resources`, `kf8`, `azw3`: the KF8 (AZW3)
  records: link placeholders and their resolution, the text flows and
  records, the resource and FONT records, FDST/FLIS/FCIS/EOF, the EXTH block,
  record 0 and the PalmDB file.
- `positions`: the KFX position, position-id, location and container entity
  maps.

`app/` holds the clock and the writer around the library, the assembly of
a whole KF8 book from the library's steps (with the HTML rewriter, chunker,
compressor and index writers supplied by the caller), and the KVG equation
emitter, whose floating-point geometry stays outside the verified library.
