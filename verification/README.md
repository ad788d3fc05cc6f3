# lopdf

A verified writer and in-place editor for PDF byte buffers.

`src/` is the library, checked by Verus:

- `object`: PDF objects and dictionaries (keys kept in insertion order, each
  at most once).
- `writer`: the byte form of names, strings, arrays, dictionaries, streams
  and indirect objects, each stated as a specification the writer meets.
- `xref`, `xref_writer`: cross-reference sections, written as a table or
  as the rows and `Index` of a cross-reference stream.
- `document`: saving a whole document, or an incremental update after the
  bytes of earlier revisions.
- `startxref`: rewriting the number after the last `startxref`.
- `overwrite_document`: editing a saved file in place: replacing or
  appending an object, moving the offsets of the objects after it and
  rewriting the last cross-reference section.
- `text`: finding, for a text-showing operator of a content stream, the
  operators that set its position, leading and font size.
- `laws`: properties that relate several functions, proved.

`app/` holds what stays outside the verified library: writing files, font
metrics and text positions in floating point, and the Python class `Pdf`.

When an existing cross-reference stream is rewritten in place, its new rows
are written uncompressed: a `Filter` and `DecodeParms` it had are removed and
`Length` is set to the length of the rows. No Flate compression is applied to
the stream on purpose, as the library has no compressor whose output it could
state.
