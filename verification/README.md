# vigb_decoder

A verified decoder for PaperPort 2 (`.max`, "ViGBe") scanned documents,
written in Verus. Each image chunk of a `.max` file holds a 1-bit bitmap
compressed with CCITT-T.6 (Group 4 fax) behind a per-line marker
dispatcher; the library decodes the chunks into pages and writes them as
a PDF.

Layout:

- `src/` — the verified library: the bit reader (`bitstream`), the
  CCITT code tables (`ccitt`), chunk discovery (`chunks`), the line
  decoder (`decoder`), the marker dispatcher (`dispatch`), the preview
  thumbnail decoder (`preview`), the PDF writer (`pdf`), configuration
  and command-line options (`config`, `cli`), errors and number
  rendering (`error`, `text`), and `decode_max` in `lib.rs`. Every
  function carries a contract over spec functions that Verus proves,
  except two trusted wrappers around outside calls whose contracts Verus
  takes on trust: `lowercase_str` (std's `str::to_lowercase`, in `cli`)
  and `zlib_compress` (flate2's zlib encoder, in `pdf`).
- `tests/` — executable tests, including a CCITT-T.6 line encoder that
  builds a synthetic `.max` file and checks the round trip.
- `app/` — the `vigb-max2pdf` command-line converter: argument parsing,
  file I/O and error display around the library.

Properties proved beyond the functions' own contracts include: the bit
cursor keeps its origin across `peek` and `consume`; every line table
opens with `-1` and closes with the width twice
(`lemma_decomp_line_shape`); lazy and eager refill agree on lines that
end well before the input does (`lemma_lazy_eager_line`); the dispatcher
handles at most one marker per byte of the chunk
(`lemma_markers_bounded`), keeps smart resync within its probe budget
(`lemma_page_resync_bounded`) and ignores the switches that have no
effect (`lemma_decoding_ignores_other_switches`); lazy and eager refill
decode a chunk alike when its lines end clear of the input's end
(`lemma_lazy_eager_chunk`); the chunk scan returns exactly
the reachable image chunk headers (`lemma_scan_exact`); the preview
decoder reads nothing past its byte limit
(`lemma_preview_rle_prefix_only`); and the PDF's cross-reference offsets
and object layout match its objects (`lemma_xref_offsets`,
`lemma_pdf_objects_layout`, `lemma_all_images_count`).
