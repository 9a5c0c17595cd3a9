# matugen

A color-scheme and template tool built around Material You colors, written in
Verus: the library's logic carries `requires` / `ensures` contracts that Verus
proves.

Layout:

- `src/` — the verified library.
  - `lexer.rs`, `parser.rs`, `keywords.rs` — the token reader of the keyword
    syntax (`{{ colors.primary.default.hex | set_alpha: 0.5 }}`) and the parser
    that turns tokens into keywords, filters and filter arguments, with the
    errors it reports; `report.rs` writes an error out as it is shown.
  - `template.rs` — the template grammar (keywords, filters, `for` loops, raw
    text) as a parser over characters.
  - `render.rs` — rendering parsed templates against a JSON context: raw
    text, values at dotted paths with their text filters applied, colors
    with their format and filters, and loops over lists and maps with their
    variables bound.
  - `textfilters.rs` — the text filters (`replace`, `to_upper`, `to_lower`,
    the case conversions); `colorcache.rs` — which color a filtered color
    starts from, and the colors that filters left, by scheme and name.
  - `quantizer_wu.rs` — the histogram, moments and box sums of Wu's color
    quantizer.
  - `color.rs`, `cache.rs`, `json.rs`, `helpers.rs`, `filters.rs`,
    `degrees.rs` — color notations and hexadecimal colors, the image cache
    names, JSON merging, command-line settings and text filters.
- `tests/` — tests of the library on concrete values.
- `app/` — the command-line program: file and image input, base16 colors
  from a source color, the color formats and the color filters (which
  compute in floating point), serialisation.
