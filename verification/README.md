# rnp-sexp

S-expression parser and serializer for OpenPGP key formats (SPKI/SDSI
syntax and the GnuPG extended private key format), written in Verus: the
functions of the library carry contracts that Verus proves; the few calls
into the standard library that vstd does not describe (UTF-8 conversions,
appending to a `String`) stand behind trusted declarations in `text` and
`error`.

Layout of `src/`:

- `chars`, `num`, `text` — character classes, decimal and other radixes,
  byte/character conversions.
- `types` — `Sexp`, `SexpList`, `SexpString` and their mathematical model.
- `error` — the error type, diagnostics and their message text.
- `depth` — the nesting-depth counter.
- `input` — the streaming reader (`SexpInputStream`).
- `output` — the printer (`SexpOutputStream`): canonical, advanced, base64.
- `parse` — the one-pass parser over a byte slice; `{...}` holds a
  base64-encoded canonical object.
- `ser` — serialization to a string or to canonical bytes; the advanced
  form breaks lines before elements that would not end within 75 columns.
- `line_limit` — the law that the advanced form keeps to 75 columns where
  line breaks can.
- `ext_key` — the extended private key format.
- `region` — what the streaming reader decodes inside a hexadecimal or
  base64 region.
- `round_trip`, `advanced_round_trip`, `stream_round_trip`,
  `base64_round_trip`, `advanced_stream_round_trip`, `depth_limit` — the
  laws: what the serializer and the printer write in canonical, advanced or
  base64 form is read back, canonical text and canonical bytes agree, and
  both the parser and the printer keep the nesting limit.

`app/` holds what Verus does not see: process-wide verbosity and interactive
printing of warnings, and an error type with `std::error::Error`.
