# fileslug

Slug generator for filenames and arbitrary text, verified with Verus.

- `slugify` turns a filename into a clean, shell-safe slug while keeping its
  extension (compound ones such as `.tar.gz` included), its dotfile status and
  any version numbers (`app-1.2.3.dmg`). Names longer than 255 bytes are cut at
  a word boundary.
- `slugify_string` does the same for plain text, with no extension handling,
  and caps the result at 1024 bytes.

Layout of `src/`:

- `extension.rs`: `split_extension` and the specification of where an
  extension starts.
- `version.rs`: protection of dots inside version numbers and its inverse.
- `words.rs`: bracket removal, splitting into words, lowercasing and joining
  in a style.
- `truncate.rs`: byte-budget truncation on character boundaries.
- `slug.rs`: the two pipelines, with `any_ascii` for transliteration.
- `text.rs`, `unicode.rs`: character classes, UTF-8 lengths, and the few
  standard-library string functions that the proofs rely on.
- `laws.rs`: properties of the pipelines as a whole (length limits, kept
  extension, the shape of ASCII slugs, slugs that slugify to themselves).
