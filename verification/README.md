# name_formatter

Cleans up messy name lists (inconsistent case, stray whitespace, mixed
delimiters, case-only duplicates, junk entries) so they can feed a random
name generator, and draws weighted samples from the cleaned list.

The library in `src/` is verified with Verus:

- `text.rs`: character helpers, and the calls into the standard library for
  Unicode properties and case mappings. The `White_Space` property is spelled
  out; the `Alphabetic` property and the case mappings are named by
  specification functions.
- `normalize.rs`: splitting, trimming and title-casing entries, the
  plausibility filter, counting and deduplicating case-insensitively,
  sorting (a verified merge sort), and the whole cleaning pipeline, with
  their laws. Counting looks names up in vstd's `StringHashMap`.
- `sample.rs`: the xorshift64* generator and weighted sampling with
  replacement; the scaling of a draw to a position is done exactly in integer
  arithmetic. That this integer scaling agrees with double-precision
  arithmetic is checked by a test in `tests/behaviour.rs`, not proved.
- `cli.rs`: command-line options and joining several inputs into one text.

`app/main.rs` is the command-line program: it reads files or standard input
and prints the cleaned (optionally sorted) names or a weighted sample.
