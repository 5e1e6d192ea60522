# segtables

The generator of the Meadow package's Unicode segmentation data, as a
verified library: it writes `src/Tables.mw`, the break category of every code
point for graphemes, words and sentences with the other properties the rules
consult, and `src/Cases.mw`, strings with the segmentations that the
`unicode-segmentation` crate gives them.

- `fnv`: the FNV-1a fingerprint of the rule sources.
- `encoding`: base-64 digits, offset lists and table records.
- `literal`: string literals broken into lines, and how they read back.
- `runs`: maximal runs of a code point property.
- `category`: the break categories, their numbers and listing, and the
  Indic_Conjunct_Break=Linker list of twenty code points, written out here
  since the crate keeps it private.
- `pool`: the characters that random test strings are built from.
- `rng`: the xorshift64* generator.
- `order`: byte order on strings, sorting without duplicates.
- `segment`: the calls into `unicode-segmentation`, and offsets of segments.
- `tables_file`, `cases`: the two files.
- `publicise`: the rewriting that makes the items of a module public, for
  reading the crate's property tables from a build.

`app/` is the program around the library: it hands the crate's property tables to the library and writes the files.
