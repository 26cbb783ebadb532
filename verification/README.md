# mora

A prosody engine built on the mora, verified with Verus: syllabification by
onset maximization under the sonority hierarchy, syllable weight in morae,
accentual and quantitative scansion, and rhyme, assonance, consonance and
alliteration between pronunciations. English comes as an ARPAbet table and a
CMUdict line splitter.

- `src/` is the verified library; each public function's contract states its
  result over the spec functions beside it, and the `lemma_*` proof functions
  state the properties that hold across functions.
- `tests/` runs the library on concrete pronunciations and lines.
- `app/` holds the measures that read a ratio as a floating-point number
  (`fit`, `agreement`, and the combined `Sonance` comparison), built on the
  counts the library verifies.
