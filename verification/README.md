# ocr_corrector

A corrector for the output of optical character recognition and handwriting recognition,
made for old Russian texts. It joins words that were torn apart, turns digits and marks
inside words back into letters, and corrects other unknown words by errors that it has
learned from the texts themselves. The library is written in Verus: what each function
returns is stated in its contract and proved.

## Layout

- `src/`: the verified library.
  - `text`, `chars`, `order`, `counts`: text, character classes, ordering and counting.
  - `tables`, `sets`, `dictionary`: hash tables, hash sets and the dictionary.
  - `align`, `diffs`: edit distance, alignments and the differences they show.
  - `words`, `morphology`: words in their surroundings, surnames, stems.
  - `merge`: joining torn words.
  - `learn`, `learned`, `stats`, `examples`, `ngrams`: the first pass and what it learns.
  - `variants`, `candidates`, `correct`: the second pass.
  - `records`, `runs`: lines, records, batches, checkpoints.
  - `output`, `report`, `display`: what is written and shown.
- `app/`: the command-line program around the library. It reads and writes files, spreads
  texts over threads, and computes the floating-point scores of candidates.
- `tests/`: tests of the library.

## Scores and ranks

The library compares corrections by rank, a whole number that grows with the score. The
program computes the score of a candidate from the counts that the candidate carries, and
takes the bits of that double-precision number as the rank.
