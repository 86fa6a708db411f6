# stroke

The logic of Stroke Order — a Chinese stroke-order and vocabulary app — as a
Verus library, with its contracts checked by the verifier.

## Layout

- `src/` — the verified library.
  - `text` — readable counts: `5,369 words`, `1 list`.
  - `url` — percent-encoding of route segments, with the proof that a segment
    built by `encode` decodes back to what it was built from, and that an
    unencoded segment without `%` reads as itself.
  - `storage` — recently viewed and saved characters, and the note the
    handwriting pad leaves for the page it opens.
  - `lists` — named vocabulary lists: cleaning titles and headwords, clamping a
    stored document into shape, and every edit (create, rename, delete, prune,
    import a course unit), with proofs of the full shape and order of a clamped
    document, that edits keep a document in shape, of what merging appends and
    that merging the same words twice adds nothing, that importing a unit twice
    opens the same list, and that every imported unit is found again.
  - `hsk` — course units and words, the characters a run of words is written
    with, band names.
  - `recognize` — the handwriting template file: its parse, the proof that a cut
    file is refused, and which templates are worth scoring.
  - `speech` — picking the best installed voice for Mandarin, from tags
    already lower-cased (`pick_by_lowered`) or as installed (`pick_voice`).
  - `search`, `history` — where a submitted search leads; whether a Back stays
    inside the app.
- `tests/` — tests of the library on concrete values.
- `app/` — the browser around it: `localStorage`, `sessionStorage`, session
  history, the speech synthesiser, the clock and random ids, the stored JSON
  document, and the floating-point scoring of drawings and animation timing.
