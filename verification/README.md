# trackmatch

Verified logic of a music player's track providers.

- `src/` (verified with Verus)
  - `text.rs`: strings as character sequences; splitting, whitespace words,
    replacement, trimming, substring search and decimal parsing.
  - `matcher.rs`: title normalisation, token overlap, Levenshtein distance
    (with its metric laws) and duration agreement bands.
  - `json.rs`: a JSON document model with key lookup and JSON pointers.
  - `track.rs`: the track record and the curated catalogue.
  - `ytmusic.rs`: reading tracks out of YouTube Music search responses,
    picking audio stream URLs, and the search and stream-resolution decisions.
- `app/`: floating-point similarity scores and the HTTP client around the
  library (reqwest, serde_json).
- `tests/`: tests of the library.
