# archidekt_live_set_completion

Set-completion reports for a card collection exported from Archidekt: for
every set the collection has cards of, which of the set's cards (from a
Scryfall database snapshot) the user owns, in collector-number order, with
the sets ordered from most to least complete.

- `src/` is the library, verified with Verus:
  - `models` — cards, database cards, sets and set reports, and the
    conversions from export rows and database cards to cards;
  - `string_map` — a string-keyed map of image links;
  - `grouping` — cards grouped by set code;
  - `sorting` — the stable sort by rank that orders cards and reports;
  - `provider` — the set reports (`process_data`) and the laws they obey;
  - `archidekt` — the requests of a paged collection export;
  - `web` — what the pages and routes of the server hold.
- `app/` is the web server: HTTP requests, CSV and JSON decoding, the
  database snapshot file, templates, and the floating-point completion
  shares shown on the pages.
- `tests/` runs the library on concrete values.
