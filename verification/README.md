# adventure-book

Choose-your-own-adventure books: an adventure is a folder with an
`adventure.txt` file (title, description, starting page, records and names)
and one text file per page (title, story, choices, conditions, tests and
results). A player reads a page, picks a choice, and the choice leads, maybe
through a dice test, to a result that changes records and opens another page.

The library under `src/` is verified with Verus:

- `text` — white space, splitting, decimal numbers, over sequences of chars.
- `dict` — the name-to-value maps that adventures and pages hold.
- `tags` — the `{condition: ..}`-style tags of choices and the `[keyword]`s of texts.
- `keywords` — keyword patterns and renaming, through the `regex` crate.
- `evaluation` — the seeded dice generator and the expression language
  (`2d6+[strength]`, pools, exploding dice, `l`/`h`), with its specification.
- `adventure` — records, names, conditions, tests, results, choices, pages and
  adventures: their text formats, checks and keyword edits.
- `read_back` — what is written out reads back as it was, for the contents
  that a text can hold (fields without `;` or line breaks, trimmed names,
  story lines that do not start with a page keyword).
- `game` — filling keywords into texts, which choices are open, following a
  choice, and applying the side effects of a result.
- `page_files` — which files of an adventure's folder are its pages, and
  their names in order.
- `editing` — the edits the book editor makes: renames that keep links intact,
  checks before removals, new keywords.

`tests/` runs the library on concrete books. `app/` is the window program
(FLTK): it reads and writes the files, draws the screens and calls the library.
