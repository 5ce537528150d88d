# rscrape

A command-line web scraper: it fetches a page, takes the text (or an
attribute) of the elements that CSS selectors match, shows the results as a
list or a table, exports them to JSON or CSV, and saves scrapes to a store
file so that they can be listed, checked, combined, run again and deleted.

The library in `src/` holds the logic, verified with Verus:

- `text` – splitting, trimming, joining and character removal on character
  sequences, with their specifications and lemmas.
- `presentation` – list or table, and the text that names each.
- `scrape` – a saved scrape and its store line: reading a line, writing one,
  and the proof that a written line reads back.
- `store` – lookups in the store text: names, combined scrapes, the scrapes
  saved under a name, the checks that a lookup can be made, and the proofs
  that what is saved is read back.
- `plans` – saving, combining and deleting: the lines to append or write back,
  and the refusals.
- `options` – the `<selector index>:<value>` options for attributes, prefixes
  and suffixes.
- `extract` – the texts that each selector selects in a page (through
  `scraper`), and their arrangement into rows.
- `export` – the JSON document, laid out (members `title` and `results`, one
  object per row) in the library's own value type and written out by
  `serde_json`, and the CSV text (through `csv`).
- `report` – the lines that the check command prints.
- `args` – the commands and their arguments.

`app/` is the program around it: the command line (clap), reading and writing
the store files, fetching pages (reqwest), asking for confirmation (inquire)
and printing (colored, cli-table).
