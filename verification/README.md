# archive_sql

An archive target that keeps each item as one SQL `INSERT` line in a script
per data type, `<root>/<data_type>.sql`, and restores an item by reading the
script back for the last statement that names it. The script is vendor-neutral
ISO SQL, so it loads into any database; the library reads it without one.

The library (`src/`) is verified with Verus:

- `statement`: the `INSERT` line of one item, written and read back. Reading a
  written line gives the row back; a line cut anywhere short of its end is
  refused.
- `literal`, `hex`: the two literal forms, quoted strings with doubled quotes
  and `X'...'` hex strings.
- `metadata`: metadata pairs in one text column, with the separators U+001E
  and U+001F.
- `store`: script names, receipts, the line to append when archiving, and what
  a script's text restores.
- `laws`: what holds across these, above all that an archived item restores
  from its script.
- `digest`, `clock`, `text`: the SHA-256 checksum, the timestamp, and the
  character helpers.

`app/` puts the library on disk: it appends the planned line to the script and
reads the script a receipt names.
