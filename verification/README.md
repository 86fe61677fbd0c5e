# Zotero Exporter TUI

A terminal program that selects a Zotero collection or subcollection and copies all PDFs of that
branch into a directory, and the verified library on which it rests.

Files that the destination already has are skipped unless the export is forced. Tag filters use
AND matching: a PDF is exported only when its item has every selected tag, and the list shows only
collections whose branch holds a matching item. An item has a tag whatever the case of ASCII
letters; an item that has the lowercase equivalents of all the tags is found, too.

## The library (`src/`)

- `tree`, `lineage`, `library`: the tree of collections, how it is built from database rows, and
  what holds of parents, children and branches.
- `display`, `nesting`, `paths`, `branches`, `plan`: the list of collections, the export directories, and how
  rows, branches and directories fit together.
- `tags`, `fuzzy`, `selection`: tag filters, the tag search, choosing a collection, completion.
- `picker`: what each key does and what the screen shows.
- `query`, `matching`: database queries and file names, a model of the database that says which
  items it answers with, and what more tags do.
- `export`, `cli`: what becomes of each attachment, messages.
- `text`, `numbers`, `order`, `seqs`: strings, decimal numbers, stable sorting, sequences.

Each function states what it returns over mathematical values (`Seq`, `Map`, `Set`); the public
proof functions whose names begin with `law_` state what holds across functions. Of the standard
library four functions are trusted: `String::push`, `String::pop`, `str::to_lowercase` and
`Path::file_name`.

## The program (`app/`)

`app/` reads the database, walks the storage, draws the screen, waits for keys and copies files.
Every decision is a call into the library.

```bash
zotero_exporter_tui \
  --zotero-base-path "/path/to/Zotero" \
  --destination-dir "/path/to/export" \
  --collection "Parent Collection/Subcollection With Spaces" \
  --tag "reviewed" --tag "course"
```

Without `--collection` the picker opens: `Up`/`k` and `Down`/`j` move, `t` opens the tag picker,
`c` clears the tags, `f` toggles forcing, `Enter` exports, `q` or `Esc` quits.
