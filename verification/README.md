# mdpeek

A progressive-disclosure index of the markdown and text documents in a
repository: list documents with their token costs, outline one document's
sections, show a whole document or one section, and search them all.

The library (`src/`) holds the rules, each function with a Verus contract:

- `id`: document IDs (8 hex characters of the SHA-256 of the repository
  path) and section IDs (6 hex characters of the SHA-256 of the content).
- `parse`, `snippet`: splitting a document into heading sections with
  breadcrumbs, first-sentence snippets and code-token counts.
- `token`: token counts and token windows with the `cl100k_base` encoding.
- `sync`: when a scan is fresh enough to skip, which files are new, changed
  or gone, document titles, and the rows stored for a document.
- `index`, `outline`, `toc`, `search`, `show`: the text renderings and the
  grouped listing, target parsing, code stripping and token budgets.
- `walk`: which walked files are documents (extension, the user's ignore
  patterns) and the order they are listed in.
- `db`, `repo`, `cache`, `paths`, `calendar`, `ignore_cmd`, `text`: lookups by
  ID prefix, repository roots, cache paths, path components, dates, the
  `ignore` command's decisions, and character-sequence helpers.

The command-line program (`app/`) parses arguments, walks the file system,
and keeps the sqlite database and the full-text index; the choices it makes
on what it reads (which files are documents, what changed, what to show)
are the library's, with one exception: which stored IDs match a prefix is
answered by the database (a SQL `LIKE` prefix query, at most ten rows,
ignoring ASCII case), and the library decides what those matches resolve
to.
