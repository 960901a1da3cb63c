# novel_to_epub

Downloads the chapters of three web novels and writes each as an EPUB book.

- `src/` is the verified library (Verus):
  - `text`: substring replacement (`replace_all`) against the model `replaced`,
    with lemmas on when a replacement leaves a pattern absent;
  - `utils`: `clean_html` (void tags made XHTML) and
    `decrypt_open_sans_jumbld` (the font cipher), with their laws;
  - `page`: decimal numbers, chapter names and titles, the XHTML page templates;
  - `scrape`: the HTML queries answered by `scraper`, and the text rules
    applied to their answers;
  - `novels`: each novel's title, author, assets and output file, where its
    chapters are found, and how a chapter page becomes a book page;
  - `epub`: the assembly of the book with `epub_builder`, in three steps
    (`begin_book`, `add_chapters`, `finish_book`) or at once (`assemble`,
    `generate_epub`), modelled by the archive's entries, the manifest, the
    table of contents and the metadata.
- `app/` is the program: it reads the assets, downloads the pages with
  `reqwest`, and writes the books under `./out/`.
- `tests/` runs the library on concrete inputs; the books it writes are read
  back with the `zip` crate.
