# mumford

Format-aware diff engines for common document types (plain text, PDF, Word,
Excel, RTF, PowerPoint, JSON, folders), built on the `tate` diff algorithms
and verified with Verus.

## Layout

- `src/` — the library. Its logic is verified: the functions carry
  `requires` / `ensures` contracts that Verus proves. Calls into `std` and
  outside crates stand behind small trusted wrappers whose contracts Verus
  takes as given, and a few private helpers that only convert outside values
  into this crate's types carry no contract.
  - `text.rs` — lines of a file and the counted, paired line diff.
  - `docx.rs` — the `word/document.xml` walker (paragraphs and top-level
    tables) and the paragraph/table diff.
  - `pptx.rs` — slide text extraction, slide alignment by Jaccard similarity,
    and the per-slide diff.
  - `excel.rs` — sheet normalisation, header detection, sorted sheet union,
    the per-sheet grid diff and the content fingerprint.
  - `pdf.rs` — page texts split into lines, running headers and footers
    stripped, then the line diff.
  - `rtf.rs` — an RTF reader that collects table rows of cell texts, and
    their grid diff.
  - `folder.rs` — files matched by path, then by SHA-256 content hash to
    find renames.
  - `json.rs` — JSON text parsed with `serde_json`, turned into `tate`
    trees, and their structural diff.
  - `lib.rs` — extension-based engine choice and the unified result.
  - `xml.rs`, `ops.rs`, `grid.rs` — the calls into `quick-xml` and `tate`
    (events, line edit scripts, the aligned grid with per-cell status),
    each behind a small trusted wrapper whose contract states what the
    crate's source shows.
  - `strs.rs`, `order.rs`, `sort.rs` — string helpers, string order and a
    stable sort by key.
- `app/` — the unverified shell: reading files, walking folders, zip
  containers and workbooks, formatting float cells, and running the engine
  that the library picks. PDF page text extraction needs the pdfium library,
  which no available crate binds, so `app/` reports it as unavailable.
- `tests/` — tests against the library.

The laws of the library (slide alignment covers every slide exactly once,
identical inputs report no change, document paragraphs are numbered in order
and trimmed, lines join back to the text, and so on) are public proof
functions next to the code they speak of.
