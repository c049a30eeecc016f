# fitgirl_auto_downloader_mori

A downloader for game repacks hosted on fuckingfast.co: it collects the
download links of a game (typed in, scraped from a page, or read from an
encrypted paste), keeps them in `input.txt`, downloads each file and extracts
the archives.

The logic is a library verified with Verus (`src/`); the terminal front end
is ordinary Rust (`app/`).

## Layout

- `src/text.rs`, `src/lines.rs`, `src/sorted.rs`: characters, trimming,
  splitting into lines and joining, sorted unique lists.
- `src/json.rs`: the JSON document model and its compact text form.
- `src/patterns.rs`: the regular expressions, run by the `regex` crate, and
  what their matches are.
- `src/links.rs`: finding links in a page, naming them, paste addresses, and
  the `input.txt` list (removing a finished link).
- `src/categories.rs`, `src/board.rs`: the kinds of links (parts, optional
  files, others) and the list the user selects from.
- `src/pages.rs`: the file name and download address of a link's page, and
  the game a list of links belongs to.
- `src/paste.rs`: reading and decrypting an encrypted paste (base58 key,
  PBKDF2-SHA256, AES-256-GCM, raw DEFLATE).
- `src/archives.rs`: which archives of a download folder to extract, and the
  statuses of an extraction.
- `src/downloads.rs`: the decisions of the download queue: the step of the
  queue worker for one link (`queue_step`: each failure text, the page's file
  name and address, progress, finishing a link), the queue made when the
  selection is saved (`downloads_after_save`), and the step function of the
  downloads view (`downloads_tab_step`).
- `src/archives.rs` also holds the step function of the extractor view
  (`extractor_tab_step`); `src/board.rs` the selection split by kind.
- `app/`: the `get-links` (the default), `download`, `extract` and `session`
  commands; `session` runs the link list, the download queue and the
  extractor in the terminal, driven by the step functions.

Beside the contracts of each function, the library proves a few laws:
links saved to the list read back unchanged (`lines::lemma_saved_links_load_back`),
a removed link stays removed (`links::lemma_removed_link_is_gone`), sorting
links twice changes nothing (`categories::lemma_categorize_idempotent`), the
kinds of a sorted list are three ranges (`categories::lemma_sorted_kinds_contiguous`),
a leading `1` in a short paste key changes nothing (`paste::lemma_key_leading_one`), the same
links are added to the list once (`board::lemma_links_added_once`), the three
kinds of links split the list (`board::lemma_kinds_partition`), and exactly one
file of each RAR set, the first with the smallest part number, is extracted
(`archives::lemma_rar_choice`).
