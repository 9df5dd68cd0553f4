# fastctx

Searching, listing and replacing text in source trees for callers with a limited token budget.
The decisions are a Verus library; everything that touches files, threads or the network stands
around it in an ordinary program.

## The library (`src/`)

- `encoding`: what text a byte string holds. Byte order marks, strict UTF-8, requested labels and
  a guarded guess at legacy encodings; incremental decoding that gives the same text whatever the
  chunks are; encoding of edited fragments.
- `snapshot`: capturing a file once. When a verdict on its bytes is final, where they are kept,
  and whether the file stayed the same meanwhile.
- `grep`: searching captured files. What is kept of each match, how the outcomes of candidates are
  folded into one page in their order, and how the page is written within a budget.
- `glob`: listing files. Which entries are shown, in which order, and how.
- `edit`: batch replacement. The pattern, the byte-preserving splice, the two passes over the
  files with their commit decisions, locks by identity, and private directories.
- `ordered_window`, `ordered_run`, `executor`, `parallel`: running candidates ahead of their turn
  with a bounded number of workers, and handing their outcomes over in order.
- `environment`: the variables that a command is run with.
- `head_note`, `page`, `paging`, `text`, `ordering`, `bytes`, `queue`, `model`, `model_guidance`,
  `operation`: what the others share.

Every function states what it returns. Calls into other crates (`encoding_rs`, `chardetng`,
`regex`, `regex-syntax`, `grep-regex`, `grep-matcher`, `grep-searcher`, `sha2`, `hex`, `time`,
`serde_json`) stand behind small functions whose contracts say what is taken for granted.

## The program (`app/`)

A tool host that reads one request per line and answers with one response per line; a `cancel`
line stops the searches and listings that were asked for before it. It walks directories, reads
and writes files, takes locks and runs workers, and asks the library what to do at each step.

## Tests (`tests/`)

The tests run the library with the real outside crates.
