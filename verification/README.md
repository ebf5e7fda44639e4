# hanzi_core

The verified core of a tutor for simplified Chinese: handwriting practice,
tone practice, a vocabulary list and a review schedule. Everything in `src/`
is checked by Verus against its contracts; `app/` is the program around it.

## `src/` — the verified library

| module | what it holds |
| --- | --- |
| `text` | string helpers: trimming, joining, decimal digits, text order |
| `pinyin` | splitting readings into syllables, tone marks, tone sandhi, what was heard against what was asked |
| `time` | ISO-8601 timestamps: civil calendar arithmetic, formatting and parsing |
| `decompose` | ideographic description sequences of characters |
| `settings` | the learner's preferences, their document and its store |
| `grade` | verdicts, grades and stroke-order faults of a handwriting attempt |
| `tone` | tone names and which tones are scored |
| `progress` | ratings, the review queue and the practice cursor |
| `dataset` | words, tone sets, folding, word and character search, text lookup |
| `lexicon` | the dataset container: characters in frequency order, each word once |
| `order` | a merge sort of positions under a strict total order |
| `artifact` | the shipped dataset's framing: magic number and gzip compression |
| `outline` | splitting the path data of character outlines into commands and numbers |
| `ink` | the bitmap of the character box: inked cells, joining drawings, shared cells |
| `prepare` | building the dataset from the upstream dictionaries |
| `vocab` | the learner's vocabulary list and its store |
| `curriculum` | splitting the course into lessons |
| `trainer` | word families for the tone trainer |

Laws that span several functions are public proof functions named `law_…`.

## `app/` — around the library

Floating-point work (stroke geometry, rasterised ink, pitch tracking, the
spaced-repetition ease factor), file and clock I/O, and serde documents.

## `tests/`

Ordinary Rust tests against the library's public API.
