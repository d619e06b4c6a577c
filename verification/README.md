# morph_app

A trainer for Ancient Greek morphology. Paradigm texts are parsed into
tables, the tables into quiz rows tagged with grammar constants, and a quiz
session draws questions from the rows that pass the user's filters.

- `src/` is the library, verified with Verus:
  - `paradigm.rs` parses a paradigm text into its tables;
  - `records.rs` groups stored cells into tables, `catalog.rs` turns tables
    into quiz rows and stem views, `tags.rs` names and orders the constants;
  - `filters.rs` and `db.rs` hold the quiz data, the filter sections, the
    filter matching and the queries of the quiz;
  - `quiz.rs` builds the three kinds of questions and grades typed answers;
  - `models.rs` holds the data types, `session.rs` the session and its laws;
  - `text.rs` has the string helpers that the rest is written with.
- `tests/` runs the library on concrete values.
- `app/` reads and writes files and the SQLite store, keeps the statistics
  and presets, and drives a session from the terminal; it also holds the
  dioxus window components.
