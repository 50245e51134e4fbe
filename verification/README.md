# classroom_grades

Exports the grades of Google Classroom courses to CSV files: one file per
course under `scores/`, a header line naming the assignments, then one line
per student (family name, given name, one score per assignment).

- `src/` is the verified library: the records of the Classroom API, the
  addresses of its endpoints, the choice of active courses, the paging of a
  roster, the stable sort of students and assignments, the grade table, the
  text of the grade file, and the export as a step function from the last
  outcome (an API answer, a write) to the next operation.
- `app/` is the program around it: OAuth with `yup-oauth2`, HTTP with
  `reqwest`, JSON with `serde`, files and concurrency with `tokio`. It
  performs the operations that the library's export steps ask for.
- `tests/` runs the library on concrete values.
