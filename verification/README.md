# dgit

Version control for the table layout of a PostgreSQL database: `init`,
`status`, `stage`, `unstage`, `commit`, `remove` and `log` over the tables
(schema, name, columns) of the database a repository follows.

- `src/` is the verified library: the table model (`dbconnector`), the text
  rules (`utils`), the repository files (`files`), the decisions of each
  command (`workflow`, `changes`, `command`) and the laws that hold of them
  (`laws`).
- `app/` is the command-line program: it reads the repository files, the
  database and the terminal, calls the library, and prints or stores what
  the library decides.
- `tests/` runs the library on concrete values.
