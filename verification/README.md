# mysync

Sync a local MySQL/MariaDB database to match a `mysqldump` file by touching only the tables and rows
that actually changed, instead of dropping the database and restoring the whole dump.

```
mysqldump -h prod -u root myapp | mysync myapp
```

The dump is always read from standard input, plain or gzip-compressed, which is detected from its
first bytes.

| flag | default | meaning |
|---|---|---|
| `--host` | `127.0.0.1` | MySQL/MariaDB host |
| `--port` | `3306` | port |
| `-u, --user` | `root` | username |
| `-p, --password` | empty, or `$MYSQL_PWD` | password |
| `database` | required | database to sync |
| `--batch-size` | `1000` | rows per `INSERT`/`DELETE` statement, fewer for very wide tables |
| `-j, --jobs` | `min(cores, 8)` | worker threads and connections for the diff step |
| `--tables-per-commit` | `0` (one commit at the end) | commit every N tables |
| `--per-table-transactions` | off | one transaction per table, applied concurrently |
| `--dry-run` | off | report what would change without touching the database |
| `-v, --verbose` | off | print progress, schema diff, statistics and times |

## Layout

`src/` is a library that is verified with Verus: everything that parses, compares and decides.

- `bytes`, `text`, `order`, `table_map`: bytes, strings, their order, and maps by table name.
- `sqlstream`: cuts a buffer into statements, parts and row tuples, aware of quotes, comments and the
  `DELIMITER` command.
- `values`: value tokens. `ddl`: `CREATE TABLE` statements. `dumpfile`: whole dumps.
- `rows`: the rows of a dump and of a query. `row_table`, `diff`: how they are compared.
- `plan`, `sync`: what has to change in tables and rows, and when a run is refused.
- `sqltext`, `dml`: the statements that apply a plan.
- `db`: schemas from `information_schema`. `run`: transactions, and what happens when one fails.
- `lexical`, `balance`, `name_list`, `readback`, `table_text`, `create_text`, `whole_dump`,
  `schema_laws`, `convergence`: what holds of all this together. A dump reads back as it was written; a
  plan, once applied, leaves exactly the rows of the dump; a second run finds nothing to do.

`app/` is the program around it: the command line, standard input, connections and threads.

## How it decides what changed

- Schema: names, types and nullability of the columns and the primary key are compared with
  `information_schema`. Where they differ the table is dropped, created from the dump's own
  `CREATE TABLE` statement and loaded again. Indexes, engine and character set do not matter.
- Rows are matched by the primary key, else by the first unique key without nullable columns. Without
  such a key they are compared as a multiset of whole rows.
- Foreign key checks are off for the whole run, as they are when a dump is restored.

Schema changes happen outside any transaction. All row changes are part of one transaction by default:
where anything fails, none of them is kept. With `--per-table-transactions` that holds for each table
on its own.

## Known correctness edge cases

An `INSERT ... ON DUPLICATE KEY UPDATE` collides on any unique constraint of a table, not only on the
key that rows are matched by. Before anything is changed, the schemas are therefore inspected, and the
whole run is refused, with a message for each table,

- where the key is not the only primary or unique key of its table, or
- where the database does not have the same key as the dump.

Tables without a usable key are not affected, since they get no such statement.

## What it does not do

Views, triggers and stored routines are skipped, whatever statements their bodies hold. There is no
`ALTER TABLE`: a changed table is built anew. One database is synced with one dump, and nothing else is
coordinated with.
