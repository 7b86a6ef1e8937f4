# adabt-engine

The derived-state engine of an adaptive database, written and proved in Verus.

Records live in a store. Everything else is derived from them and can be rebuilt at
any time: indexes, directly addressed arrays, columnar copies, materialized views,
cached plans and results. The engine keeps all of it in step with every write, decides
what a planner may know, and proves a new structure against live traffic before
anything is served from it.

An optimization never changes an answer. `histories` proves it over steps: a collection
is created, altered, frozen or dropped; records are inserted, one by one or together,
replaced or deleted; indexes of every shape are made, changes to how records are kept are
carried out, pages are vacuumed, queries are asked. Two databases that begin with the same
records and are written the same, with any such steps in between, give a query that is no
join the same rows in the same order, whether a specialised path, a view, a kept result or
an execution answers it. Two things are taken as given there. Executing a plan is not part
of the library, so what it gives is taken to be told by the plan and the records. Records
that are addressed directly are taken to be as their layout gives them back: a field set
to null is one that is not there, and a number in a signed field is signed.

What an execution reads is proved to be what the records say: `index` and `answers` for
indexes, `columnar` for columnar copies, `reads` for arrays. A columnar copy keeps no value
that is not of its column's type. It knows when it passed one over, and is then not asked
for that field.

A database opened again has the indexes and constraints it had, everything derived agrees
with its records, and a query has the answer it had, from an intact cache, from a part of
one or from none: see `reopening`. That asks that every index be told by its name, as one
over fields without control characters in their names is.

- `src/` is the library. Every function has a contract, and the laws that hold of the
  library as a whole are public proof functions.
- `tests/` runs it.
- `app/` is the ordinary Rust around it: files, clocks, threads, floating-point
  arithmetic, and the interfaces to a record store and a planner.

## Layout of the library

| Modules | What they hold |
|---|---|
| `value`, `record`, `schema`, `expr`, `plan`, `action` | the vocabulary |
| `text`, `wire`, `number`, `assoc`, `strmap`, `rows`, `sorting`, `names` | what the rest is built from |
| `layout`, `exprcodec`, `journal`, `unique` | bytes |
| `double` | ratios, written as floating-point arithmetic writes them |
| `index`, `indexing`, `direct`, `column`, `matview`, `structures` | derived structures |
| `columnar`, `answers`, `histories` | what they answer is what the records answer |
| `derived`, `verify`, `constraints` | all of them together, against the records |
| `caches`, `compiled`, `observe`, `infer`, `optimizations`, `policy` | what queries teach, and what follows |
| `shadow`, `experiment`, `trials`, `proving`, `planning` | proving a change before it is trusted |
| `transaction`, `committing`, `sharded` | several writes, several databases |
| `database`, `managing`, `applying`, `reads`, `queries`, `opening`, `reopening`, `whole` | a database |

## Formats

Index entries, records of constant size, schemas and values are encoded as the modules
under "bytes" say. That files written by other programs agree with these encodings is
not shown anywhere here.
