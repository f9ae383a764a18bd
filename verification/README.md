# Exocore

A query engine for tables that exceed memory. The library in `src/` is written in Verus: every
function carries a contract, and the contracts are proved. The programs in `app/` do the input and
output around it.

## How the library is laid out

- Values and rows: `value`, `data_order`, `floats`, `row`, `text`, `lines`. Floating-point numbers
  are kept as bit patterns.
- Queries and plans: `query`, `names`, `join_order`, `plan`, `planner`, `plan_laws`. A query tree
  becomes a physical plan; a filter over cross products becomes joins in a greedy order.
- What a query means: `answer` gives the rows of a query without a plan; `sums`, `block_answer` and
  `plan_answer` show that its plan gives the same rows.
- Operators: `scan` (with `buffer`, `block_decode`, `block_search`, `scan_laws`), `filter`, `project`,
  `hash_join`, `loop_join`, `adaptive_join`, `sort`, each with the parts that it is made of.
- Temporary storage: `temp_storage`, `temp_run`, `codec`.
- Running a query: `pipeline` puts operators together, `execution` goes from a query to them,
  `context` runs it.
- Around the engine: `buffer_manager`, `streaming`, `protocol`, `metrics`, `validation`.

## How operators run

An operator never reads or writes by itself. Its `step` says what it needs next: a row of an input,
blocks of a table, blocks of temporary storage; or it gives a row out. The caller supplies what was
asked for and steps again. Writes to temporary storage are queued and handed out by
`take_writes`.

Each operator keeps a ghost record of what it was given and what it gave out. The contracts say how
the two relate at every step, and a law of each operator says what has been given out when it is
done: a sort gives out its input in order, a join gives out the join of its inputs.
Each operator also has a measure of what is left to do (`left_to_do`): a step that gives a row or
does some work comes nearer to the end, and so does supplying what was asked for. Work that comes
nearer with every step ends (`progress::work_ends`).
`QueryRun::run_gives_the_result` says the same of a whole plan, and
`QueryRun::run_answers_the_query` of the query that was planned.

An operator fails only for a reason that its contract names: a row that does not fit a page, a
storage without room for another batch (`roomy`), a pair of rows for which a test has no answer, or
memory that is not there.

## What is trusted

- `String::capacity`, by which the size of rows is estimated.
- `str::from_utf8`, by which stored strings are read.
