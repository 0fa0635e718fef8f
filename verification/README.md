# engram_graph

A columnar engine for graph queries, written and proved in Verus.

A query is a list of clauses over an abstract syntax (`ast`, `query`). The
library recognises the shapes that it can run column by column, rewrites some
queries into such a shape, and runs the plan over a property graph. Values stay
outside: a condition comes as a verdict per entity, a sort key as bytes, a
grouping key as a value per entity. A rewrite states which query it gives and when
it declines. That nothing changes is proved where it can be said without knowing
the values: of the order of a pattern's paths and the end that each is walked from,
of a match that is split where ends are distinct, and of a first part that is answered
ahead of the rest.

- `graph`, `edit`, `names`, `labels`, `sizes`, `levers`: the graph and its sizes.
- `chunk`, `operators`, `select`, `table`, `hop`: rows by column, and the steps
  and filters over them.
- `chain`, `preds`, `plan`, `aggregate`, `distinct`, `carry`, `stages`,
  `multistage`, `join_plan`, `member_posts`, `legs`, `dispatch`: the shapes of
  queries.
- `rewrite`, `fuse`, `split`, `prelude`, `hierarchy`, `reroot`, `reorder`,
  `ordering`, `constant`: rewrites.
- `meaning`, `clause_law`: that replacing names by what they stand for changes no
  value, and what clauses make of rows, whatever the values and the matches are.
- `trim_law`, `seed_law`, `prelude_law`: that a query whose first part is answered
  ahead of it returns what the query returns.
- `split_law`: that a split match gives the distinct rows of the match.
- `fold`, `fold_build`, `fold_plan`, `fold_run`, `leg_fold`: counting subtrees of
  a pattern in place of expanding them.
- `fold_model`, `fold_law`, `layout`, `ready`, `planned`, `counted_rows`,
  `cap_law`: what counting means, when a chain can be counted, that a count stands
  for the rows that expanding gives, and that a cap stops it only when there are
  enough.
- `match_law`, `planned_match`, `row_laws`, `turn_law`, `nest_law`, `order_law`,
  `traced`, `read_law`, `reorder_law`, `reordered_count`: that the steps of a
  chain find each match of its pattern once, in whatever order the paths are
  walked and from whichever end, so that a count planned on a reordered pattern is
  the count planned on the pattern, under the same conditions on named nodes.
- `chain_rows`, `runs`, `joins`, `join`, `optional`, `optional_run`, `batch`,
  `batched`, `seeds`: building the rows of a plan, at once or a batch at a time.
- `side_law`: that a side of a join may be built from the starts that the other side
  has.
- `reduce`, `group`, `group_laws`, `topk`, `readset`: groups and the first rows of
  an order.
- `morsels`: an expand by several workers, which gives the rows of one.
- `tally`, `degree`, `ordered`, `window`, `located`, `index_topk`: plans that need
  not build their rows.
- `degree_law`, `entry_law`, `located_law`: that such a plan answers with the rows or
  groups of the steps that it leaves out.
- `precision`: whether a write can change what a restriction matched.

Every function states in its contract what it returns. Properties that relate
several functions are proof functions whose names begin with `law_`.

`app/` asks a store and an expression evaluator for what the library takes as
plain values, and walks a query from its rewrites to its rows or groups. `tests/`
runs the library.
