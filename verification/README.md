# navpath

Route finding on a tile world, verified with Verus.

- `src/` is the library. Every function states in its contract what it returns, and Verus proves
  it. `snapshot` reads and writes the file that holds the world; `engine` decides what a caller may
  use, which goals can be reached and how often a search is tried; `route` resolves requests, tells
  paths as actions and lets engines race; `cache` and `service` hold what requests share; `planner`
  finds paths over clusters of tiles; `graph`, `jps`, `options` and `cost` list the edges of the
  world database.
- Proof functions whose names begin with `law_` state what holds of several functions together.
- Costs in milliseconds are bit patterns of binary32 numbers (`engine::weight`), times those of
  binary64 numbers (`engine::millis`). They are compared, added and converted on whole numbers
  (`engine::binary`), as the processor does.
- Calls into other crates stand behind small functions marked `external_body`, each with a comment
  that says what is believed of the call.
- `tests/` runs the library on concrete values.
- `app/` is the service around the library: settings, files, the database, HTTP.
