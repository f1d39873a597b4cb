# cute_report

Composes the report on the unit tests of a dbt project: the models in scope,
their CTE graphs, the unit tests on them with inputs and expectations, the
changes of a pull request, and what stands around them.

- `src/` is the library, verified with Verus. Each public function states in its
  contract what it returns. The functions named `law_…` are properties that hold
  of several functions together.
- `app/` writes a report out: its data as JSON, its page as HTML, the page to a
  file.
- `tests/` runs the library.

| module | what it holds |
|---|---|
| `text`, `order`, `table`, `span`, `scan` | texts, their order, tables keyed by text, positions and spans, byte scanning |
| `json` | JSON values, by way of `serde_json` |
| `domain` | the manifest, unit tests, CTE graphs, diffs and fixture tables |
| `refs` | `ref(…)` and `source(…)` |
| `jinja`, `anchor`, `sourcemap` | the control zones of a model's Jinja source, where they landed in the compiled text, the source map |
| `dag` | the CTE graph as it is drawn, and what inputs bind to |
| `columns`, `catalog` | what is known of columns and models |
| `findings` | the findings of coverage checks |
| `unit_tests`, `report` | unit tests, models and the report as a whole |
| `names`, `panel`, `macros`, `pr_dag`, `seeds` | the changes of the project file, of macros, of a pull request, and the seeds |
| `script` | JSON inside an HTML script element |
